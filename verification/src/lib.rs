//! Personal budget tracking with a verified monthly balance forecast.
//!
//! The crate keeps a running balance together with a list of dated
//! transactions, some of which repeat on a weekly, biweekly or monthly
//! schedule.  Its core is a forecast engine that expands the repeating
//! transactions into concrete dated events, orders them, and walks them
//! against the first day of each of the next twelve calendar months to
//! produce a balance trajectory.  A small text codec persists the store
//! and is proved to round-trip.

pub mod codec;
pub mod date;
pub mod forecast;
pub mod store;
