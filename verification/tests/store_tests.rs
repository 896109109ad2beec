use budget_forecast::codec::encode_store;
use budget_forecast::date::Date;
use budget_forecast::store::{BudgetState, StoreError};

fn d(year: u32, month: u32, day: u32) -> Date {
    Date { year, month, day }
}

#[test]
fn new_store_is_empty() {
    let s = BudgetState::new(0);
    assert_eq!(s.balance, 0);
    assert_eq!(s.list_transactions().len(), 0);
}

#[test]
fn add_and_list() {
    let mut s = BudgetState::new(100_000);
    s.add_transaction(-20_000, d(2024, 1, 20), Some(("monthly".to_string(), 2)), "rent".to_string());
    s.add_transaction(5_000, d(2024, 2, 1), None, "gift".to_string());
    let listed = s.list_transactions();
    assert_eq!(listed.len(), 2);
    assert_eq!(listed[0].0, 0);
    assert_eq!(listed[0].1.amount, -20_000);
    assert_eq!(listed[0].1.date, d(2024, 1, 20));
    assert_eq!(listed[0].1.recurrence, Some(("monthly".to_string(), 2)));
    assert_eq!(listed[0].1.note, "rent");
    assert_eq!(listed[1].0, 1);
    assert_eq!(listed[1].1.amount, 5_000);
    assert_eq!(listed[1].1.recurrence, None);
}

#[test]
fn delete_shifts_later_positions() {
    let mut s = BudgetState::new(0);
    s.add_transaction(1, d(2024, 1, 1), None, "first".to_string());
    s.add_transaction(2, d(2024, 1, 2), None, "second".to_string());
    s.add_transaction(3, d(2024, 1, 3), None, "third".to_string());
    assert_eq!(s.delete_transaction(1), Ok(()));
    let listed = s.list_transactions();
    assert_eq!(listed.len(), 2);
    assert_eq!(listed[0].1.note, "first");
    assert_eq!(listed[1].0, 1);
    assert_eq!(listed[1].1.note, "third");
}

#[test]
fn delete_out_of_range_leaves_store_unchanged() {
    let mut s = BudgetState::new(42);
    s.add_transaction(7, d(2024, 3, 4), None, "only".to_string());
    let before = encode_store(&s);
    assert_eq!(s.delete_transaction(1), Err(StoreError::IndexOutOfRange));
    assert_eq!(s.delete_transaction(100), Err(StoreError::IndexOutOfRange));
    let after = encode_store(&s);
    assert_eq!(before, after);
    assert_eq!(s.balance, 42);
    assert_eq!(s.list_transactions().len(), 1);
}

#[test]
fn edit_replaces_every_field() {
    let mut s = BudgetState::new(0);
    s.add_transaction(1, d(2024, 1, 1), None, "before".to_string());
    let r = s.edit_transaction(
        0,
        -9,
        d(2025, 6, 7),
        Some(("weekly".to_string(), 4)),
        "after".to_string(),
    );
    assert_eq!(r, Ok(()));
    let listed = s.list_transactions();
    assert_eq!(listed[0].1.amount, -9);
    assert_eq!(listed[0].1.date, d(2025, 6, 7));
    assert_eq!(listed[0].1.recurrence, Some(("weekly".to_string(), 4)));
    assert_eq!(listed[0].1.note, "after");
}

#[test]
fn edit_out_of_range_leaves_store_unchanged() {
    let mut s = BudgetState::new(5);
    s.add_transaction(1, d(2024, 1, 1), None, "keep".to_string());
    let before = encode_store(&s);
    let r = s.edit_transaction(3, 2, d(2024, 2, 2), None, "lost".to_string());
    assert_eq!(r, Err(StoreError::IndexOutOfRange));
    assert_eq!(encode_store(&s), before);
}
