//! The forecast engine.
//!
//! Every transaction is expanded into a list of dated events: the original
//! occurrence plus, for a recognized recurrence period, one event per
//! additional occurrence, each a fixed number of days after the previous.
//! The events are ordered by date (stable for equal dates) and walked
//! against the first day of each of the next twelve calendar months,
//! accumulating a running balance from the store's balance.

use crate::date::{
    add_days, date_before, date_lt, date_ok, month_start_after, next_month_first, plus_days,
    Date, MAX_YEAR,
};
use crate::store::{BudgetState, StoreView, Transaction, TransactionView};
use vstd::arithmetic::mul::lemma_mul_inequality;
use vstd::prelude::*;

verus! {

/// A single dated occurrence derived from a transaction.
#[derive(Clone, Copy, PartialEq, Eq, Structural, Debug)]
pub struct Event {
    pub date: Date,
    pub amount: i64,
}

/// Days advanced per occurrence for each recognized period name.
pub open spec fn step_of(period: Seq<char>) -> Option<u64> {
    if period == "weekly"@ {
        Some(7u64)
    } else if period == "biweekly"@ {
        Some(14u64)
    } else if period == "monthly"@ {
        Some(30u64)
    } else {
        None
    }
}

/// Days spanned by a transaction's expansion beyond its first date.
pub open spec fn span_days(t: TransactionView) -> int {
    match t.recurrence {
        Some((p, c)) => match step_of(p) {
            Some(s) => c * s,
            None => 0,
        },
        None => 0,
    }
}

/// Every expanded event date stays within the supported year range.
pub open spec fn dates_in_range(txs: Seq<TransactionView>) -> bool {
    forall|i: int|
        0 <= i < txs.len() ==> {
            &&& date_ok((#[trigger] txs[i]).date)
            &&& txs[i].date.year + span_days(txs[i]) <= MAX_YEAR
        }
}

/// The events a single transaction expands to.
pub open spec fn events_of(t: TransactionView) -> Seq<Event> {
    match t.recurrence {
        Some((p, c)) => match step_of(p) {
            Some(s) => Seq::new(
                (c + 1) as nat,
                |j: int| Event { date: plus_days(t.date, (j * s) as nat), amount: t.amount },
            ),
            None => seq![Event { date: t.date, amount: t.amount }],
        },
        None => seq![Event { date: t.date, amount: t.amount }],
    }
}

/// The concatenated expansion of a transaction list, in input order.
pub open spec fn expand_all(txs: Seq<TransactionView>) -> Seq<Event>
    decreases txs.len(),
{
    if txs.len() == 0 {
        Seq::empty()
    } else {
        expand_all(txs.drop_last()) + events_of(txs.last())
    }
}

/// Expansion cardinality: a recognized recurrence with `c` additional
/// occurrences yields exactly `c + 1` events; an unrecognized period or no
/// recurrence yields exactly one event.
pub proof fn lemma_expansion_cardinality(t: TransactionView)
    ensures
        t.recurrence matches Some((p, c)) ==> events_of(t).len() == (
        if step_of(p) is Some {
            c + 1
        } else {
            1
        }),
        t.recurrence is None ==> events_of(t).len() == 1,
{
}

/// Step correctness: within a recognized recurrence, each event date is
/// exactly the period's step beyond the previous event's date.
pub proof fn lemma_step_correctness(t: TransactionView, p: Seq<char>, c: usize, s: u64, j: int)
    requires
        t.recurrence == Some((p, c)),
        step_of(p) == Some(s),
        0 <= j < c,
    ensures
        events_of(t)[j + 1].date == plus_days(events_of(t)[j].date, s as nat),
{
    assert((j + 1) * s == j * s + s) by (nonlinear_arith);
    assert(j * s >= 0) by (nonlinear_arith)
        requires
            j >= 0,
            s >= 0,
    ;
    crate::date::lemma_plus_days_add(t.date, (j * s) as nat, s as nat);
}

/// Recognizes a recurrence period name.
fn period_step(period: &String) -> (r: Option<u64>)
    ensures
        r == step_of(period@),
{
    let weekly: String = String::from_str("weekly");
    let biweekly: String = String::from_str("biweekly");
    let monthly: String = String::from_str("monthly");
    if *period == weekly {
        Some(7)
    } else if *period == biweekly {
        Some(14)
    } else if *period == monthly {
        Some(30)
    } else {
        None
    }
}

/// Expands every transaction into its dated events, in input order.
pub fn expand_events(txs: &Vec<Transaction>) -> (r: Vec<Event>)
    requires
        dates_in_range(crate::store::views_of(txs@)),
    ensures
        r@ == expand_all(crate::store::views_of(txs@)),
{
    let ghost tviews = crate::store::views_of(txs@);
    let mut events: Vec<Event> = Vec::new();
    let mut i: usize = 0;
    while i < txs.len()
        invariant
            i <= txs.len(),
            tviews == crate::store::views_of(txs@),
            dates_in_range(tviews),
            events@ == expand_all(tviews.take(i as int)),
        decreases txs.len() - i,
    {
        let t = &txs[i];
        let ghost tv = tviews[i as int];
        proof {
            assert(tv == txs@[i as int]@);
        }
        events.push(Event { date: t.date, amount: t.amount });
        let ghost after_first = expand_all(tviews.take(i as int)) + events_of(tv).take(1);
        proof {
            assert(events_of(tv)[0] == Event { date: tv.date, amount: tv.amount });
            assert(events_of(tv).take(1) =~= seq![Event { date: tv.date, amount: tv.amount }]);
            assert(events@ =~= after_first);
        }
        match &t.recurrence {
            Some((p, c)) => {
                match period_step(p) {
                    Some(s) => {
                        proof {
                            assert(tv.recurrence == Some((p@, *c)));
                            assert(span_days(tv) == (*c) * s);
                        }
                        let mut cur = t.date;
                        let mut j: usize = 0;
                        while j < *c
                            invariant
                                j <= *c,
                                tv.recurrence == Some((p@, *c)),
                                step_of(p@) == Some(s),
                                date_ok(tv.date),
                                tv.date.year + (*c) * s <= MAX_YEAR,
                                cur == plus_days(tv.date, (j * s) as nat),
                                events@ == expand_all(tviews.take(i as int)) + events_of(
                                    tv,
                                ).take(j + 1),
                                tv.amount == t.amount,
                            decreases *c - j,
                        {
                            proof {
                                assert(j * s >= 0) by (nonlinear_arith)
                                    requires
                                        j >= 0,
                                        s >= 0,
                                ;
                                assert((j + 1) * s == j * s + s) by (nonlinear_arith);
                                lemma_mul_inequality((j + 1) as int, (*c) as int, s as int);
                                crate::date::lemma_plus_days_ok(tv.date, (j * s) as nat);
                            }
                            cur = add_days(cur, s);
                            proof {
                                crate::date::lemma_plus_days_add(tv.date, (j * s) as nat, s as nat);
                                assert(cur == plus_days(tv.date, ((j + 1) * s) as nat));
                            }
                            events.push(Event { date: cur, amount: t.amount });
                            proof {
                                assert(events_of(tv)[j + 1] == Event { date: cur, amount: tv.amount });
                                assert(events_of(tv).take(j + 2) =~= events_of(tv).take(j + 1).push(
                                    Event { date: cur, amount: tv.amount },
                                ));
                                assert(events@ =~= expand_all(tviews.take(i as int)) + events_of(
                                    tv,
                                ).take(j + 2));
                            }
                            j = j + 1;
                        }
                        proof {
                            assert(events_of(tv).take((*c + 1) as int) =~= events_of(tv));
                        }
                    },
                    None => {
                        proof {
                            assert(events_of(tv) =~= events_of(tv).take(1));
                        }
                    },
                }
            },
            None => {
                proof {
                    assert(events_of(tv) =~= events_of(tv).take(1));
                }
            },
        }
        proof {
            assert(tviews.take(i + 1).drop_last() =~= tviews.take(i as int));
            assert(tviews.take(i + 1).last() == tv);
            assert(expand_all(tviews.take(i + 1)) == expand_all(tviews.take(i as int)) + events_of(
                tv,
            ));
        }
        i = i + 1;
    }
    proof {
        assert(tviews.take(txs@.len() as int) =~= tviews);
    }
    events
}

/// Events in non-decreasing date order.
pub open spec fn sorted_by_date(s: Seq<Event>) -> bool {
    forall|i: int, j: int|
        0 <= i < j < s.len() ==> !date_before((#[trigger] s[j]).date, (#[trigger] s[i]).date)
}

/// Inserts an event into a date-ordered sequence, after every event whose
/// date is not later; this keeps input order among equal dates.
pub open spec fn insert_sorted(e: Event, s: Seq<Event>) -> Seq<Event>
    decreases s.len(),
{
    if s.len() == 0 {
        seq![e]
    } else if !date_before(e.date, s.last().date) {
        s.push(e)
    } else {
        insert_sorted(e, s.drop_last()).push(s.last())
    }
}

/// Stable insertion sort of events by date.
pub open spec fn sort_events(s: Seq<Event>) -> Seq<Event>
    decreases s.len(),
{
    if s.len() == 0 {
        Seq::empty()
    } else {
        insert_sorted(s.last(), sort_events(s.drop_last()))
    }
}

/// Sum of the amounts of all events.
pub open spec fn sum_amounts(s: Seq<Event>) -> int
    decreases s.len(),
{
    if s.len() == 0 {
        0
    } else {
        sum_amounts(s.drop_last()) + s.last().amount
    }
}

/// The absolute value of an integer.
pub open spec fn abs_val(x: int) -> int {
    if x < 0 {
        -x
    } else {
        x
    }
}

/// Sum of the absolute amounts of all events.
pub open spec fn sum_abs(s: Seq<Event>) -> int
    decreases s.len(),
{
    if s.len() == 0 {
        0
    } else {
        sum_abs(s.drop_last()) + abs_val(s.last().amount as int)
    }
}

/// Sum of the amounts of the events dated strictly before `c`.
pub open spec fn sum_before(s: Seq<Event>, c: Date) -> int
    decreases s.len(),
{
    if s.len() == 0 {
        0
    } else {
        sum_before(s.drop_last(), c) + if date_before(s.last().date, c) {
            s.last().amount as int
        } else {
            0
        }
    }
}

proof fn lemma_insert_sorted_bound(e: Event, s: Seq<Event>, b: Date)
    requires
        !date_before(b, e.date),
        forall|i: int| 0 <= i < s.len() ==> !date_before(b, (#[trigger] s[i]).date),
    ensures
        insert_sorted(e, s).len() == s.len() + 1,
        forall|i: int|
            0 <= i < insert_sorted(e, s).len() ==> !date_before(
                b,
                (#[trigger] insert_sorted(e, s)[i]).date,
            ),
    decreases s.len(),
{
    if s.len() != 0 && date_before(e.date, s.last().date) {
        lemma_insert_sorted_bound(e, s.drop_last(), b);
    }
}

proof fn lemma_insert_sorted_sorted(e: Event, s: Seq<Event>)
    requires
        sorted_by_date(s),
    ensures
        insert_sorted(e, s).len() == s.len() + 1,
        sorted_by_date(insert_sorted(e, s)),
    decreases s.len(),
{
    if s.len() == 0 {
    } else if !date_before(e.date, s.last().date) {
    } else {
        assert(sorted_by_date(s.drop_last()));
        lemma_insert_sorted_sorted(e, s.drop_last());
        lemma_insert_sorted_bound(e, s.drop_last(), s.last().date);
    }
}

/// The stable sort produces a date-ordered sequence of the same length.
pub proof fn lemma_sort_events_sorted(s: Seq<Event>)
    ensures
        sort_events(s).len() == s.len(),
        sorted_by_date(sort_events(s)),
    decreases s.len(),
{
    if s.len() != 0 {
        lemma_sort_events_sorted(s.drop_last());
        lemma_insert_sorted_sorted(s.last(), sort_events(s.drop_last()));
    }
}

proof fn lemma_insert_sum_before(e: Event, s: Seq<Event>, c: Date)
    ensures
        sum_before(insert_sorted(e, s), c) == sum_before(s, c) + if date_before(e.date, c) {
            e.amount as int
        } else {
            0
        },
    decreases s.len(),
{
    if s.len() == 0 {
        assert(insert_sorted(e, s).drop_last() =~= s);
    } else if !date_before(e.date, s.last().date) {
        assert(s.push(e).drop_last() =~= s);
    } else {
        lemma_insert_sum_before(e, s.drop_last(), c);
        assert(insert_sorted(e, s.drop_last()).push(s.last()).drop_last() =~= insert_sorted(
            e,
            s.drop_last(),
        ));
    }
}

/// Sorting does not change the sum of amounts before any cutoff date.
pub proof fn lemma_sort_sum_before(s: Seq<Event>, c: Date)
    ensures
        sum_before(sort_events(s), c) == sum_before(s, c),
    decreases s.len(),
{
    if s.len() != 0 {
        lemma_sort_sum_before(s.drop_last(), c);
        lemma_insert_sum_before(s.last(), sort_events(s.drop_last()), c);
    }
}

proof fn lemma_insert_sum_abs(e: Event, s: Seq<Event>)
    ensures
        sum_abs(insert_sorted(e, s)) == sum_abs(s) + abs_val(e.amount as int),
    decreases s.len(),
{
    if s.len() == 0 {
        assert(insert_sorted(e, s).drop_last() =~= s);
    } else if !date_before(e.date, s.last().date) {
        assert(s.push(e).drop_last() =~= s);
    } else {
        lemma_insert_sum_abs(e, s.drop_last());
        assert(insert_sorted(e, s.drop_last()).push(s.last()).drop_last() =~= insert_sorted(
            e,
            s.drop_last(),
        ));
    }
}

/// Sorting does not change the sum of absolute amounts.
pub proof fn lemma_sort_sum_abs(s: Seq<Event>)
    ensures
        sum_abs(sort_events(s)) == sum_abs(s),
    decreases s.len(),
{
    if s.len() != 0 {
        lemma_sort_sum_abs(s.drop_last());
        lemma_insert_sum_abs(s.last(), sort_events(s.drop_last()));
    }
}

proof fn lemma_sum_amounts_bounded(s: Seq<Event>)
    ensures
        abs_val(sum_amounts(s)) <= sum_abs(s),
    decreases s.len(),
{
    if s.len() != 0 {
        lemma_sum_amounts_bounded(s.drop_last());
    }
}

proof fn lemma_sum_abs_take(s: Seq<Event>, p: int)
    requires
        0 <= p <= s.len(),
    ensures
        sum_abs(s.take(p)) <= sum_abs(s),
    decreases s.len(),
{
    if p == s.len() {
        assert(s.take(p) =~= s);
    } else {
        assert(s.drop_last().take(p) =~= s.take(p));
        lemma_sum_abs_take(s.drop_last(), p);
        assert(abs_val(s.last().amount as int) >= 0);
    }
}

proof fn lemma_sum_take_step(s: Seq<Event>, p: int)
    requires
        0 <= p < s.len(),
    ensures
        sum_amounts(s.take(p + 1)) == sum_amounts(s.take(p)) + s[p].amount,
{
    assert(s.take(p + 1).drop_last() =~= s.take(p));
    assert(s.take(p + 1).last() == s[p]);
}

proof fn lemma_sorted_cut(s: Seq<Event>, c: Date, p: int)
    requires
        sorted_by_date(s),
        0 <= p <= s.len(),
        forall|i: int| 0 <= i < p ==> date_before((#[trigger] s[i]).date, c),
        forall|i: int| p <= i < s.len() ==> !date_before((#[trigger] s[i]).date, c),
    ensures
        sum_before(s, c) == sum_amounts(s.take(p)),
    decreases s.len(),
{
    if s.len() == 0 {
        assert(s.take(p) =~= s);
    } else {
        assert(sorted_by_date(s.drop_last()));
        if p == s.len() {
            lemma_sorted_cut(s.drop_last(), c, p - 1);
            assert(s.drop_last().take(p - 1) =~= s.drop_last());
            assert(s.take(p) =~= s);
        } else {
            lemma_sorted_cut(s.drop_last(), c, p);
            assert(s.drop_last().take(p) =~= s.take(p));
        }
    }
}

/// The first day of each of the twelve months after the as-of date.
pub open spec fn checkpoint(as_of: Date, k: nat) -> Date
    decreases k,
{
    if k == 0 {
        next_month_first(as_of)
    } else {
        next_month_first(checkpoint(as_of, (k - 1) as nat))
    }
}

/// Checkpoints are always the first of a month, and each checkpoint is one
/// calendar month after the previous one.
pub proof fn lemma_checkpoint_shape(as_of: Date, k: nat)
    requires
        1 <= as_of.month <= 12,
        as_of.year <= MAX_YEAR,
        k <= 12,
    ensures
        1 <= checkpoint(as_of, k).month <= 12,
        checkpoint(as_of, k).day == 1,
        checkpoint(as_of, k).year * 12 + checkpoint(as_of, k).month == as_of.year * 12
            + as_of.month + 1 + k,
    decreases k,
{
    if k != 0 {
        lemma_checkpoint_shape(as_of, (k - 1) as nat);
        let prev = checkpoint(as_of, (k - 1) as nat);
        assert(prev.year * 12 < (as_of.year + 3) * 12);
    }
}

/// Checkpoint dates are the first of consecutive calendar months and are
/// strictly increasing.
pub proof fn lemma_checkpoint_dates(as_of: Date, k: nat)
    requires
        1 <= as_of.month <= 12,
        as_of.year <= MAX_YEAR,
        k + 1 <= 12,
    ensures
        checkpoint(as_of, k).day == 1,
        checkpoint(as_of, k + 1) == next_month_first(checkpoint(as_of, k)),
        date_before(checkpoint(as_of, k), checkpoint(as_of, k + 1)),
{
    lemma_checkpoint_shape(as_of, k);
    let c = checkpoint(as_of, k);
    assert(c.year * 12 < (as_of.year + 3) * 12);
    assert(checkpoint(as_of, k + 1) == next_month_first(checkpoint(as_of, (k + 1 - 1) as nat)));
}

/// The balance the forecast reports at checkpoint `k`: the store's balance
/// plus every expanded event dated strictly before that checkpoint.
pub open spec fn forecast_balance(s: StoreView, as_of: Date, k: nat) -> int {
    s.balance + sum_before(expand_all(s.transactions), checkpoint(as_of, k))
}

/// A twelve-month balance trajectory.
pub struct ForecastResult {
    /// Exactly twelve (first-of-month date, balance) pairs.
    pub checkpoints: Vec<(Date, i64)>,
    /// Whether any checkpoint balance was zero or below.
    pub reached_nonpositive: bool,
}

/// Places an event into a date-ordered vector, after equal dates.
fn insert_event(out: &mut Vec<Event>, e: Event)
    ensures
        final(out)@ == insert_sorted(e, old(out)@),
{
    let mut k = out.len();
    while k > 0 && date_lt(e.date, out[k - 1].date)
        invariant
            k <= out.len(),
            forall|i: int| k <= i < out@.len() ==> date_before(e.date, (#[trigger] out@[i]).date),
        decreases k,
    {
        k = k - 1;
    }
    proof {
        lemma_insert_position(e, out@, k as int);
    }
    out.insert(k, e);
}

proof fn lemma_insert_position(e: Event, s: Seq<Event>, k: int)
    requires
        0 <= k <= s.len(),
        forall|i: int| k <= i < s.len() ==> date_before(e.date, (#[trigger] s[i]).date),
        k > 0 ==> !date_before(e.date, s[k - 1].date),
    ensures
        insert_sorted(e, s) == s.insert(k, e),
    decreases s.len(),
{
    if s.len() == 0 {
        assert(insert_sorted(e, s) =~= s.insert(k, e));
    } else if !date_before(e.date, s.last().date) {
        assert(k == s.len());
        assert(insert_sorted(e, s) =~= s.insert(k, e));
    } else {
        lemma_insert_position(e, s.drop_last(), k);
        assert(insert_sorted(e, s.drop_last()).push(s.last()) =~= s.insert(k, e));
    }
}

/// Sorts events by date; the order of events with equal dates is kept.
pub fn sort_by_date(v: &Vec<Event>) -> (r: Vec<Event>)
    ensures
        r@ == sort_events(v@),
{
    let mut out: Vec<Event> = Vec::new();
    let mut i: usize = 0;
    while i < v.len()
        invariant
            i <= v.len(),
            out@ == sort_events(v@.take(i as int)),
        decreases v.len() - i,
    {
        insert_event(&mut out, v[i]);
        proof {
            assert(v@.take(i + 1).drop_last() =~= v@.take(i as int));
            assert(v@.take(i + 1).last() == v@[i as int]);
        }
        i = i + 1;
    }
    proof {
        assert(v@.take(v@.len() as int) =~= v@);
    }
    out
}

impl BudgetState {
    /// Projects the balance at the first day of each of the next twelve
    /// calendar months, and reports whether any projected balance was zero
    /// or below.  The store is not changed.  The caller supplies the as-of
    /// date; the preconditions keep every expanded event date within the
    /// supported year range and the running balance within a 64-bit value.
    #[verifier::loop_isolation(false)]
    pub fn forecast(&self, as_of: Date) -> (r: ForecastResult)
        requires
            date_ok(as_of),
            as_of.year + 1 <= MAX_YEAR,
            dates_in_range(self@.transactions),
            abs_val(self@.balance as int) + sum_abs(expand_all(self@.transactions))
                <= i64::MAX,
        ensures
            r.checkpoints@.len() == 12,
            forall|k: int|
                0 <= k < 12 ==> (#[trigger] r.checkpoints@[k]).0 == checkpoint(as_of, k as nat),
            forall|k: int|
                0 <= k < 12 ==> (#[trigger] r.checkpoints@[k]).1 as int == forecast_balance(
                    self@,
                    as_of,
                    k as nat,
                ),
            r.reached_nonpositive == (exists|k: int|
                0 <= k < 12 && (#[trigger] r.checkpoints@[k]).1 <= 0),
    {
        let raw = expand_events(&self.transactions);
        let events = sort_by_date(&raw);
        proof {
            lemma_sort_events_sorted(raw@);
            lemma_sort_sum_abs(raw@);
        }
        let mut out: Vec<(Date, i64)> = Vec::new();
        let mut hit = false;
        let mut bal = self.balance;
        let mut cur = as_of;
        let mut p: usize = 0;
        let mut k: usize = 0;
        while k < 12
            invariant
                k <= 12,
                out@.len() == k,
                p <= events@.len(),
                cur == if k == 0 {
                    as_of
                } else {
                    checkpoint(as_of, (k - 1) as nat)
                },
                forall|i: int| 0 <= i < p ==> date_before((#[trigger] events@[i]).date, cur),
                bal as int == self@.balance + sum_amounts(events@.take(p as int)),
                forall|j: int|
                    0 <= j < k ==> (#[trigger] out@[j]).0 == checkpoint(as_of, j as nat),
                forall|j: int|
                    0 <= j < k ==> (#[trigger] out@[j]).1 as int == forecast_balance(
                        self@,
                        as_of,
                        j as nat,
                    ),
                hit == (exists|j: int| 0 <= j < out@.len() && (#[trigger] out@[j]).1 <= 0),
            decreases 12 - k,
        {
            proof {
                if k > 0 {
                    lemma_checkpoint_shape(as_of, (k - 1) as nat);
                    assert(cur.year * 12 + cur.month <= as_of.year * 12 + as_of.month + 11);
                    if cur.month == 12 {
                        assert(cur.year < MAX_YEAR);
                    }
                }
            }
            let prev = cur;
            cur = month_start_after(cur);
            proof {
                assert(cur == checkpoint(as_of, k as nat));
                lemma_checkpoint_shape(as_of, k as nat);
                assert(date_before(prev, cur));
                assert forall|i: int| 0 <= i < p implies date_before(
                    (#[trigger] events@[i]).date,
                    cur,
                ) by {
                    assert(date_before(events@[i].date, prev));
                }
            }
            while p < events.len() && date_lt(events[p].date, cur)
                invariant
                    p <= events@.len(),
                    forall|i: int| 0 <= i < p ==> date_before((#[trigger] events@[i]).date, cur),
                    bal as int == self@.balance + sum_amounts(events@.take(p as int)),
                decreases events@.len() - p,
            {
                proof {
                    lemma_sum_take_step(events@, p as int);
                    lemma_sum_amounts_bounded(events@.take(p + 1));
                    lemma_sum_abs_take(events@, p + 1);
                }
                bal = bal + events[p].amount;
                p = p + 1;
            }
            proof {
                assert forall|i: int| p <= i < events@.len() implies !date_before(
                    (#[trigger] events@[i]).date,
                    cur,
                ) by {
                    assert(!date_before(events@[p as int].date, cur));
                    assert(!date_before(events@[i].date, events@[p as int].date));
                }
                lemma_sorted_cut(events@, cur, p as int);
                lemma_sort_sum_before(raw@, cur);
                assert(bal as int == forecast_balance(self@, as_of, k as nat));
            }
            let ghost prev_out = out@;
            out.push((cur, bal));
            if bal <= 0 {
                hit = true;
            }
            proof {
                if hit {
                    if bal <= 0 {
                        assert(out@[out@.len() - 1].1 <= 0);
                    } else {
                        let w = choose|j: int|
                            0 <= j < prev_out.len() && (#[trigger] prev_out[j]).1 <= 0;
                        assert(out@[w].1 <= 0);
                    }
                }
            }
            k = k + 1;
        }
        ForecastResult { checkpoints: out, reached_nonpositive: hit }
    }
}

} // verus!

