use budget_forecast::date::Date;
use budget_forecast::forecast::{expand_events, sort_by_date};
use budget_forecast::store::BudgetState;

fn d(year: u32, month: u32, day: u32) -> Date {
    Date { year, month, day }
}

/// Starting balance 1000.00, as-of 2024-01-15, one transaction of -200.00
/// on 2024-01-20 recurring monthly twice more: events fall on 2024-01-20,
/// 2024-02-19 and 2024-03-20, and the twelve checkpoints run 800.00,
/// 600.00, then 400.00 for the rest of the year.
#[test]
fn example_scenario() {
    let mut s = BudgetState::new(100_000);
    s.add_transaction(
        -20_000,
        d(2024, 1, 20),
        Some(("monthly".to_string(), 2)),
        String::new(),
    );

    let events = expand_events(&s.transactions);
    assert_eq!(events.len(), 3);
    assert_eq!(events[0].date, d(2024, 1, 20));
    assert_eq!(events[1].date, d(2024, 2, 19));
    assert_eq!(events[2].date, d(2024, 3, 20));
    assert!(events.iter().all(|e| e.amount == -20_000));

    let r = s.forecast(d(2024, 1, 15));
    assert_eq!(r.checkpoints.len(), 12);
    assert_eq!(r.checkpoints[0], (d(2024, 2, 1), 80_000));
    assert_eq!(r.checkpoints[1], (d(2024, 3, 1), 60_000));
    assert_eq!(r.checkpoints[2], (d(2024, 4, 1), 40_000));
    for k in 3..12 {
        assert_eq!(r.checkpoints[k].1, 40_000);
    }
    assert_eq!(r.checkpoints[11].0, d(2025, 1, 1));
    assert!(!r.reached_nonpositive);
}

#[test]
fn expansion_counts() {
    let mut s = BudgetState::new(0);
    s.add_transaction(10, d(2024, 1, 1), Some(("weekly".to_string(), 3)), String::new());
    assert_eq!(expand_events(&s.transactions).len(), 4);

    let mut u = BudgetState::new(0);
    u.add_transaction(10, d(2024, 1, 1), Some(("yearly".to_string(), 3)), String::new());
    assert_eq!(expand_events(&u.transactions).len(), 1);

    let mut o = BudgetState::new(0);
    o.add_transaction(10, d(2024, 1, 1), None, String::new());
    assert_eq!(expand_events(&o.transactions).len(), 1);

    let mut z = BudgetState::new(0);
    z.add_transaction(10, d(2024, 1, 1), Some(("weekly".to_string(), 0)), String::new());
    assert_eq!(expand_events(&z.transactions).len(), 1);
}

#[test]
fn expansion_steps() {
    let mut s = BudgetState::new(0);
    s.add_transaction(1, d(2024, 1, 1), Some(("weekly".to_string(), 2)), String::new());
    let ev = expand_events(&s.transactions);
    assert_eq!(ev[0].date, d(2024, 1, 1));
    assert_eq!(ev[1].date, d(2024, 1, 8));
    assert_eq!(ev[2].date, d(2024, 1, 15));

    let mut b = BudgetState::new(0);
    b.add_transaction(1, d(2024, 1, 25), Some(("biweekly".to_string(), 1)), String::new());
    let ev = expand_events(&b.transactions);
    assert_eq!(ev[1].date, d(2024, 2, 8));

    let mut m = BudgetState::new(0);
    m.add_transaction(1, d(2024, 1, 20), Some(("monthly".to_string(), 1)), String::new());
    let ev = expand_events(&m.transactions);
    assert_eq!(ev[1].date, d(2024, 2, 19));
}

#[test]
fn always_twelve_checkpoints() {
    let empty = BudgetState::new(0);
    let r = empty.forecast(d(2024, 6, 30));
    assert_eq!(r.checkpoints.len(), 12);

    let mut deep = BudgetState::new(-5);
    deep.add_transaction(-1_000_000, d(2024, 1, 1), None, String::new());
    let r = deep.forecast(d(2024, 1, 1));
    assert_eq!(r.checkpoints.len(), 12);
    assert!(r.reached_nonpositive);
}

#[test]
fn checkpoints_are_consecutive_month_firsts() {
    let s = BudgetState::new(1);
    let r = s.forecast(d(2024, 1, 15));
    let expected = [
        d(2024, 2, 1),
        d(2024, 3, 1),
        d(2024, 4, 1),
        d(2024, 5, 1),
        d(2024, 6, 1),
        d(2024, 7, 1),
        d(2024, 8, 1),
        d(2024, 9, 1),
        d(2024, 10, 1),
        d(2024, 11, 1),
        d(2024, 12, 1),
        d(2025, 1, 1),
    ];
    for (k, want) in expected.iter().enumerate() {
        assert_eq!(r.checkpoints[k].0, *want);
        assert_eq!(r.checkpoints[k].0.day, 1);
    }
    for k in 1..12 {
        let a = r.checkpoints[k - 1].0;
        let b = r.checkpoints[k].0;
        assert!(a.year < b.year || (a.year == b.year && a.month < b.month));
    }
}

#[test]
fn balances_accumulate_events_before_each_checkpoint() {
    let mut s = BudgetState::new(1_000);
    s.add_transaction(-300, d(2024, 3, 10), None, String::new());
    s.add_transaction(500, d(2024, 4, 30), None, String::new());
    s.add_transaction(-100, d(2030, 1, 1), None, String::new());
    let r = s.forecast(d(2024, 2, 20));
    assert_eq!(r.checkpoints[0], (d(2024, 3, 1), 1_000));
    assert_eq!(r.checkpoints[1], (d(2024, 4, 1), 700));
    assert_eq!(r.checkpoints[2], (d(2024, 5, 1), 1_200));
    assert_eq!(r.checkpoints[11], (d(2025, 2, 1), 1_200));
    assert!(!r.reached_nonpositive);
}

#[test]
fn nonpositive_is_reported_not_truncated() {
    let mut s = BudgetState::new(100);
    s.add_transaction(-150, d(2024, 1, 20), None, String::new());
    s.add_transaction(600, d(2024, 5, 5), None, String::new());
    let r = s.forecast(d(2024, 1, 1));
    assert_eq!(r.checkpoints.len(), 12);
    assert_eq!(r.checkpoints[0].1, -50);
    assert_eq!(r.checkpoints[4].1, 550);
    assert!(r.reached_nonpositive);
}

#[test]
fn sort_keeps_input_order_for_equal_dates() {
    let mut s = BudgetState::new(0);
    s.add_transaction(1, d(2024, 5, 5), None, String::new());
    s.add_transaction(2, d(2024, 5, 5), None, String::new());
    s.add_transaction(3, d(2024, 1, 1), None, String::new());
    let sorted = sort_by_date(&expand_events(&s.transactions));
    let amounts: Vec<i64> = sorted.iter().map(|e| e.amount).collect();
    assert_eq!(amounts, vec![3, 1, 2]);
}

#[test]
fn events_on_checkpoint_day_are_not_yet_applied() {
    let mut s = BudgetState::new(10);
    s.add_transaction(-4, d(2024, 2, 1), None, String::new());
    let r = s.forecast(d(2024, 1, 15));
    assert_eq!(r.checkpoints[0], (d(2024, 2, 1), 10));
    assert_eq!(r.checkpoints[1], (d(2024, 3, 1), 6));
}

#[test]
fn unrecognized_period_truncates_silently() {
    let mut s = BudgetState::new(0);
    s.add_transaction(10, d(2024, 1, 5), Some(("daily".to_string(), 5)), String::new());
    let r = s.forecast(d(2024, 1, 1));
    assert_eq!(r.checkpoints.len(), 12);
    for k in 0..12 {
        assert_eq!(r.checkpoints[k].1, 10);
    }
}

#[test]
fn monthly_step_is_thirty_days_not_a_calendar_month() {
    let mut s = BudgetState::new(0);
    s.add_transaction(1, d(2024, 1, 31), Some(("monthly".to_string(), 2)), String::new());
    let ev = expand_events(&s.transactions);
    assert_eq!(ev[1].date, d(2024, 3, 1));
    assert_eq!(ev[2].date, d(2024, 3, 31));
}
