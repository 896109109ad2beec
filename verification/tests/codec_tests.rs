use budget_forecast::codec::{decode_store, encode_store};
use budget_forecast::date::Date;
use budget_forecast::store::BudgetState;

fn d(year: u32, month: u32, day: u32) -> Date {
    Date { year, month, day }
}

fn assert_stores_equal(a: &BudgetState, b: &BudgetState) {
    assert_eq!(a.balance, b.balance);
    let la = a.list_transactions();
    let lb = b.list_transactions();
    assert_eq!(la.len(), lb.len());
    for k in 0..la.len() {
        assert_eq!(la[k].1.amount, lb[k].1.amount);
        assert_eq!(la[k].1.date, lb[k].1.date);
        assert_eq!(la[k].1.recurrence, lb[k].1.recurrence);
        assert_eq!(la[k].1.note, lb[k].1.note);
    }
}

#[test]
fn round_trip_full_store() {
    let mut s = BudgetState::new(-12_345);
    s.add_transaction(
        -20_000,
        d(2024, 1, 20),
        Some(("monthly".to_string(), 2)),
        "rent".to_string(),
    );
    s.add_transaction(777, d(987, 12, 31), None, "caf\u{e9}; \u{2603} tricky:note".to_string());
    s.add_transaction(
        i64::MIN,
        d(2024, 2, 29),
        Some(("a period; with, separators".to_string(), 0)),
        String::new(),
    );
    let bytes = encode_store(&s);
    let loaded = decode_store(&bytes).expect("round trip must succeed");
    assert_stores_equal(&s, &loaded);
}

#[test]
fn round_trip_empty_store() {
    let s = BudgetState::new(0);
    let bytes = encode_store(&s);
    assert_eq!(bytes, b"0;0;".to_vec());
    let loaded = decode_store(&bytes).expect("round trip must succeed");
    assert_stores_equal(&s, &loaded);
}

#[test]
fn encoding_is_exact() {
    let mut s = BudgetState::new(5);
    s.add_transaction(-200, d(2024, 1, 2), None, "a".to_string());
    assert_eq!(encode_store(&s), b"5;1;-200;2024-01-02;N;1:a".to_vec());

    let mut r = BudgetState::new(-7);
    r.add_transaction(3, d(987, 6, 5), Some(("weekly".to_string(), 3)), String::new());
    assert_eq!(encode_store(&r), b"-7;1;3;0987-06-05;R6:weekly,3;0:".to_vec());
}

#[test]
fn decode_reads_handwritten_input() {
    let bytes = b"5;1;-200;2024-01-02;N;1:a".to_vec();
    let s = decode_store(&bytes).expect("valid input");
    assert_eq!(s.balance, 5);
    let listed = s.list_transactions();
    assert_eq!(listed.len(), 1);
    assert_eq!(listed[0].1.amount, -200);
    assert_eq!(listed[0].1.date, d(2024, 1, 2));
    assert_eq!(listed[0].1.recurrence, None);
    assert_eq!(listed[0].1.note, "a");
}

#[test]
fn decode_rejects_malformed_input() {
    assert!(decode_store(&Vec::new()).is_none());
    assert!(decode_store(&b"abc".to_vec()).is_none());
    assert!(decode_store(&b"0;".to_vec()).is_none());
    assert!(decode_store(&b"0;1;".to_vec()).is_none());
    assert!(decode_store(&b"0;0;trailing".to_vec()).is_none());
    assert!(decode_store(&b"5;1;-200;2024-13-01;N;1:a".to_vec()).is_none());
    assert!(decode_store(&b"5;1;-200;2023-02-29;N;1:a".to_vec()).is_none());
    assert!(decode_store(&b"5;1;-200;2024-01-02;N;9:a".to_vec()).is_none());
    assert!(decode_store(&b"5;1;-200;2024-01-02;X;1:a".to_vec()).is_none());
    assert!(decode_store(&b"99999999999999999999999;0;".to_vec()).is_none());
    let bad_utf8 = vec![b'0', b';', b'1', b';', b'1', b';', b'2', b'0', b'2', b'4', b'-', b'0',
        b'1', b'-', b'0', b'2', b';', b'N', b';', b'1', b':', 0xff];
    assert!(decode_store(&bad_utf8).is_none());
}

#[test]
fn decode_accepts_leap_day_only_in_leap_years() {
    assert!(decode_store(&b"0;1;1;2024-02-29;N;0:".to_vec()).is_some());
    assert!(decode_store(&b"0;1;1;1900-02-29;N;0:".to_vec()).is_none());
    assert!(decode_store(&b"0;1;1;2000-02-29;N;0:".to_vec()).is_some());
}
