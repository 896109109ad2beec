//! The persistence format.
//!
//! A store is written as a line of ASCII-framed fields: the balance as a
//! signed decimal, the transaction count, then each transaction as
//! amount, `YYYY-MM-DD` date, recurrence and note.  Strings are
//! length-prefixed UTF-8 bytes, so any text round-trips.  Decoding
//! rejects anything the encoder cannot have produced and is proved to
//! invert encoding exactly.

use crate::date::{date_ok, Date, MAX_YEAR};
use crate::store::{BudgetState, StoreView, Transaction, TransactionView};
use vstd::prelude::*;
use vstd::utf8::{decode_utf8, encode_utf8, encode_utf8_decode_utf8, encode_utf8_valid_utf8,
    valid_utf8};

verus! {

/// Field separator `;`.
pub const SEMI: u8 = 59;

/// Date separator `-`, also the sign of a negative amount.
pub const DASH: u8 = 45;

/// Separator `:` between a string's byte length and its bytes.
pub const COLON: u8 = 58;

/// Separator `,` between a recurrence period and its count.
pub const COMMA: u8 = 44;

/// Tag `N` for a transaction without recurrence.
pub const TAG_ONCE: u8 = 78;

/// Tag `R` for a recurring transaction.
pub const TAG_RECUR: u8 = 82;

/// The code of the digit zero.
pub const DIGIT_ZERO: u8 = 48;

/// Whether `b` is an ASCII digit.
pub open spec fn is_digit(b: u8) -> bool {
    DIGIT_ZERO <= b <= 57
}

/// The decimal digits of `n`, most significant first, no leading zeros.
pub open spec fn digits_of(n: nat) -> Seq<u8>
    decreases n,
{
    if n < 10 {
        seq![(DIGIT_ZERO + n) as u8]
    } else {
        digits_of(n / 10).push((DIGIT_ZERO + n % 10) as u8)
    }
}

/// The digits of `n`, zero-padded on the left to at least `w` places.
pub open spec fn pad_digits(n: nat, w: nat) -> Seq<u8> {
    if digits_of(n).len() >= w {
        digits_of(n)
    } else {
        Seq::new((w - digits_of(n).len()) as nat, |i: int| DIGIT_ZERO) + digits_of(n)
    }
}

/// A signed decimal integer.
pub open spec fn enc_i64(x: int) -> Seq<u8> {
    if x < 0 {
        seq![DASH] + digits_of((-x) as nat)
    } else {
        digits_of(x as nat)
    }
}

/// A length-prefixed UTF-8 string.
pub open spec fn enc_str(s: Seq<char>) -> Seq<u8> {
    digits_of(encode_utf8(s).len()) + seq![COLON] + encode_utf8(s)
}

/// An ISO `YYYY-MM-DD` date.
pub open spec fn enc_date(d: Date) -> Seq<u8> {
    pad_digits(d.year as nat, 4) + seq![DASH] + pad_digits(d.month as nat, 2) + seq![DASH]
        + pad_digits(d.day as nat, 2)
}

/// An optional recurrence: its tag, then for a recurring transaction the
/// period string and the occurrence count.
pub open spec fn enc_rec(r: Option<(Seq<char>, usize)>) -> Seq<u8> {
    match r {
        None => seq![TAG_ONCE],
        Some((p, c)) => seq![TAG_RECUR] + enc_str(p) + seq![COMMA] + digits_of(c as nat),
    }
}

/// One encoded transaction.
pub open spec fn enc_tx(t: TransactionView) -> Seq<u8> {
    enc_i64(t.amount as int) + seq![SEMI] + enc_date(t.date) + seq![SEMI] + enc_rec(t.recurrence)
        + seq![SEMI] + enc_str(t.note)
}

/// The concatenation of the encoded transactions.
pub open spec fn enc_txs(txs: Seq<TransactionView>) -> Seq<u8>
    decreases txs.len(),
{
    if txs.len() == 0 {
        Seq::empty()
    } else {
        enc_txs(txs.drop_last()) + enc_tx(txs.last())
    }
}

/// A whole encoded store.
pub open spec fn enc_store(s: StoreView) -> Seq<u8> {
    enc_i64(s.balance as int) + seq![SEMI] + digits_of(s.transactions.len()) + seq![SEMI]
        + enc_txs(s.transactions)
}

/// First position at or after `i` that does not hold a digit.
pub open spec fn digits_end(b: Seq<u8>, i: int) -> int
    decreases b.len() - i,
{
    if 0 <= i < b.len() && is_digit(b[i]) {
        digits_end(b, i + 1)
    } else {
        i
    }
}

/// The value of a digit string.
pub open spec fn val_of(s: Seq<u8>) -> int
    decreases s.len(),
{
    if s.len() == 0 {
        0
    } else {
        val_of(s.drop_last()) * 10 + (s.last() - DIGIT_ZERO)
    }
}

/// Reads a run of digits as an unsigned value; fails on no digits or on a
/// value beyond the largest unsigned 64-bit value.
pub open spec fn dec_nat(b: Seq<u8>, i: int) -> Option<(int, int)> {
    let e = digits_end(b, i);
    if e == i {
        None
    } else if val_of(b.subrange(i, e)) > u64::MAX {
        None
    } else {
        Some((val_of(b.subrange(i, e)), e))
    }
}

/// Requires the byte `ch` at position `i`.
pub open spec fn expect(b: Seq<u8>, i: int, ch: u8) -> Option<int> {
    if 0 <= i < b.len() && b[i] == ch {
        Some(i + 1)
    } else {
        None
    }
}

/// Reads a signed decimal that fits a 64-bit signed integer.
pub open spec fn dec_i64(b: Seq<u8>, i: int) -> Option<(int, int)> {
    if 0 <= i < b.len() && b[i] == DASH {
        match dec_nat(b, i + 1) {
            Some((m, j)) => if m <= i64::MAX + 1 {
                Some((-m, j))
            } else {
                None
            },
            None => None,
        }
    } else {
        match dec_nat(b, i) {
            Some((m, j)) => if m <= i64::MAX {
                Some((m, j))
            } else {
                None
            },
            None => None,
        }
    }
}

/// Reads a `YYYY-MM-DD` date and requires it to be a real calendar date.
pub open spec fn dec_date(b: Seq<u8>, i: int) -> Option<(Date, int)> {
    match dec_nat(b, i) {
        Some((y, j)) => match expect(b, j, DASH) {
            Some(j2) => match dec_nat(b, j2) {
                Some((m, j3)) => match expect(b, j3, DASH) {
                    Some(j4) => match dec_nat(b, j4) {
                        Some((d, j5)) => if y <= MAX_YEAR && m <= 12 && d <= 31 {
                            let dt = Date { year: y as u32, month: m as u32, day: d as u32 };
                            if date_ok(dt) {
                                Some((dt, j5))
                            } else {
                                None
                            }
                        } else {
                            None
                        },
                        None => None,
                    },
                    None => None,
                },
                None => None,
            },
            None => None,
        },
        None => None,
    }
}

/// Reads a length-prefixed UTF-8 string.
pub open spec fn dec_str(b: Seq<u8>, i: int) -> Option<(Seq<char>, int)> {
    match dec_nat(b, i) {
        Some((n, j)) => match expect(b, j, COLON) {
            Some(j2) => if n <= usize::MAX && j2 + n <= b.len() {
                if valid_utf8(b.subrange(j2, j2 + n)) {
                    Some((decode_utf8(b.subrange(j2, j2 + n)), j2 + n))
                } else {
                    None
                }
            } else {
                None
            },
            None => None,
        },
        None => None,
    }
}

/// Reads an optional recurrence.
pub open spec fn dec_rec(b: Seq<u8>, i: int) -> Option<(Option<(Seq<char>, usize)>, int)> {
    if 0 <= i < b.len() && b[i] == TAG_ONCE {
        Some((None, i + 1))
    } else if 0 <= i < b.len() && b[i] == TAG_RECUR {
        match dec_str(b, i + 1) {
            Some((p, j)) => match expect(b, j, COMMA) {
                Some(j2) => match dec_nat(b, j2) {
                    Some((c, j3)) => if c <= usize::MAX {
                        Some((Some((p, c as usize)), j3))
                    } else {
                        None
                    },
                    None => None,
                },
                None => None,
            },
            None => None,
        }
    } else {
        None
    }
}

/// Reads one transaction.
pub open spec fn dec_tx(b: Seq<u8>, i: int) -> Option<(TransactionView, int)> {
    match dec_i64(b, i) {
        Some((a, j)) => match expect(b, j, SEMI) {
            Some(j2) => match dec_date(b, j2) {
                Some((dt, j3)) => match expect(b, j3, SEMI) {
                    Some(j4) => match dec_rec(b, j4) {
                        Some((rec, j5)) => match expect(b, j5, SEMI) {
                            Some(j6) => match dec_str(b, j6) {
                                Some((note, j7)) => Some((
                                    TransactionView {
                                        amount: a as i64,
                                        date: dt,
                                        recurrence: rec,
                                        note,
                                    },
                                    j7,
                                )),
                                None => None,
                            },
                            None => None,
                        },
                        None => None,
                    },
                    None => None,
                },
                None => None,
            },
            None => None,
        },
        None => None,
    }
}

/// Reads exactly `n` transactions.
pub open spec fn dec_txs(b: Seq<u8>, i: int, n: nat) -> Option<(Seq<TransactionView>, int)>
    decreases n,
{
    if n == 0 {
        Some((Seq::empty(), i))
    } else {
        match dec_tx(b, i) {
            Some((t, j)) => match dec_txs(b, j, (n - 1) as nat) {
                Some((ts, j2)) => Some((seq![t] + ts, j2)),
                None => None,
            },
            None => None,
        }
    }
}

/// Reads a whole store and requires the input to end there.
pub open spec fn dec_store(b: Seq<u8>) -> Option<StoreView> {
    match dec_i64(b, 0) {
        Some((bal, j)) => match expect(b, j, SEMI) {
            Some(j2) => match dec_nat(b, j2) {
                Some((n, j3)) => match expect(b, j3, SEMI) {
                    Some(j4) => match dec_txs(b, j4, n as nat) {
                        Some((ts, j5)) => if j5 == b.len() {
                            Some(StoreView { balance: bal as i64, transactions: ts })
                        } else {
                            None
                        },
                        None => None,
                    },
                    None => None,
                },
                None => None,
            },
            None => None,
        },
        None => None,
    }
}

fn push_digits(out: &mut Vec<u8>, n: u64)
    ensures
        final(out)@ == old(out)@ + digits_of(n as nat),
    decreases n,
{
    if n < 10 {
        out.push(DIGIT_ZERO + (n as u8));
        proof {
            assert(final(out)@ =~= old(out)@ + digits_of(n as nat));
        }
    } else {
        push_digits(out, n / 10);
        out.push(DIGIT_ZERO + ((n % 10) as u8));
        proof {
            assert(final(out)@ =~= old(out)@ + digits_of(n as nat));
        }
    }
}

proof fn lemma_digits_len(n: nat)
    ensures
        digits_of(n).len() >= 1,
        n < 10 ==> digits_of(n).len() == 1,
        10 <= n < 100 ==> digits_of(n).len() == 2,
        100 <= n < 1000 ==> digits_of(n).len() == 3,
        1000 <= n < 10000 ==> digits_of(n).len() == 4,
    decreases n,
{
    if n >= 10 {
        lemma_digits_len(n / 10);
    }
}

fn push_padded2(out: &mut Vec<u8>, n: u64)
    requires
        n < 100,
    ensures
        final(out)@ == old(out)@ + pad_digits(n as nat, 2),
{
    proof {
        lemma_digits_len(n as nat);
    }
    if n < 10 {
        out.push(DIGIT_ZERO);
    }
    push_digits(out, n);
    proof {
        assert(final(out)@ =~= old(out)@ + pad_digits(n as nat, 2));
    }
}

fn push_padded4(out: &mut Vec<u8>, n: u64)
    requires
        n < 10000,
    ensures
        final(out)@ == old(out)@ + pad_digits(n as nat, 4),
{
    proof {
        lemma_digits_len(n as nat);
    }
    if n < 10 {
        out.push(DIGIT_ZERO);
        out.push(DIGIT_ZERO);
        out.push(DIGIT_ZERO);
    } else if n < 100 {
        out.push(DIGIT_ZERO);
        out.push(DIGIT_ZERO);
    } else if n < 1000 {
        out.push(DIGIT_ZERO);
    }
    push_digits(out, n);
    proof {
        assert(final(out)@ =~= old(out)@ + pad_digits(n as nat, 4));
    }
}

fn push_i64(out: &mut Vec<u8>, x: i64)
    ensures
        final(out)@ == old(out)@ + enc_i64(x as int),
{
    if x < 0 {
        out.push(DASH);
        let m: u64 = ((-(x + 1)) as u64) + 1;
        proof {
            assert(m as int == -(x as int));
        }
        push_digits(out, m);
        proof {
            assert(final(out)@ =~= old(out)@ + enc_i64(x as int));
        }
    } else {
        push_digits(out, x as u64);
    }
}

fn push_str(out: &mut Vec<u8>, s: &String)
    ensures
        final(out)@ == old(out)@ + enc_str(s@),
{
    let bytes = s.as_str().as_bytes();
    proof {
        assert(bytes@ == encode_utf8(s@));
    }
    push_digits(out, bytes.len() as u64);
    out.push(COLON);
    let ghost mid = out@;
    let mut q: usize = 0;
    while q < bytes.len()
        invariant
            q <= bytes@.len(),
            out@ == mid + bytes@.take(q as int),
        decreases bytes@.len() - q,
    {
        out.push(bytes[q]);
        proof {
            assert(out@ =~= mid + bytes@.take(q + 1));
        }
        q = q + 1;
    }
    proof {
        assert(bytes@.take(bytes@.len() as int) =~= bytes@);
        assert(final(out)@ =~= old(out)@ + enc_str(s@));
    }
}

fn push_date(out: &mut Vec<u8>, d: Date)
    requires
        d.year <= MAX_YEAR,
        d.month <= 12,
        d.day <= 31,
    ensures
        final(out)@ == old(out)@ + enc_date(d),
{
    push_padded4(out, d.year as u64);
    out.push(DASH);
    push_padded2(out, d.month as u64);
    out.push(DASH);
    push_padded2(out, d.day as u64);
    proof {
        assert(final(out)@ =~= old(out)@ + enc_date(d));
    }
}

fn push_rec(out: &mut Vec<u8>, r: &Option<(String, usize)>)
    ensures
        final(out)@ == old(out)@ + enc_rec(crate::store::rec_view(*r)),
{
    match r {
        None => {
            out.push(TAG_ONCE);
            proof {
                assert(final(out)@ =~= old(out)@ + enc_rec(crate::store::rec_view(*r)));
            }
        },
        Some((p, c)) => {
            out.push(TAG_RECUR);
            push_str(out, p);
            out.push(COMMA);
            push_digits(out, (*c) as u64);
            proof {
                assert(final(out)@ =~= old(out)@ + enc_rec(crate::store::rec_view(*r)));
            }
        },
    }
}

fn push_tx(out: &mut Vec<u8>, t: &Transaction)
    requires
        date_ok(t@.date),
    ensures
        final(out)@ == old(out)@ + enc_tx(t@),
{
    push_i64(out, t.amount);
    out.push(SEMI);
    push_date(out, t.date);
    out.push(SEMI);
    push_rec(out, &t.recurrence);
    out.push(SEMI);
    push_str(out, &t.note);
    proof {
        assert(final(out)@ =~= old(out)@ + enc_tx(t@));
    }
}

/// Every transaction date is a real calendar date, as the store invariant
/// guarantees for dates built through [`crate::date`].
pub open spec fn dates_valid(s: StoreView) -> bool {
    forall|i: int| 0 <= i < s.transactions.len() ==> date_ok((#[trigger] s.transactions[i]).date)
}

/// Encodes a store for persistence.
pub fn encode_store(st: &BudgetState) -> (r: Vec<u8>)
    requires
        dates_valid(st@),
    ensures
        r@ == enc_store(st@),
{
    let mut out: Vec<u8> = Vec::new();
    push_i64(&mut out, st.balance);
    out.push(SEMI);
    push_digits(&mut out, st.transactions.len() as u64);
    out.push(SEMI);
    let ghost head = out@;
    let mut i: usize = 0;
    while i < st.transactions.len()
        invariant
            i <= st.transactions@.len(),
            out@ == head + enc_txs(st@.transactions.take(i as int)),
            head == Seq::<u8>::empty() + enc_i64(st@.balance as int) + seq![SEMI] + digits_of(
                st@.transactions.len(),
            ) + seq![SEMI],
            dates_valid(st@),
            st@.transactions.len() == st.transactions@.len(),
        decreases st.transactions@.len() - i,
    {
        proof {
            assert(st@.transactions[i as int] == st.transactions@[i as int]@);
        }
        push_tx(&mut out, &st.transactions[i]);
        proof {
            assert(st@.transactions.take(i + 1).drop_last() =~= st@.transactions.take(i as int));
            assert(st@.transactions.take(i + 1).last() == st@.transactions[i as int]);
            assert(out@ =~= head + enc_txs(st@.transactions.take(i + 1)));
        }
        i = i + 1;
    }
    proof {
        assert(st@.transactions.take(st@.transactions.len() as int) =~= st@.transactions);
        assert(out@ =~= enc_store(st@));
    }
    out
}

proof fn lemma_digits_end_skip(b: Seq<u8>, i: int, j: int)
    requires
        0 <= i <= j <= b.len(),
        forall|q: int| i <= q < j ==> is_digit(b[q]),
    ensures
        digits_end(b, i) == digits_end(b, j),
    decreases j - i,
{
    if i < j {
        lemma_digits_end_skip(b, i + 1, j);
    }
}

/// Relies on `String::from_utf8`: it succeeds exactly on valid UTF-8 input
/// and decodes it, the decoding that `vstd::utf8::decode_utf8` specifies
/// (as `vstd` itself states for `str::from_utf8_unchecked`).
#[verifier::external_body]
fn bytes_to_string(bytes: Vec<u8>) -> (r: Option<String>)
    ensures
        r is Some <==> valid_utf8(bytes@),
        r matches Some(s) ==> s@ == decode_utf8(bytes@),
{
    match String::from_utf8(bytes) {
        Ok(s) => Some(s),
        Err(_) => None,
    }
}

fn parse_nat(v: &Vec<u8>, start: usize) -> (r: Option<(u64, usize)>)
    requires
        start <= v@.len(),
    ensures
        r is Some <==> dec_nat(v@, start as int) is Some,
        r matches Some(p) ==> dec_nat(v@, start as int) == Some((p.0 as int, p.1 as int))
            && start < p.1 <= v@.len(),
{
    let mut j = start;
    let mut acc: u64 = 0;
    let mut ok = true;
    while j < v.len() && DIGIT_ZERO <= v[j] && v[j] <= 57
        invariant
            start <= j <= v@.len(),
            forall|q: int| start <= q < j ==> is_digit(v@[q]),
            ok ==> acc as int == val_of(v@.subrange(start as int, j as int)),
            !ok ==> val_of(v@.subrange(start as int, j as int)) > u64::MAX,
        decreases v@.len() - j,
    {
        let d = v[j] - DIGIT_ZERO;
        proof {
            assert(v@.subrange(start as int, j + 1).drop_last() =~= v@.subrange(
                start as int,
                j as int,
            ));
            assert(v@.subrange(start as int, j + 1).last() == v@[j as int]);
        }
        if ok {
            match acc.checked_mul(10) {
                Some(prod) => match prod.checked_add(d as u64) {
                    Some(sum) => {
                        acc = sum;
                    },
                    None => {
                        ok = false;
                    },
                },
                None => {
                    ok = false;
                },
            }
        }
        j = j + 1;
    }
    proof {
        lemma_digits_end_skip(v@, start as int, j as int);
        assert(digits_end(v@, j as int) == j);
    }
    if j == start {
        None
    } else if ok {
        Some((acc, j))
    } else {
        None
    }
}

fn expect_byte(v: &Vec<u8>, i: usize, ch: u8) -> (r: Option<usize>)
    ensures
        r is Some <==> expect(v@, i as int, ch) is Some,
        r matches Some(j) ==> expect(v@, i as int, ch) == Some(j as int) && j == i + 1 && j
            <= v@.len(),
{
    if i < v.len() && v[i] == ch {
        Some(i + 1)
    } else {
        None
    }
}

fn parse_i64(v: &Vec<u8>, start: usize) -> (r: Option<(i64, usize)>)
    requires
        start <= v@.len(),
    ensures
        r is Some <==> dec_i64(v@, start as int) is Some,
        r matches Some(p) ==> dec_i64(v@, start as int) == Some((p.0 as int, p.1 as int)) && p.1
            <= v@.len(),
{
    if start < v.len() && v[start] == DASH {
        match parse_nat(v, start + 1) {
            Some((m, j)) => {
                if m <= i64::MAX as u64 {
                    Some((-(m as i64), j))
                } else if m == (i64::MAX as u64) + 1 {
                    Some((i64::MIN, j))
                } else {
                    None
                }
            },
            None => None,
        }
    } else {
        match parse_nat(v, start) {
            Some((m, j)) => {
                if m <= i64::MAX as u64 {
                    Some((m as i64, j))
                } else {
                    None
                }
            },
            None => None,
        }
    }
}

fn parse_date(v: &Vec<u8>, start: usize) -> (r: Option<(Date, usize)>)
    requires
        start <= v@.len(),
    ensures
        r is Some <==> dec_date(v@, start as int) is Some,
        r matches Some(p) ==> dec_date(v@, start as int) == Some((p.0, p.1 as int)) && p.1
            <= v@.len(),
{
    match parse_nat(v, start) {
        Some((y, j)) => match expect_byte(v, j, DASH) {
            Some(j2) => match parse_nat(v, j2) {
                Some((m, j3)) => match expect_byte(v, j3, DASH) {
                    Some(j4) => match parse_nat(v, j4) {
                        Some((d, j5)) => {
                            if y <= MAX_YEAR as u64 && m <= 12 && d <= 31 {
                                let dt = Date { year: y as u32, month: m as u32, day: d as u32 };
                                if crate::date::date_valid(dt) {
                                    Some((dt, j5))
                                } else {
                                    None
                                }
                            } else {
                                None
                            }
                        },
                        None => None,
                    },
                    None => None,
                },
                None => None,
            },
            None => None,
        },
        None => None,
    }
}

fn parse_str(v: &Vec<u8>, start: usize) -> (r: Option<(String, usize)>)
    requires
        start <= v@.len(),
    ensures
        r is Some <==> dec_str(v@, start as int) is Some,
        r matches Some(p) ==> dec_str(v@, start as int) == Some((p.0@, p.1 as int)) && p.1
            <= v@.len(),
{
    match parse_nat(v, start) {
        Some((n, j)) => match expect_byte(v, j, COLON) {
            Some(j2) => {
                if n <= usize::MAX as u64 && (n as usize) <= v.len() - j2 {
                    let end = j2 + (n as usize);
                    let mut bytes: Vec<u8> = Vec::new();
                    let mut q = j2;
                    while q < end
                        invariant
                            j2 <= q <= end <= v@.len(),
                            bytes@ == v@.subrange(j2 as int, q as int),
                        decreases end - q,
                    {
                        bytes.push(v[q]);
                        proof {
                            assert(bytes@ =~= v@.subrange(j2 as int, q + 1));
                        }
                        q = q + 1;
                    }
                    match bytes_to_string(bytes) {
                        Some(s) => Some((s, end)),
                        None => None,
                    }
                } else {
                    None
                }
            },
            None => None,
        },
        None => None,
    }
}

fn parse_rec(v: &Vec<u8>, start: usize) -> (r: Option<(Option<(String, usize)>, usize)>)
    requires
        start <= v@.len(),
    ensures
        r is Some <==> dec_rec(v@, start as int) is Some,
        r matches Some(p) ==> dec_rec(v@, start as int) == Some(
            (crate::store::rec_view(p.0), p.1 as int),
        ) && p.1 <= v@.len(),
{
    if start < v.len() && v[start] == TAG_ONCE {
        Some((None, start + 1))
    } else if start < v.len() && v[start] == TAG_RECUR {
        match parse_str(v, start + 1) {
            Some((p, j)) => match expect_byte(v, j, COMMA) {
                Some(j2) => match parse_nat(v, j2) {
                    Some((c, j3)) => {
                        if c <= usize::MAX as u64 {
                            Some((Some((p, c as usize)), j3))
                        } else {
                            None
                        }
                    },
                    None => None,
                },
                None => None,
            },
            None => None,
        }
    } else {
        None
    }
}

fn parse_tx(v: &Vec<u8>, start: usize) -> (r: Option<(Transaction, usize)>)
    requires
        start <= v@.len(),
    ensures
        r is Some <==> dec_tx(v@, start as int) is Some,
        r matches Some(p) ==> dec_tx(v@, start as int) == Some((p.0@, p.1 as int)) && p.1
            <= v@.len(),
{
    match parse_i64(v, start) {
        Some((a, j)) => match expect_byte(v, j, SEMI) {
            Some(j2) => match parse_date(v, j2) {
                Some((dt, j3)) => match expect_byte(v, j3, SEMI) {
                    Some(j4) => match parse_rec(v, j4) {
                        Some((rec, j5)) => match expect_byte(v, j5, SEMI) {
                            Some(j6) => match parse_str(v, j6) {
                                Some((note, j7)) => Some((
                                    Transaction { amount: a, date: dt, recurrence: rec, note },
                                    j7,
                                )),
                                None => None,
                            },
                            None => None,
                        },
                        None => None,
                    },
                    None => None,
                },
                None => None,
            },
            None => None,
        },
        None => None,
    }
}

/// Decodes a persisted store; `None` exactly where the bytes are not a
/// store the encoder could have produced.
#[verifier::loop_isolation(false)]
pub fn decode_store(v: &Vec<u8>) -> (r: Option<BudgetState>)
    ensures
        r is Some <==> dec_store(v@) is Some,
        r matches Some(st) ==> dec_store(v@) == Some(st@),
{
    match parse_i64(v, 0) {
        Some((bal, j)) => match expect_byte(v, j, SEMI) {
            Some(j2) => match parse_nat(v, j2) {
                Some((n, j3)) => match expect_byte(v, j3, SEMI) {
                    Some(j4) => {
                        let mut txs: Vec<Transaction> = Vec::new();
                        let mut pos = j4;
                        let mut k: u64 = 0;
                        while k < n
                            invariant
                                k <= n,
                                pos <= v@.len(),
                                dec_txs(v@, j4 as int, n as nat) == (match dec_txs(
                                    v@,
                                    pos as int,
                                    (n - k) as nat,
                                ) {
                                    Some((ts, e)) => Some(
                                        (crate::store::views_of(txs@) + ts, e),
                                    ),
                                    None => None::<(Seq<TransactionView>, int)>,
                                }),
                            decreases n - k,
                        {
                            match parse_tx(v, pos) {
                                Some((t, p2)) => {
                                    let ghost tv = t@;
                                    let ghost old_txs = txs@;
                                    txs.push(t);
                                    proof {
                                        assert(crate::store::views_of(txs@) =~= crate::store::views_of(
                                            old_txs,
                                        ).push(tv));
                                        match dec_txs(v@, p2 as int, (n - k - 1) as nat) {
                                            Some((ts, e)) => {
                                                assert(crate::store::views_of(old_txs) + (seq![tv]
                                                    + ts) =~= crate::store::views_of(txs@) + ts);
                                            },
                                            None => {},
                                        }
                                    }
                                    pos = p2;
                                    k = k + 1;
                                },
                                None => {
                                    proof {
                                        assert(dec_txs(v@, pos as int, (n - k) as nat) is None);
                                        assert(dec_txs(v@, j4 as int, n as nat) is None);
                                        assert(dec_store(v@) is None);
                                    }
                                    return None;
                                },
                            }
                        }
                        proof {
                            assert(crate::store::views_of(txs@) + Seq::<TransactionView>::empty()
                                =~= crate::store::views_of(txs@));
                        }
                        if pos == v.len() {
                            let st = BudgetState { balance: bal, transactions: txs };
                            proof {
                                assert(dec_store(v@) == Some(st@));
                            }
                            Some(st)
                        } else {
                            None
                        }
                    },
                    None => None,
                },
                None => None,
            },
            None => None,
        },
        None => None,
    }
}

proof fn lemma_digits_are_digits(n: nat)
    ensures
        digits_of(n).len() >= 1,
        forall|q: int| 0 <= q < digits_of(n).len() ==> is_digit(#[trigger] digits_of(n)[q]),
    decreases n,
{
    if n >= 10 {
        lemma_digits_are_digits(n / 10);
    }
}

proof fn lemma_val_digits(n: nat)
    ensures
        val_of(digits_of(n)) == n,
    decreases n,
{
    if n < 10 {
        assert(digits_of(n).drop_last() =~= Seq::<u8>::empty());
        assert(digits_of(n).last() == (DIGIT_ZERO + n) as u8);
        assert((DIGIT_ZERO + n) as u8 == DIGIT_ZERO + n);
        assert(val_of(digits_of(n)) == val_of(Seq::<u8>::empty()) * 10 + n);
    } else {
        lemma_val_digits(n / 10);
        assert(digits_of(n).drop_last() =~= digits_of(n / 10));
        assert(digits_of(n).last() == (DIGIT_ZERO + n % 10) as u8);
        assert((DIGIT_ZERO + n % 10) as u8 == DIGIT_ZERO + n % 10);
        assert(val_of(digits_of(n)) == (n / 10) * 10 + n % 10);
        assert(n == (n / 10) * 10 + n % 10) by (nonlinear_arith);
    }
}

proof fn lemma_val_zeros(z: nat)
    ensures
        val_of(Seq::new(z, |i: int| DIGIT_ZERO)) == 0,
    decreases z,
{
    if z > 0 {
        lemma_val_zeros((z - 1) as nat);
        assert(Seq::new(z, |i: int| DIGIT_ZERO).drop_last() =~= Seq::new(
            (z - 1) as nat,
            |i: int| DIGIT_ZERO,
        ));
    }
}

proof fn lemma_val_zero_prefix(z: nat, s: Seq<u8>)
    ensures
        val_of(Seq::new(z, |i: int| DIGIT_ZERO) + s) == val_of(s),
    decreases s.len(),
{
    let zs = Seq::new(z, |i: int| DIGIT_ZERO);
    if s.len() == 0 {
        lemma_val_zeros(z);
        assert(zs + s =~= zs);
    } else {
        lemma_val_zero_prefix(z, s.drop_last());
        assert((zs + s).drop_last() =~= zs + s.drop_last());
        assert((zs + s).last() == s.last());
    }
}

proof fn lemma_pad_digits(n: nat, w: nat)
    ensures
        pad_digits(n, w).len() >= 1,
        pad_digits(n, w).len() >= w,
        digits_of(n).len() <= w ==> pad_digits(n, w).len() == w,
        forall|q: int| 0 <= q < pad_digits(n, w).len() ==> is_digit(#[trigger] pad_digits(n, w)[q]),
        val_of(pad_digits(n, w)) == n,
{
    lemma_digits_are_digits(n);
    lemma_val_digits(n);
    if digits_of(n).len() < w {
        let z = (w - digits_of(n).len()) as nat;
        let zs = Seq::new(z, |i: int| DIGIT_ZERO);
        lemma_val_zero_prefix(z, digits_of(n));
        assert(pad_digits(n, w) == zs + digits_of(n));
        assert(pad_digits(n, w).len() == w);
        assert forall|q: int| 0 <= q < pad_digits(n, w).len() implies is_digit(
            #[trigger] pad_digits(n, w)[q],
        ) by {
            if q < z {
                assert(pad_digits(n, w)[q] == zs[q]);
            } else {
                assert(pad_digits(n, w)[q] == digits_of(n)[q - z]);
            }
        }
    }
}

proof fn lemma_split(b: Seq<u8>, i: int, e: int, x: Seq<u8>, y: Seq<u8>)
    requires
        0 <= i <= e <= b.len(),
        b.subrange(i, e) == x + y,
    ensures
        e - i == x.len() + y.len(),
        b.subrange(i, i + x.len() as int) == x,
        b.subrange(i + x.len() as int, e) == y,
{
    let m = i + x.len() as int;
    assert(b.subrange(i, e).len() == e - i);
    assert((x + y).len() == x.len() + y.len());
    assert forall|k: int| 0 <= k < x.len() implies b.subrange(i, m)[k] == x[k] by {
        assert((x + y)[k] == x[k]);
        assert(b.subrange(i, e)[k] == b[i + k]);
    }
    assert(b.subrange(i, m) =~= x);
    assert forall|k: int| 0 <= k < y.len() implies b.subrange(m, e)[k] == y[k] by {
        assert((x + y)[k + x.len()] == y[k]);
        assert(b.subrange(i, e)[k + x.len()] == b[i + x.len() + k]);
    }
    assert(b.subrange(m, e) =~= y);
}

proof fn lemma_byte_at(b: Seq<u8>, q: int, ch: u8)
    requires
        0 <= q,
        q + 1 <= b.len(),
        b.subrange(q, q + 1) == seq![ch],
    ensures
        b[q] == ch,
{
    assert(b[q] == b.subrange(q, q + 1)[0]);
}

proof fn lemma_dec_nat_at(b: Seq<u8>, i: int, digs: Seq<u8>, n: nat)
    requires
        0 <= i,
        i + digs.len() <= b.len(),
        b.subrange(i, i + digs.len()) == digs,
        digs.len() >= 1,
        forall|q: int| 0 <= q < digs.len() ==> is_digit(#[trigger] digs[q]),
        val_of(digs) == n,
        n <= u64::MAX,
        i + digs.len() == b.len() || !is_digit(b[i + digs.len()]),
    ensures
        dec_nat(b, i) == Some((n as int, i + digs.len())),
{
    let e = i + digs.len();
    assert forall|q: int| i <= q < e implies is_digit(b[q]) by {
        assert(b[q] == b.subrange(i, e)[q - i]);
    }
    lemma_digits_end_skip(b, i, e);
    assert(digits_end(b, e) == e);
}

proof fn lemma_dec_i64_at(b: Seq<u8>, i: int, x: int, e: int)
    requires
        0 <= i <= e <= b.len(),
        b.subrange(i, e) == enc_i64(x),
        i64::MIN <= x <= i64::MAX,
        e == b.len() || !is_digit(b[e]),
    ensures
        dec_i64(b, i) == Some((x, e)),
{
    if x < 0 {
        let digs = digits_of((-x) as nat);
        lemma_digits_are_digits((-x) as nat);
        lemma_val_digits((-x) as nat);
        lemma_split(b, i, e, seq![DASH], digs);
        lemma_byte_at(b, i, DASH);
        lemma_dec_nat_at(b, i + 1, digs, (-x) as nat);
    } else {
        let digs = digits_of(x as nat);
        lemma_digits_are_digits(x as nat);
        lemma_val_digits(x as nat);
        assert(b[i] == b.subrange(i, e)[0]);
        assert(is_digit(b[i]) && b[i] != DASH);
        lemma_dec_nat_at(b, i, digs, x as nat);
    }
}

proof fn lemma_dec_str_at(b: Seq<u8>, i: int, s: Seq<char>, e: int)
    requires
        0 <= i <= e <= b.len(),
        b.subrange(i, e) == enc_str(s),
        encode_utf8(s).len() <= usize::MAX,
    ensures
        dec_str(b, i) == Some((s, e)),
{
    let bytes = encode_utf8(s);
    let digs = digits_of(bytes.len());
    lemma_digits_are_digits(bytes.len());
    lemma_val_digits(bytes.len());
    lemma_split(b, i, e, digs + seq![COLON], bytes);
    let q = i + digs.len() as int + 1;
    lemma_split(b, i, q, digs, seq![COLON]);
    lemma_byte_at(b, q - 1, COLON);
    lemma_dec_nat_at(b, i, digs, bytes.len());
    encode_utf8_valid_utf8(s);
    encode_utf8_decode_utf8(s);
}

#[verifier::rlimit(50)]
proof fn lemma_dec_date_at(b: Seq<u8>, i: int, d: Date, e: int)
    requires
        0 <= i <= e <= b.len(),
        b.subrange(i, e) == enc_date(d),
        date_ok(d),
        e == b.len() || !is_digit(b[e]),
    ensures
        dec_date(b, i) == Some((d, e)),
{
    let y4 = pad_digits(d.year as nat, 4);
    let m2 = pad_digits(d.month as nat, 2);
    let d2 = pad_digits(d.day as nat, 2);
    lemma_digits_len(d.year as nat);
    lemma_digits_len(d.month as nat);
    lemma_digits_len(d.day as nat);
    lemma_pad_digits(d.year as nat, 4);
    lemma_pad_digits(d.month as nat, 2);
    lemma_pad_digits(d.day as nat, 2);
    lemma_split(b, i, e, y4 + seq![DASH] + m2 + seq![DASH], d2);
    let p4 = i + 8;
    lemma_split(b, i, p4, y4 + seq![DASH] + m2, seq![DASH]);
    let p3 = i + 7;
    lemma_split(b, i, p3, y4 + seq![DASH], m2);
    let p2 = i + 5;
    lemma_split(b, i, p2, y4, seq![DASH]);
    lemma_byte_at(b, i + 4, DASH);
    lemma_byte_at(b, i + 7, DASH);
    lemma_dec_nat_at(b, i, y4, d.year as nat);
    lemma_dec_nat_at(b, i + 5, m2, d.month as nat);
    lemma_dec_nat_at(b, i + 8, d2, d.day as nat);
    assert(Date {
        year: (d.year as nat) as u32,
        month: (d.month as nat) as u32,
        day: (d.day as nat) as u32,
    } == d);
}

proof fn lemma_dec_rec_at(b: Seq<u8>, i: int, r: Option<(Seq<char>, usize)>, e: int)
    requires
        0 <= i <= e <= b.len(),
        b.subrange(i, e) == enc_rec(r),
        r matches Some(pc) ==> encode_utf8(pc.0).len() <= usize::MAX,
        e == b.len() || !is_digit(b[e]),
    ensures
        dec_rec(b, i) == Some((r, e)),
{
    match r {
        None => {
            assert(b.subrange(i, e).len() == 1);
            assert(e == i + 1);
            lemma_byte_at(b, i, TAG_ONCE);
        },
        Some((p, c)) => {
            let ps = enc_str(p);
            let digs = digits_of(c as nat);
            lemma_digits_are_digits(c as nat);
            lemma_val_digits(c as nat);
            lemma_split(b, i, e, seq![TAG_RECUR] + ps + seq![COMMA], digs);
            let q2 = i + 1 + ps.len() as int + 1;
            lemma_split(b, i, q2, seq![TAG_RECUR] + ps, seq![COMMA]);
            let q1 = i + 1 + ps.len() as int;
            lemma_split(b, i, q1, seq![TAG_RECUR], ps);
            lemma_byte_at(b, i, TAG_RECUR);
            lemma_byte_at(b, q1, COMMA);
            lemma_dec_str_at(b, i + 1, p, q1);
            lemma_dec_nat_at(b, q2, digs, c as nat);
            assert((c as nat) as usize == c);
        },
    }
}

/// A transaction the persistence format can carry: its date is a real
/// calendar date and its strings' byte lengths are addressable.
pub open spec fn wf_tx(t: TransactionView) -> bool {
    &&& date_ok(t.date)
    &&& encode_utf8(t.note).len() <= usize::MAX
    &&& (t.recurrence matches Some(pc) ==> encode_utf8(pc.0).len() <= usize::MAX)
}

/// A store the persistence format can carry.
pub open spec fn wf_store(s: StoreView) -> bool {
    &&& s.transactions.len() <= usize::MAX
    &&& forall|i: int| 0 <= i < s.transactions.len() ==> wf_tx(#[trigger] s.transactions[i])
}

#[verifier::rlimit(50)]
proof fn lemma_dec_tx_at(b: Seq<u8>, i: int, t: TransactionView, e: int)
    requires
        0 <= i <= e <= b.len(),
        b.subrange(i, e) == enc_tx(t),
        wf_tx(t),
    ensures
        dec_tx(b, i) == Some((t, e)),
{
    let amt = enc_i64(t.amount as int);
    let dts = enc_date(t.date);
    let rcs = enc_rec(t.recurrence);
    let nts = enc_str(t.note);
    lemma_split(b, i, e, amt + seq![SEMI] + dts + seq![SEMI] + rcs + seq![SEMI], nts);
    let p6 = i + (amt.len() + 1 + dts.len() + 1 + rcs.len() + 1) as int;
    lemma_split(b, i, p6, amt + seq![SEMI] + dts + seq![SEMI] + rcs, seq![SEMI]);
    let p5 = p6 - 1;
    lemma_split(b, i, p5, amt + seq![SEMI] + dts + seq![SEMI], rcs);
    let p4 = i + (amt.len() + 1 + dts.len() + 1) as int;
    lemma_split(b, i, p4, amt + seq![SEMI] + dts, seq![SEMI]);
    let p3 = p4 - 1;
    lemma_split(b, i, p3, amt + seq![SEMI], dts);
    let p2 = i + (amt.len() + 1) as int;
    lemma_split(b, i, p2, amt, seq![SEMI]);
    let p1 = p2 - 1;
    lemma_byte_at(b, p1, SEMI);
    lemma_byte_at(b, p3, SEMI);
    lemma_byte_at(b, p5, SEMI);
    lemma_dec_i64_at(b, i, t.amount as int, p1);
    lemma_dec_date_at(b, p2, t.date, p3);
    lemma_dec_rec_at(b, p4, t.recurrence, p5);
    lemma_dec_str_at(b, p6, t.note, e);
    assert((t.amount as int) as i64 == t.amount);
    assert(TransactionView {
        amount: (t.amount as int) as i64,
        date: t.date,
        recurrence: t.recurrence,
        note: t.note,
    } == t);
}

proof fn lemma_enc_txs_first(txs: Seq<TransactionView>)
    requires
        txs.len() > 0,
    ensures
        enc_txs(txs) == enc_tx(txs.first()) + enc_txs(txs.drop_first()),
    decreases txs.len(),
{
    if txs.len() == 1 {
        assert(txs.drop_last() =~= Seq::<TransactionView>::empty());
        assert(txs.drop_first() =~= Seq::<TransactionView>::empty());
        assert(enc_txs(txs) =~= enc_tx(txs.first()) + enc_txs(txs.drop_first()));
    } else {
        lemma_enc_txs_first(txs.drop_last());
        assert(txs.drop_last().first() == txs.first());
        assert(txs.drop_last().drop_first() =~= txs.drop_first().drop_last());
        assert(txs.drop_first().last() == txs.last());
        assert(enc_txs(txs.drop_first()) == enc_txs(txs.drop_first().drop_last()) + enc_tx(
            txs.last(),
        ));
        assert(enc_txs(txs) =~= enc_tx(txs.first()) + enc_txs(txs.drop_first()));
    }
}

proof fn lemma_dec_txs_at(b: Seq<u8>, i: int, txs: Seq<TransactionView>, e: int)
    requires
        0 <= i <= e <= b.len(),
        b.subrange(i, e) == enc_txs(txs),
        forall|q: int| 0 <= q < txs.len() ==> wf_tx(#[trigger] txs[q]),
    ensures
        dec_txs(b, i, txs.len()) == Some((txs, e)),
    decreases txs.len(),
{
    if txs.len() == 0 {
        assert(e == i);
        assert(txs =~= Seq::<TransactionView>::empty());
    } else {
        lemma_enc_txs_first(txs);
        let head = enc_tx(txs.first());
        lemma_split(b, i, e, head, enc_txs(txs.drop_first()));
        let e1 = i + head.len() as int;
        lemma_dec_tx_at(b, i, txs.first(), e1);
        lemma_dec_txs_at(b, e1, txs.drop_first(), e);
        assert(seq![txs.first()] + txs.drop_first() =~= txs);
    }
}

/// Round trip: decoding an encoded store yields exactly the store that was
/// encoded, balance and full transaction list alike.
#[verifier::rlimit(100)]
#[verifier::spinoff_prover]
pub proof fn lemma_round_trip(s: StoreView)
    requires
        wf_store(s),
    ensures
        dec_store(enc_store(s)) == Some(s),
{
    let b = enc_store(s);
    let bal = enc_i64(s.balance as int);
    let cnt = digits_of(s.transactions.len());
    lemma_digits_are_digits(s.transactions.len());
    lemma_val_digits(s.transactions.len());
    assert(b.subrange(0, b.len() as int) =~= b);
    lemma_split(b, 0, b.len() as int, bal + seq![SEMI] + cnt + seq![SEMI], enc_txs(s.transactions));
    let p4 = (bal.len() + 1 + cnt.len() + 1) as int;
    lemma_split(b, 0, p4, bal + seq![SEMI] + cnt, seq![SEMI]);
    let p3 = p4 - 1;
    lemma_split(b, 0, p3, bal + seq![SEMI], cnt);
    let p2 = (bal.len() + 1) as int;
    lemma_split(b, 0, p2, bal, seq![SEMI]);
    let p1 = p2 - 1;
    lemma_byte_at(b, p1, SEMI);
    lemma_byte_at(b, p3, SEMI);
    lemma_dec_i64_at(b, 0, s.balance as int, p1);
    lemma_dec_nat_at(b, p2, cnt, s.transactions.len());
    lemma_dec_txs_at(b, p4, s.transactions, b.len() as int);
    assert((s.balance as int) as i64 == s.balance);
    assert(StoreView { balance: (s.balance as int) as i64, transactions: s.transactions } == s);
}

} // verus!
