//! The budget store: a balance and an ordered list of transactions.
//!
//! Amounts are fixed-point values in hundredths of the currency unit, so
//! `-20000` stands for an outflow of 200.00.  A transaction may carry a
//! recurrence: a period name together with the number of additional
//! occurrences beyond the first.  The position of a transaction in the
//! list is its only identity; deleting shifts every later position down.

use crate::date::Date;
use vstd::prelude::*;

verus! {

/// One dated transaction, possibly recurring.
#[derive(Debug)]
pub struct Transaction {
    /// Signed amount in hundredths; positive is an inflow.
    pub amount: i64,
    /// Date of the first (or only) occurrence.
    pub date: Date,
    /// Optional (period name, additional occurrence count).
    pub recurrence: Option<(String, usize)>,
    /// Free-form note.
    pub note: String,
}

/// Mathematical image of a [`Transaction`].
pub ghost struct TransactionView {
    pub amount: i64,
    pub date: Date,
    pub recurrence: Option<(Seq<char>, usize)>,
    pub note: Seq<char>,
}

impl View for Transaction {
    type V = TransactionView;

    open spec fn view(&self) -> TransactionView {
        TransactionView {
            amount: self.amount,
            date: self.date,
            recurrence: match self.recurrence {
                Some((p, c)) => Some((p@, c)),
                None => None,
            },
            note: self.note@,
        }
    }
}

impl Transaction {
    /// A field-for-field copy.
    pub fn duplicate(&self) -> (r: Transaction)
        ensures
            r@ == self@,
    {
        Transaction {
            amount: self.amount,
            date: self.date,
            recurrence: match &self.recurrence {
                Some((p, c)) => Some((p.clone(), *c)),
                None => None,
            },
            note: self.note.clone(),
        }
    }
}

/// Failure of a position-addressed store operation.
#[derive(Clone, Copy, PartialEq, Eq, Structural, Debug)]
pub enum StoreError {
    /// The given position is not smaller than the transaction count.
    IndexOutOfRange,
}

/// The balance together with the transaction list.
#[derive(Debug)]
pub struct BudgetState {
    /// Balance as of now, in hundredths; the anchor for forecasting.
    pub balance: i64,
    /// Transactions in insertion order; position is identity.
    pub transactions: Vec<Transaction>,
}

/// Mathematical image of a [`BudgetState`].
pub ghost struct StoreView {
    pub balance: i64,
    pub transactions: Seq<TransactionView>,
}

/// The views of a sequence of transactions.
pub open spec fn views_of(txs: Seq<Transaction>) -> Seq<TransactionView> {
    txs.map_values(|t: Transaction| t@)
}

impl View for BudgetState {
    type V = StoreView;

    open spec fn view(&self) -> StoreView {
        StoreView { balance: self.balance, transactions: views_of(self.transactions@) }
    }
}

/// The view a [`Transaction`] built from these fields would have.
pub open spec fn tx_view(
    amount: i64,
    date: Date,
    recurrence: Option<(Seq<char>, usize)>,
    note: Seq<char>,
) -> TransactionView {
    TransactionView { amount, date, recurrence, note }
}

/// The view of an optional recurrence pair.
pub open spec fn rec_view(recurrence: Option<(String, usize)>) -> Option<(Seq<char>, usize)> {
    match recurrence {
        Some((p, c)) => Some((p@, c)),
        None => None,
    }
}

impl BudgetState {
    /// A store with the given balance and no transactions.
    pub fn new(balance: i64) -> (r: BudgetState)
        ensures
            r@.balance == balance,
            r@.transactions == Seq::<TransactionView>::empty(),
    {
        let r = BudgetState { balance, transactions: Vec::new() };
        proof {
            assert(r@.transactions =~= Seq::<TransactionView>::empty());
        }
        r
    }

    /// Appends a new transaction; no field is validated.
    pub fn add_transaction(
        &mut self,
        amount: i64,
        date: Date,
        recurrence: Option<(String, usize)>,
        note: String,
    )
        ensures
            final(self)@.balance == old(self)@.balance,
            final(self)@.transactions == old(self)@.transactions.push(
                tx_view(amount, date, rec_view(recurrence), note@),
            ),
    {
        let tx = Transaction { amount, date, recurrence, note };
        let ghost expected = old(self)@.transactions.push(tx@);
        self.transactions.push(tx);
        proof {
            assert(self@.transactions =~= expected);
        }
    }

    /// Removes the transaction at `position`, shifting later ones down.
    /// Out-of-range positions leave the store unchanged.
    pub fn delete_transaction(&mut self, position: usize) -> (r: Result<(), StoreError>)
        ensures
            position < old(self)@.transactions.len() ==> {
                &&& r == Ok::<(), StoreError>(())
                &&& final(self)@.balance == old(self)@.balance
                &&& final(self)@.transactions == old(self)@.transactions.remove(position as int)
            },
            position >= old(self)@.transactions.len() ==> {
                &&& r == Err::<(), StoreError>(StoreError::IndexOutOfRange)
                &&& *final(self) == *old(self)
            },
    {
        if position < self.transactions.len() {
            self.transactions.remove(position);
            proof {
                assert(self@.transactions =~= old(self)@.transactions.remove(position as int));
            }
            Ok(())
        } else {
            Err(StoreError::IndexOutOfRange)
        }
    }

    /// Replaces every field of the transaction at `position`.
    /// Out-of-range positions leave the store unchanged.
    pub fn edit_transaction(
        &mut self,
        position: usize,
        amount: i64,
        date: Date,
        recurrence: Option<(String, usize)>,
        note: String,
    ) -> (r: Result<(), StoreError>)
        ensures
            position < old(self)@.transactions.len() ==> {
                &&& r == Ok::<(), StoreError>(())
                &&& final(self)@.balance == old(self)@.balance
                &&& final(self)@.transactions == old(self)@.transactions.update(
                    position as int,
                    tx_view(amount, date, rec_view(recurrence), note@),
                )
            },
            position >= old(self)@.transactions.len() ==> {
                &&& r == Err::<(), StoreError>(StoreError::IndexOutOfRange)
                &&& *final(self) == *old(self)
            },
    {
        if position < self.transactions.len() {
            let tx = Transaction { amount, date, recurrence, note };
            let ghost expected = old(self)@.transactions.update(position as int, tx@);
            self.transactions.remove(position);
            self.transactions.insert(position, tx);
            proof {
                assert(self@.transactions =~= expected);
            }
            Ok(())
        } else {
            Err(StoreError::IndexOutOfRange)
        }
    }

    /// The transactions paired with their current positions.
    pub fn list_transactions(&self) -> (r: Vec<(usize, Transaction)>)
        ensures
            r@.len() == self@.transactions.len(),
            forall|i: int| #![trigger r@[i]]
                0 <= i < r@.len() ==> r@[i].0 == i && r@[i].1@ == self@.transactions[i],
    {
        let mut r: Vec<(usize, Transaction)> = Vec::new();
        let mut i: usize = 0;
        while i < self.transactions.len()
            invariant
                i <= self.transactions.len(),
                r@.len() == i,
                forall|k: int| #![trigger r@[k]]
                    0 <= k < i ==> r@[k].0 == k && r@[k].1@ == self@.transactions[k],
            decreases self.transactions.len() - i,
        {
            let tx = self.transactions[i].duplicate();
            let ghost gtx = tx@;
            r.push((i, tx));
            proof {
                assert(self@.transactions[i as int] == self.transactions@[i as int]@);
                assert(r@.len() == i + 1);
                assert(r@[i as int].0 == i);
                assert(r@[i as int].1@ == gtx);
                assert(gtx == self.transactions@[i as int]@);
            }
            i = i + 1;
        }
        r
    }
}

} // verus!
