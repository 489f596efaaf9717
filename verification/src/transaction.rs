//! The transaction record.

use crate::timestamp::Timestamp;
use vstd::prelude::*;

verus! {

/// One record of a transaction file.
#[derive(Debug)]
pub struct Transaction {
    /// A free-text label.
    pub description: String,
    /// When the transaction took place.
    pub date: Timestamp,
    /// The label under which the transaction is grouped, compared exactly.
    pub category: String,
    /// The amount in hundredths; the sign tells the direction.
    pub amount: i64,
}

/// A transaction as a mathematical value: its texts as sequences of
/// characters.
pub struct Entry {
    pub description: Seq<char>,
    pub date: Timestamp,
    pub category: Seq<char>,
    pub amount: i64,
}

impl View for Transaction {
    type V = Entry;

    open spec fn view(&self) -> Entry {
        Entry {
            description: self.description@,
            date: self.date,
            category: self.category@,
            amount: self.amount,
        }
    }
}

impl DeepView for Transaction {
    type V = Entry;

    open spec fn deep_view(&self) -> Entry {
        self@
    }
}

impl Entry {
    /// The key of the month that the transaction lies in.
    pub open spec fn month(self) -> Seq<char> {
        self.date.month_key_text()
    }
}

impl Clone for Transaction {
    fn clone(&self) -> (copy: Transaction)
        ensures
            copy == *self,
    {
        Transaction {
            description: self.description.clone(),
            date: self.date,
            category: self.category.clone(),
            amount: self.amount,
        }
    }
}

impl Transaction {
    /// The key of the month that the transaction lies in: its year and month
    /// number joined by a hyphen, such as `2023-5`.
    pub fn month(&self) -> (key: String)
        ensures
            key@ == self@.month(),
    {
        self.date.month_key()
    }
}

} // verus!
