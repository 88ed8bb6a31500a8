//! The record attached to each directed edge of a transaction graph.

use vstd::prelude::*;

verus! {

/// A single transaction: the weight carried by one directed edge.
///
/// `value` is the transferred amount in the smallest integer unit of the
/// currency, `unit` names that currency, and `timestamp` is the time of the
/// transaction in unix epoch seconds.
pub struct Transaction {
    /// Transferred amount; the weight of the edge the record is attached to.
    pub value: u64,
    /// Currency (or contract) the amount is denominated in.
    pub unit: String,
    /// Time of the transaction, in unix epoch seconds.
    pub timestamp: u64,
}

/// The mathematical image of a [`Transaction`]: the same three fields with
/// the currency name as a sequence of characters.
#[verifier::ext_equal]
pub struct TransactionModel {
    pub value: u64,
    pub unit: Seq<char>,
    pub timestamp: u64,
}

impl View for Transaction {
    type V = TransactionModel;

    open spec fn view(&self) -> TransactionModel {
        TransactionModel { value: self.value, unit: self.unit@, timestamp: self.timestamp }
    }
}

impl Clone for Transaction {
    fn clone(&self) -> (r: Self)
        ensures
            r@ == self@,
    {
        Transaction { value: self.value, unit: self.unit.clone(), timestamp: self.timestamp }
    }
}

impl Transaction {
    /// Builds the record from its three fields.
    pub fn new(value: u64, unit: String, timestamp: u64) -> (r: Self)
        ensures
            r@ == (TransactionModel { value, unit: unit@, timestamp }),
    {
        Transaction { value, unit, timestamp }
    }
}

} // verus!
