//! Transactions: the input records of the processing pipeline.
//!
//! A monetary amount is a fixed-point decimal with four fractional digits,
//! held as a plain integer count of ten-thousandths of a currency unit.
//! All arithmetic on amounts is exact.

use vstd::prelude::*;

use crate::models::account::AccountId;

verus! {

/// A monetary amount, in ten-thousandths of a currency unit.
///
/// Deposits and withdrawals carry non-negative amounts (see
/// [`Transaction::wf`]); account balances may go negative while a
/// withdrawal is under dispute, so the type is signed.
pub type Amount = i64;

/// Identifier of a deposit or withdrawal, globally unique across the input.
/// Dispute, resolve and chargeback records reference one of these.
#[derive(Clone, Copy, Debug, PartialEq, Eq, Structural, Hash)]
pub struct TransactionId(pub u32);

impl From<u32> for TransactionId {
    fn from(v: u32) -> (r: Self)
        ensures
            r == TransactionId(v),
    {
        TransactionId(v)
    }
}

impl vstd::std_specs::convert::FromSpecImpl<u32> for TransactionId {
    open spec fn obeys_from_spec() -> bool {
        true
    }

    open spec fn from_spec(v: u32) -> Self {
        TransactionId(v)
    }
}

impl From<TransactionId> for u32 {
    fn from(v: TransactionId) -> (r: u32)
        ensures
            r == v.0,
    {
        v.0
    }
}

impl vstd::std_specs::convert::FromSpecImpl<TransactionId> for u32 {
    open spec fn obeys_from_spec() -> bool {
        true
    }

    open spec fn from_spec(v: TransactionId) -> u32 {
        v.0
    }
}

/// The five kinds of input record. Only deposits and withdrawals carry an
/// amount; the dispute family references an earlier monetary transaction
/// by its id.
#[derive(Clone, Copy, Debug, PartialEq, Eq, Structural)]
pub enum TransactionType {
    Deposit { amount: Amount },
    Withdrawal { amount: Amount },
    Dispute,
    Resolve,
    Chargeback,
}

/// One input record, already parsed into plain values.
#[derive(Clone, Copy, Debug, PartialEq, Eq, Structural)]
pub struct Transaction {
    pub id: TransactionId,
    pub account_id: AccountId,
    pub txn_type: TransactionType,
}

impl Transaction {
    pub fn new(id: TransactionId, account_id: AccountId, txn_type: TransactionType) -> (r: Self)
        ensures
            r == (Transaction { id, account_id, txn_type }),
    {
        Transaction { id, account_id, txn_type }
    }

    pub fn id(&self) -> (r: TransactionId)
        ensures
            r == self.id,
    {
        self.id
    }

    pub fn account_id(&self) -> (r: AccountId)
        ensures
            r == self.account_id,
    {
        self.account_id
    }

    pub fn txn_type(&self) -> (r: TransactionType)
        ensures
            r == self.txn_type,
    {
        self.txn_type
    }

    /// A well-formed record: monetary transactions carry a non-negative
    /// amount. The input format guarantees this; it is required wherever a
    /// transaction enters the library.
    pub open spec fn wf(&self) -> bool {
        match self.txn_type {
            TransactionType::Deposit { amount } => amount >= 0,
            TransactionType::Withdrawal { amount } => amount >= 0,
            _ => true,
        }
    }
}

} // verus!
