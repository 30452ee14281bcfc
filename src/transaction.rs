//! Input records and the errors a ledger reports for them.

use crate::amount::Amount;
use vstd::prelude::*;

verus! {

pub type ClientId = u16;

pub type TransactionId = u32;

/// Why a record was not applied to an account.
#[derive(Clone, Copy, Debug, PartialEq, Eq, Structural)]
pub enum Error {
    MissingAmount,
    InsufficientFunds,
    ClientIdMismatch,
    AccountLocked,
    UnknownTransactionId,
    DuplicatedTransactionId,
    AlreadyDisputed,
    NotDisputed,
    /// The exact result of a balance update cannot be held by a decimal.
    Overflow,
}

pub type Result<T> = std::result::Result<T, Error>;

#[derive(Clone, Copy, Debug, PartialEq, Eq, Structural)]
pub enum TransactionType {
    Deposit,
    Withdrawal,
    Dispute,
    Resolve,
    Chargeback,
}

/// One input record; `amount` is expected on deposits and withdrawals only.
#[derive(Clone, Copy, Debug, PartialEq)]
pub struct Transaction {
    pub transaction_type: TransactionType,
    pub client_id: ClientId,
    pub transaction_id: TransactionId,
    pub amount: Option<Amount>,
}

impl Transaction {
    pub fn get_amount(&self) -> (r: Result<Amount>)
        ensures
            r == (match self.amount {
                Some(a) => Ok(a),
                None => Err(Error::MissingAmount),
            }),
    {
        match self.amount {
            Some(a) => Ok(a),
            None => Err(Error::MissingAmount),
        }
    }

    /// Whether the record carries no amount, as a dispute, resolve or
    /// chargeback should; a present amount there is tolerated and ignored.
    pub fn check_amount_empty(&self) -> (r: bool)
        ensures
            r == (self.amount is None),
    {
        self.amount.is_none()
    }
}

} // verus!
