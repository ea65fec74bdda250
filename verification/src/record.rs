//! Validation of the shape of one input record.
//!
//! The input collaborator reads rows into a kind, a client, a transaction
//! id, and an optional amount string. This module checks the one rule that
//! couples them — deposits and withdrawals must carry a well-formed amount,
//! the dispute-lifecycle kinds must carry none — and yields the typed
//! transaction. Any failure here is fatal to the whole run.

use vstd::prelude::*;

use crate::amount::FractionalAmount;
use crate::amount::FractionalAmountParseError;
use crate::amount::parse_spec;

verus! {

/// The five kinds of transaction records.
#[derive(Debug, Clone, Copy, PartialEq, Eq, Structural)]
pub enum TransactionKind {
    Deposit,
    Withdrawal,
    Dispute,
    Resolve,
    Chargeback,
}

/// One fully validated transaction, carrying an amount only for deposits
/// and withdrawals.
#[derive(Debug, Clone, Copy, PartialEq, Eq, Structural)]
pub enum Transaction {
    Deposit(FractionalAmount),
    Withdrawal(FractionalAmount),
    Dispute,
    Resolve,
    Chargeback,
}

/// The fatal errors of record validation.
#[derive(Debug, Clone, Copy, PartialEq, Eq, Structural)]
pub enum RecordError {
    /// A deposit row came without an amount field.
    DepositMustSpecifyAmount,
    /// A withdrawal row came without an amount field.
    WithdrawalMustSpecifyAmount,
    /// The amount field of a deposit or withdrawal row does not parse.
    AmountParseError(FractionalAmountParseError),
    /// A dispute row carried an amount field.
    DisputeCannotSpecifyAmount,
    /// A resolve row carried an amount field.
    ResolveCannotSpecifyAmount,
    /// A chargeback row carried an amount field.
    ChargebackCannotSpecifyAmount,
}

/// The characters of the optional amount field.
pub open spec fn amount_field_view(amount: Option<&str>) -> Option<Seq<char>> {
    match amount {
        Some(a) => Some(a@),
        None => None,
    }
}

/// What validating one record yields, by kind: deposits and withdrawals
/// need an amount that parses, the dispute-lifecycle kinds must come bare.
pub open spec fn build_transaction_spec(
    kind: TransactionKind,
    amount: Option<Seq<char>>,
) -> Result<Transaction, RecordError> {
    match kind {
        TransactionKind::Deposit => match amount {
            None => Err(RecordError::DepositMustSpecifyAmount),
            Some(s) => match parse_spec(s) {
                Ok(a) => Ok(Transaction::Deposit(a)),
                Err(e) => Err(RecordError::AmountParseError(e)),
            },
        },
        TransactionKind::Withdrawal => match amount {
            None => Err(RecordError::WithdrawalMustSpecifyAmount),
            Some(s) => match parse_spec(s) {
                Ok(a) => Ok(Transaction::Withdrawal(a)),
                Err(e) => Err(RecordError::AmountParseError(e)),
            },
        },
        TransactionKind::Dispute => match amount {
            Some(_) => Err(RecordError::DisputeCannotSpecifyAmount),
            None => Ok(Transaction::Dispute),
        },
        TransactionKind::Resolve => match amount {
            Some(_) => Err(RecordError::ResolveCannotSpecifyAmount),
            None => Ok(Transaction::Resolve),
        },
        TransactionKind::Chargeback => match amount {
            Some(_) => Err(RecordError::ChargebackCannotSpecifyAmount),
            None => Ok(Transaction::Chargeback),
        },
    }
}

/// Turns the kind and optional amount field of one row into a typed
/// transaction, or the fatal error that rejects the row.
pub fn build_transaction(kind: TransactionKind, amount: Option<&str>) -> (r: Result<
    Transaction,
    RecordError,
>)
    ensures
        r == build_transaction_spec(kind, amount_field_view(amount)),
{
    match kind {
        TransactionKind::Deposit => match amount {
            None => Err(RecordError::DepositMustSpecifyAmount),
            Some(a) => match FractionalAmount::parse(a) {
                Ok(v) => Ok(Transaction::Deposit(v)),
                Err(e) => Err(RecordError::AmountParseError(e)),
            },
        },
        TransactionKind::Withdrawal => match amount {
            None => Err(RecordError::WithdrawalMustSpecifyAmount),
            Some(a) => match FractionalAmount::parse(a) {
                Ok(v) => Ok(Transaction::Withdrawal(v)),
                Err(e) => Err(RecordError::AmountParseError(e)),
            },
        },
        TransactionKind::Dispute => match amount {
            Some(_) => Err(RecordError::DisputeCannotSpecifyAmount),
            None => Ok(Transaction::Dispute),
        },
        TransactionKind::Resolve => match amount {
            Some(_) => Err(RecordError::ResolveCannotSpecifyAmount),
            None => Ok(Transaction::Resolve),
        },
        TransactionKind::Chargeback => match amount {
            Some(_) => Err(RecordError::ChargebackCannotSpecifyAmount),
            None => Ok(Transaction::Chargeback),
        },
    }
}

} // verus!
