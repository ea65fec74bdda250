use transaction_engine::FractionalAmount;
use transaction_engine::FractionalAmountParseError;
use transaction_engine::RecordError;
use transaction_engine::Transaction;
use transaction_engine::TransactionKind;
use transaction_engine::build_transaction;

#[test]
fn deposit_records_need_an_amount() {
    assert_eq!(
        build_transaction(TransactionKind::Deposit, Some("1.5")),
        Ok(Transaction::Deposit(FractionalAmount(15000)))
    );
    assert_eq!(
        build_transaction(TransactionKind::Deposit, None),
        Err(RecordError::DepositMustSpecifyAmount)
    );
}

#[test]
fn withdrawal_records_need_an_amount() {
    assert_eq!(
        build_transaction(TransactionKind::Withdrawal, Some("0.25009")),
        Ok(Transaction::Withdrawal(FractionalAmount(2500)))
    );
    assert_eq!(
        build_transaction(TransactionKind::Withdrawal, None),
        Err(RecordError::WithdrawalMustSpecifyAmount)
    );
}

#[test]
fn malformed_amounts_are_fatal() {
    assert_eq!(
        build_transaction(TransactionKind::Deposit, Some("1.5x")),
        Err(RecordError::AmountParseError(
            FractionalAmountParseError::NonDigitInFractionalPortion
        ))
    );
    assert_eq!(
        build_transaction(TransactionKind::Withdrawal, Some("oops")),
        Err(RecordError::AmountParseError(
            FractionalAmountParseError::InvalidIntegerPortion
        ))
    );
}

#[test]
fn dispute_lifecycle_records_must_come_bare() {
    assert_eq!(
        build_transaction(TransactionKind::Dispute, None),
        Ok(Transaction::Dispute)
    );
    assert_eq!(
        build_transaction(TransactionKind::Resolve, None),
        Ok(Transaction::Resolve)
    );
    assert_eq!(
        build_transaction(TransactionKind::Chargeback, None),
        Ok(Transaction::Chargeback)
    );
    assert_eq!(
        build_transaction(TransactionKind::Dispute, Some("1.0")),
        Err(RecordError::DisputeCannotSpecifyAmount)
    );
    assert_eq!(
        build_transaction(TransactionKind::Resolve, Some("1.0")),
        Err(RecordError::ResolveCannotSpecifyAmount)
    );
    assert_eq!(
        build_transaction(TransactionKind::Chargeback, Some("1.0")),
        Err(RecordError::ChargebackCannotSpecifyAmount)
    );
}
