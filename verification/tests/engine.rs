use transaction_engine::Account;
use transaction_engine::ClientId;
use transaction_engine::FractionalAmount;
use transaction_engine::TransactionChargebackError;
use transaction_engine::TransactionDepositError;
use transaction_engine::TransactionDisputeError;
use transaction_engine::TransactionId;
use transaction_engine::TransactionProcessor;
use transaction_engine::TransactionResolveError;
use transaction_engine::TransactionWithdrawError;

fn amount(s: &str) -> FractionalAmount {
    FractionalAmount::parse(s).unwrap()
}

fn single_account(p: TransactionProcessor) -> (ClientId, Account) {
    let accounts = p.into_accounts();
    assert_eq!(accounts.len(), 1);
    accounts[0]
}

#[test]
fn deposit_then_withdraw() {
    let mut p = TransactionProcessor::new();
    let client = ClientId(1);
    p.deposit(client, TransactionId(1), amount("1.5000000000001")).unwrap();
    p.withdraw(client, TransactionId(2), amount("0.25009")).unwrap();

    let (client_ret, acc) = single_account(p);
    assert_eq!(client_ret, client);
    assert!(!acc.is_frozen());
    assert_eq!(acc.get_available().to_string(), "1.2500");
    assert_eq!(acc.get_held().to_string(), "0.0000");
    assert_eq!(acc.get_total().to_string(), "1.2500");
}

#[test]
fn dispute_after_withdrawal_can_go_negative() {
    let mut p = TransactionProcessor::new();
    let client = ClientId(1);
    p.deposit(client, TransactionId(1), amount("1.5")).unwrap();
    p.withdraw(client, TransactionId(2), amount("0.25")).unwrap();
    p.dispute(client, TransactionId(1)).unwrap();

    let (_, acc) = single_account(p);
    assert_eq!(acc.get_available().to_string(), "-0.2500");
    assert_eq!(acc.get_held().to_string(), "1.5000");
    assert_eq!(acc.get_total().to_string(), "1.2500");
}

#[test]
fn dispute_of_unknown_transaction_fails_without_effect() {
    let mut p = TransactionProcessor::new();
    let client = ClientId(1);
    p.deposit(client, TransactionId(1), amount("1.5")).unwrap();
    let r = p.dispute(client, TransactionId(99));
    assert_eq!(r, Err(TransactionDisputeError::TransactionNotFound));
    // a dispute from the wrong client also fails: the key is (client, tx)
    let r = p.dispute(ClientId(2), TransactionId(1));
    assert_eq!(r, Err(TransactionDisputeError::TransactionNotFound));

    let (_, acc) = single_account(p);
    assert_eq!(acc.get_available().to_string(), "1.5000");
    assert_eq!(acc.get_held().to_string(), "0.0000");
    assert!(!acc.is_frozen());
}

#[test]
fn withdrawal_beyond_available_fails_without_balance_change() {
    let mut p = TransactionProcessor::new();
    let client = ClientId(1);
    p.deposit(client, TransactionId(1), amount("1.0")).unwrap();
    let r = p.withdraw(client, TransactionId(2), amount("2.0"));
    assert_eq!(r, Err(TransactionWithdrawError::InsufficientFunds));

    let (_, acc) = single_account(p);
    assert_eq!(acc.get_available().to_string(), "1.0000");
    assert_eq!(acc.get_held().to_string(), "0.0000");
}

#[test]
fn withdrawal_without_prior_deposit_fails_but_creates_the_account() {
    let mut p = TransactionProcessor::new();
    let client = ClientId(5);
    let r = p.withdraw(client, TransactionId(1), amount("0.0001"));
    assert_eq!(r, Err(TransactionWithdrawError::InsufficientFunds));

    // the account was lazily created with empty balances
    let (client_ret, acc) = single_account(p);
    assert_eq!(client_ret, client);
    assert_eq!(acc.get_available().to_string(), "0.0000");
    assert_eq!(acc.get_held().to_string(), "0.0000");
    assert!(!acc.is_frozen());
}

#[test]
fn negative_amounts_are_refused() {
    let mut p = TransactionProcessor::new();
    let client = ClientId(1);
    let r = p.deposit(client, TransactionId(1), FractionalAmount(-1));
    assert_eq!(r, Err(TransactionDepositError::NegativeAmount));
    let r = p.withdraw(client, TransactionId(2), FractionalAmount(-1));
    assert_eq!(r, Err(TransactionWithdrawError::NegativeAmount));
    // neither refused transaction left any trace
    assert_eq!(p.into_accounts().len(), 0);
}

#[test]
fn dispute_then_resolve_is_balance_neutral() {
    let mut p = TransactionProcessor::new();
    let client = ClientId(1);
    p.deposit(client, TransactionId(1), amount("1.5")).unwrap();
    p.deposit(client, TransactionId(2), amount("0.3")).unwrap();

    p.dispute(client, TransactionId(1)).unwrap();
    p.resolve(client, TransactionId(1)).unwrap();

    let (_, acc) = single_account(p);
    assert_eq!(acc.get_available().to_string(), "1.8000");
    assert_eq!(acc.get_held().to_string(), "0.0000");
    assert!(!acc.is_frozen());
}

#[test]
fn resolved_deposit_can_be_disputed_again() {
    let mut p = TransactionProcessor::new();
    let client = ClientId(1);
    p.deposit(client, TransactionId(1), amount("1.5")).unwrap();
    p.dispute(client, TransactionId(1)).unwrap();
    p.resolve(client, TransactionId(1)).unwrap();
    p.dispute(client, TransactionId(1)).unwrap();

    let (_, acc) = single_account(p);
    assert_eq!(acc.get_available().to_string(), "0.0000");
    assert_eq!(acc.get_held().to_string(), "1.5000");
}

#[test]
fn chargeback_freezes_and_removes_the_transaction_for_good() {
    let mut p = TransactionProcessor::new();
    let client = ClientId(1);
    p.deposit(client, TransactionId(1), amount("1.5")).unwrap();
    p.deposit(client, TransactionId(2), amount("0.3")).unwrap();
    p.dispute(client, TransactionId(1)).unwrap();
    p.chargeback(client, TransactionId(1)).unwrap();

    // the id is gone from both indices: no second resolve or chargeback
    assert_eq!(
        p.resolve(client, TransactionId(1)),
        Err(TransactionResolveError::DisputeNotFound)
    );
    assert_eq!(
        p.chargeback(client, TransactionId(1)),
        Err(TransactionChargebackError::DisputeNotFound)
    );
    // nor can the charged-back deposit be disputed again
    assert_eq!(
        p.dispute(client, TransactionId(1)),
        Err(TransactionDisputeError::TransactionNotFound)
    );

    let (_, acc) = single_account(p);
    assert!(acc.is_frozen());
    assert_eq!(acc.get_available().to_string(), "0.3000");
    assert_eq!(acc.get_held().to_string(), "0.0000");
    assert_eq!(acc.get_total().to_string(), "0.3000");
}

#[test]
fn resolve_without_open_dispute_fails() {
    let mut p = TransactionProcessor::new();
    let client = ClientId(1);
    p.deposit(client, TransactionId(1), amount("1.5")).unwrap();
    assert_eq!(
        p.resolve(client, TransactionId(1)),
        Err(TransactionResolveError::DisputeNotFound)
    );
}

#[test]
fn chargeback_without_open_dispute_fails() {
    let mut p = TransactionProcessor::new();
    let client = ClientId(1);
    p.deposit(client, TransactionId(1), amount("1.5")).unwrap();
    assert_eq!(
        p.chargeback(client, TransactionId(1)),
        Err(TransactionChargebackError::DisputeNotFound)
    );
}

#[test]
fn deposits_accumulate_exactly_per_client() {
    let mut p = TransactionProcessor::new();
    let first = ClientId(1);
    let second = ClientId(2);
    p.deposit(first, TransactionId(1), amount("0.1")).unwrap();
    p.deposit(second, TransactionId(2), amount("10")).unwrap();
    p.deposit(first, TransactionId(3), amount("0.2")).unwrap();
    p.deposit(first, TransactionId(4), amount("0.3")).unwrap();

    let accounts = p.into_accounts();
    // accounts come out in order of first appearance
    assert_eq!(accounts.len(), 2);
    assert_eq!(accounts[0].0, first);
    assert_eq!(accounts[1].0, second);
    assert_eq!(accounts[0].1.get_available().to_string(), "0.6000");
    assert_eq!(accounts[1].1.get_available().to_string(), "10.0000");
}

#[test]
fn default_account_is_empty_and_unfrozen() {
    let acc = Account::default();
    assert_eq!(acc.get_available().0, 0);
    assert_eq!(acc.get_held().0, 0);
    assert_eq!(acc.get_total().0, 0);
    assert!(!acc.is_frozen());
}

#[test]
fn precondition_guards_accept_ordinary_amounts() {
    let mut p = TransactionProcessor::new();
    let client = ClientId(1);
    assert!(p.can_deposit(client, amount("1.5")));
    p.deposit(client, TransactionId(1), amount("1.5")).unwrap();
    assert!(p.can_dispute(client, TransactionId(1)));
    p.dispute(client, TransactionId(1)).unwrap();
    assert!(p.can_resolve(client, TransactionId(1)));
    assert!(p.can_chargeback(client, TransactionId(1)));
}

#[test]
fn deposit_guard_detects_representation_overflow() {
    let mut p = TransactionProcessor::new();
    let client = ClientId(1);
    p.deposit(client, TransactionId(1), FractionalAmount(i64::MAX)).unwrap();
    assert!(!p.can_deposit(client, FractionalAmount(1)));
    assert!(p.can_deposit(client, FractionalAmount(0)));
}
