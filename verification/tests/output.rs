use transaction_engine::AccountOutputCSVRecord;
use transaction_engine::ClientId;
use transaction_engine::FractionalAmount;
use transaction_engine::TransactionId;
use transaction_engine::TransactionProcessor;

#[test]
fn output_rows_render_all_balances_canonically() {
    let mut p = TransactionProcessor::new();
    let client = ClientId(7);
    p.deposit(client, TransactionId(1), FractionalAmount::parse("1.5").unwrap()).unwrap();
    p.deposit(client, TransactionId(2), FractionalAmount::parse("0.25").unwrap()).unwrap();
    p.dispute(client, TransactionId(2)).unwrap();

    let accounts = p.into_accounts();
    let (client_ret, acc) = accounts[0];
    let row = AccountOutputCSVRecord::new(client_ret, &acc);
    assert_eq!(row.client, 7);
    assert_eq!(row.available, "1.5000");
    assert_eq!(row.held, "0.2500");
    assert_eq!(row.total, "1.7500");
    assert!(!row.locked);
}

#[test]
fn output_rows_carry_the_frozen_flag_as_locked() {
    let mut p = TransactionProcessor::new();
    let client = ClientId(3);
    p.deposit(client, TransactionId(1), FractionalAmount::parse("2").unwrap()).unwrap();
    p.dispute(client, TransactionId(1)).unwrap();
    p.chargeback(client, TransactionId(1)).unwrap();

    let accounts = p.into_accounts();
    let (client_ret, acc) = accounts[0];
    let row = AccountOutputCSVRecord::new(client_ret, &acc);
    assert_eq!(row.client, 3);
    assert_eq!(row.available, "0.0000");
    assert_eq!(row.held, "0.0000");
    assert_eq!(row.total, "0.0000");
    assert!(row.locked);
}
