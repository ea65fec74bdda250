//! A small ledger engine: it replays a stream of per-client transactions
//! (deposit, withdrawal, dispute, resolve, chargeback) and yields the final
//! balance of every account that was touched.
//!
//! Amounts are exact fixed-point values with four fractional digits, stored
//! as an `i64` scaled by ten thousand, so no rounding ever occurs.

mod amount;
mod engine;
mod model;
mod output;
mod record;

pub use amount::FractionalAmount;
pub use amount::FractionalAmountParseError;
pub use output::AccountOutputCSVRecord;
pub use record::RecordError;
pub use record::build_transaction;
pub use record::Transaction;
pub use record::TransactionKind;
pub use engine::Account;
pub use engine::Accounts;
pub use engine::ClientId;
pub use engine::TransactionChargebackError;
pub use engine::TransactionDepositError;
pub use engine::TransactionDisputeError;
pub use engine::TransactionId;
pub use engine::TransactionProcessor;
pub use engine::TransactionResolveError;
pub use engine::TransactionWithdrawError;
pub use model::AccountState;
pub use model::ProcState;
