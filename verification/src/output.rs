//! The shape of one row of the final account table, ready for output.

use vstd::prelude::*;

use crate::amount::amount_chars;
use crate::engine::Account;
use crate::engine::ClientId;

verus! {

/// One row of the final account table as the output collaborator emits it:
/// the client id, every balance in canonical decimal form, and the frozen
/// flag under its output name.
#[derive(Debug)]
pub struct AccountOutputCSVRecord {
    pub client: u16,
    pub available: String,
    pub held: String,
    pub total: String,
    pub locked: bool,
}

impl AccountOutputCSVRecord {
    /// Renders one client's account into its output row.
    pub fn new(client_id: ClientId, account: &Account) -> (r: Self)
        requires
            i64::MIN <= account@.available + account@.held <= i64::MAX,
        ensures
            r.client == client_id.0,
            r.available@ == amount_chars(account@.available),
            r.held@ == amount_chars(account@.held),
            r.total@ == amount_chars(account@.available + account@.held),
            r.locked == account@.frozen,
    {
        AccountOutputCSVRecord {
            client: client_id.0,
            available: account.get_available().to_string(),
            held: account.get_held().to_string(),
            total: account.get_total().to_string(),
            locked: account.is_frozen(),
        }
    }
}

} // verus!
