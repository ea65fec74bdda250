//! The transaction processor: accounts, the dispute lifecycle, and the
//! final projection of balances.

use vstd::prelude::*;

use crate::amount::FractionalAmount;
use crate::model::AccountState;
use crate::model::ProcState;
use crate::model::lemma_apply_chargeback_wf;
use crate::model::lemma_apply_deposit_wf;
use crate::model::lemma_apply_dispute_wf;
use crate::model::lemma_apply_resolve_wf;
use crate::model::lemma_apply_withdraw_wf;
use crate::model::lemma_touch_wf;

verus! {

/// A client identifier: a 16-bit integer read from the input.
#[derive(Debug, Clone, Copy, PartialEq, Eq, Structural)]
pub struct ClientId(pub u16);

/// A transaction identifier: a 32-bit integer read from the input, assumed
/// globally unique for deposits across the whole stream.
#[derive(Debug, Clone, Copy, PartialEq, Eq, Structural)]
pub struct TransactionId(pub u32);

/// The account of a single client.
#[derive(Debug, Clone, Copy, PartialEq, Eq, Structural)]
pub struct Account {
    pub available_amount: FractionalAmount,
    pub held_amount: FractionalAmount,
    pub frozen: bool,
}

impl View for Account {
    type V = AccountState;

    open spec fn view(&self) -> AccountState {
        AccountState {
            available: self.available_amount.0 as int,
            held: self.held_amount.0 as int,
            frozen: self.frozen,
        }
    }
}

impl Account {
    /// Whether a chargeback has frozen this account.
    pub fn is_frozen(&self) -> (r: bool)
        ensures
            r == self@.frozen,
    {
        self.frozen
    }

    /// The balance available for withdrawal.
    pub fn get_available(&self) -> (r: FractionalAmount)
        ensures
            r.0 == self@.available,
    {
        self.available_amount
    }

    /// The balance held back by open disputes.
    pub fn get_held(&self) -> (r: FractionalAmount)
        ensures
            r.0 == self@.held,
    {
        self.held_amount
    }

    /// The derived total of the account, never stored redundantly.
    pub fn get_total(&self) -> (r: FractionalAmount)
        requires
            i64::MIN <= self@.available + self@.held <= i64::MAX,
        ensures
            r.0 == self@.available + self@.held,
    {
        FractionalAmount(self.available_amount.0 + self.held_amount.0)
    }
}

impl Default for Account {
    /// A freshly created account: empty and not frozen.
    fn default() -> (r: Self)
        ensures
            r@ == AccountState::new(),
    {
        Account {
            available_amount: FractionalAmount(0),
            held_amount: FractionalAmount(0),
            frozen: false,
        }
    }
}

/// The error of a deposit.
#[derive(Debug, Clone, Copy, PartialEq, Eq, Structural)]
pub enum TransactionDepositError {
    /// Deposits of negative amounts are refused.
    NegativeAmount,
}

/// The errors of a withdrawal.
#[derive(Debug, Clone, Copy, PartialEq, Eq, Structural)]
pub enum TransactionWithdrawError {
    /// Withdrawals of negative amounts are refused.
    NegativeAmount,
    /// The available balance does not cover the requested amount.
    InsufficientFunds,
}

/// The error of a dispute.
#[derive(Debug, Clone, Copy, PartialEq, Eq, Structural)]
pub enum TransactionDisputeError {
    /// No undisputed deposit with this (client, transaction) key exists: it
    /// was never deposited, is already under dispute, was charged back, or
    /// was a withdrawal.
    TransactionNotFound,
}

/// The error of a resolve.
#[derive(Debug, Clone, Copy, PartialEq, Eq, Structural)]
pub enum TransactionResolveError {
    /// No open dispute with this (client, transaction) key exists.
    DisputeNotFound,
}

/// The error of a chargeback.
#[derive(Debug, Clone, Copy, PartialEq, Eq, Structural)]
pub enum TransactionChargebackError {
    /// No open dispute with this (client, transaction) key exists.
    DisputeNotFound,
}

/// One deposit held in an index of the dispute lifecycle.
#[derive(Clone, Copy)]
struct TxRecord {
    client_id: ClientId,
    transaction_id: TransactionId,
    amount: FractionalAmount,
}

/// The final account table: one entry per client that was touched, in order
/// of first appearance.
pub type Accounts = Vec<(ClientId, Account)>;

/// The (client, transaction) key of an index entry.
spec fn tx_key(r: TxRecord) -> (u16, u32) {
    (r.client_id.0, r.transaction_id.0)
}

/// The map an index holds: scaled amount by (client, transaction).
spec fn tx_map_of(s: Seq<TxRecord>) -> Map<(u16, u32), int>
    decreases s.len(),
{
    if s.len() == 0 {
        Map::empty()
    } else {
        tx_map_of(s.drop_last()).insert(tx_key(s.last()), s.last().amount.0 as int)
    }
}

/// No two entries of an index share their key.
spec fn tx_keys_unique(s: Seq<TxRecord>) -> bool {
    forall|i: int, j: int|
        0 <= i < s.len() && 0 <= j < s.len() && i != j ==> tx_key(#[trigger] s[i]) != tx_key(
            #[trigger] s[j],
        )
}

/// The map the account table holds: balances by client.
spec fn acct_map_of(s: Seq<(ClientId, Account)>) -> Map<u16, AccountState>
    decreases s.len(),
{
    if s.len() == 0 {
        Map::empty()
    } else {
        acct_map_of(s.drop_last()).insert(s.last().0.0, s.last().1@)
    }
}

/// The clients of the account table, in table order.
spec fn acct_order_of(s: Seq<(ClientId, Account)>) -> Seq<u16> {
    Seq::new(s.len(), |i: int| s[i].0.0)
}

/// No two entries of the account table share their client.
spec fn acct_keys_unique(s: Seq<(ClientId, Account)>) -> bool {
    forall|i: int, j: int|
        0 <= i < s.len() && 0 <= j < s.len() && i != j ==> (#[trigger] s[i]).0.0 != (
        #[trigger] s[j]).0.0
}

proof fn lemma_tx_contains(s: Seq<TxRecord>, k: (u16, u32))
    ensures
        tx_map_of(s).dom().contains(k) <==> exists|i: int|
            0 <= i < s.len() && tx_key(#[trigger] s[i]) == k,
    decreases s.len(),
{
    if s.len() > 0 {
        let dl = s.drop_last();
        lemma_tx_contains(dl, k);
        if tx_map_of(s).dom().contains(k) {
            if k == tx_key(s.last()) {
                assert(tx_key(s[s.len() - 1]) == k);
            } else {
                let i = choose|i: int| 0 <= i < dl.len() && tx_key(#[trigger] dl[i]) == k;
                assert(tx_key(s[i]) == k);
            }
        }
        if exists|i: int| 0 <= i < s.len() && tx_key(#[trigger] s[i]) == k {
            let i = choose|i: int| 0 <= i < s.len() && tx_key(#[trigger] s[i]) == k;
            if i < s.len() - 1 {
                assert(tx_key(dl[i]) == k);
            }
        }
    }
}

proof fn lemma_tx_index(s: Seq<TxRecord>, i: int)
    requires
        tx_keys_unique(s),
        0 <= i < s.len(),
    ensures
        tx_map_of(s).dom().contains(tx_key(s[i])),
        tx_map_of(s)[tx_key(s[i])] == s[i].amount.0 as int,
    decreases s.len(),
{
    if i < s.len() - 1 {
        let dl = s.drop_last();
        assert(tx_key(s[i]) != tx_key(s[s.len() - 1]));
        lemma_tx_index(dl, i);
    }
}

proof fn lemma_tx_push(s: Seq<TxRecord>, r: TxRecord)
    requires
        tx_keys_unique(s),
        !tx_map_of(s).dom().contains(tx_key(r)),
    ensures
        tx_map_of(s.push(r)) == tx_map_of(s).insert(tx_key(r), r.amount.0 as int),
        tx_keys_unique(s.push(r)),
{
    assert(s.push(r).drop_last() =~= s);
    lemma_tx_contains(s, tx_key(r));
    assert forall|i: int, j: int|
        0 <= i < s.push(r).len() && 0 <= j < s.push(r).len() && i != j implies tx_key(
        #[trigger] s.push(r)[i]) != tx_key(#[trigger] s.push(r)[j]) by {
        if i < s.len() && j < s.len() {
        } else if i < s.len() {
            assert(tx_key(s[i]) != tx_key(r));
        } else {
            assert(tx_key(s[j]) != tx_key(r));
        }
    }
}

proof fn lemma_tx_update(s: Seq<TxRecord>, i: int, r: TxRecord)
    requires
        tx_keys_unique(s),
        0 <= i < s.len(),
        tx_key(r) == tx_key(s[i]),
    ensures
        tx_map_of(s.update(i, r)) == tx_map_of(s).insert(tx_key(r), r.amount.0 as int),
        tx_keys_unique(s.update(i, r)),
    decreases s.len(),
{
    let dl = s.drop_last();
    if i == s.len() - 1 {
        assert(s.update(i, r).drop_last() =~= dl);
        assert(tx_map_of(dl).insert(tx_key(r), r.amount.0 as int) =~= tx_map_of(dl).insert(
            tx_key(s.last()),
            s.last().amount.0 as int,
        ).insert(tx_key(r), r.amount.0 as int));
    } else {
        assert(s.update(i, r).drop_last() =~= dl.update(i, r));
        lemma_tx_update(dl, i, r);
        assert(tx_key(s[i]) != tx_key(s[s.len() - 1]));
        assert(tx_map_of(dl).insert(tx_key(r), r.amount.0 as int).insert(
            tx_key(s.last()),
            s.last().amount.0 as int,
        ) =~= tx_map_of(dl).insert(tx_key(s.last()), s.last().amount.0 as int).insert(
            tx_key(r),
            r.amount.0 as int,
        ));
        assert(s.update(i, r).last() == s.last());
    }
    assert forall|x: int, y: int|
        0 <= x < s.update(i, r).len() && 0 <= y < s.update(i, r).len() && x != y implies tx_key(
        #[trigger] s.update(i, r)[x]) != tx_key(#[trigger] s.update(i, r)[y]) by {
        assert(tx_key(s.update(i, r)[x]) == tx_key(s[x]));
        assert(tx_key(s.update(i, r)[y]) == tx_key(s[y]));
    }
}

proof fn lemma_tx_remove(s: Seq<TxRecord>, i: int)
    requires
        tx_keys_unique(s),
        0 <= i < s.len(),
    ensures
        tx_map_of(s.remove(i)) == tx_map_of(s).remove(tx_key(s[i])),
        tx_keys_unique(s.remove(i)),
    decreases s.len(),
{
    let dl = s.drop_last();
    s.remove_ensures(i);
    assert forall|x: int, y: int|
        0 <= x < s.remove(i).len() && 0 <= y < s.remove(i).len() && x != y implies tx_key(
        #[trigger] s.remove(i)[x]) != tx_key(#[trigger] s.remove(i)[y]) by {
        let x0 = if x < i { x } else { x + 1 };
        let y0 = if y < i { y } else { y + 1 };
        assert(tx_key(s.remove(i)[x]) == tx_key(s[x0]));
        assert(tx_key(s.remove(i)[y]) == tx_key(s[y0]));
    }
    if i == s.len() - 1 {
        assert(s.remove(i) =~= dl);
        lemma_tx_contains(dl, tx_key(s[i]));
        assert(!tx_map_of(dl).dom().contains(tx_key(s[i]))) by {
            if exists|j: int| 0 <= j < dl.len() && tx_key(#[trigger] dl[j]) == tx_key(s[i]) {
                let j = choose|j: int| 0 <= j < dl.len() && tx_key(#[trigger] dl[j]) == tx_key(
                    s[i],
                );
                assert(tx_key(s[j]) == tx_key(s[i]));
            }
        }
        assert(tx_map_of(s.remove(i)) =~= tx_map_of(s).remove(tx_key(s[i])));
    } else {
        assert(s.remove(i).drop_last() =~= dl.remove(i));
        assert(s.remove(i).last() == s.last());
        lemma_tx_remove(dl, i);
        assert(tx_key(s[i]) != tx_key(s[s.len() - 1]));
        assert(tx_map_of(dl).remove(tx_key(s[i])).insert(
            tx_key(s.last()),
            s.last().amount.0 as int,
        ) =~= tx_map_of(dl).insert(tx_key(s.last()), s.last().amount.0 as int).remove(
            tx_key(s[i]),
        ));
    }
}

proof fn lemma_acct_contains(s: Seq<(ClientId, Account)>, c: u16)
    ensures
        acct_map_of(s).dom().contains(c) <==> exists|i: int|
            0 <= i < s.len() && (#[trigger] s[i]).0.0 == c,
    decreases s.len(),
{
    if s.len() > 0 {
        let dl = s.drop_last();
        lemma_acct_contains(dl, c);
        if acct_map_of(s).dom().contains(c) {
            if c == s.last().0.0 {
                assert((s[s.len() - 1]).0.0 == c);
            } else {
                let i = choose|i: int| 0 <= i < dl.len() && (#[trigger] dl[i]).0.0 == c;
                assert((s[i]).0.0 == c);
            }
        }
        if exists|i: int| 0 <= i < s.len() && (#[trigger] s[i]).0.0 == c {
            let i = choose|i: int| 0 <= i < s.len() && (#[trigger] s[i]).0.0 == c;
            if i < s.len() - 1 {
                assert((dl[i]).0.0 == c);
            }
        }
    }
}

proof fn lemma_acct_index(s: Seq<(ClientId, Account)>, i: int)
    requires
        acct_keys_unique(s),
        0 <= i < s.len(),
    ensures
        acct_map_of(s).dom().contains(s[i].0.0),
        acct_map_of(s)[s[i].0.0] == s[i].1@,
    decreases s.len(),
{
    if i < s.len() - 1 {
        let dl = s.drop_last();
        assert(s[i].0.0 != s[s.len() - 1].0.0);
        lemma_acct_index(dl, i);
    }
}

proof fn lemma_acct_push(s: Seq<(ClientId, Account)>, e: (ClientId, Account))
    requires
        acct_keys_unique(s),
        !acct_map_of(s).dom().contains(e.0.0),
    ensures
        acct_map_of(s.push(e)) == acct_map_of(s).insert(e.0.0, e.1@),
        acct_order_of(s.push(e)) == acct_order_of(s).push(e.0.0),
        acct_keys_unique(s.push(e)),
{
    assert(s.push(e).drop_last() =~= s);
    lemma_acct_contains(s, e.0.0);
    assert(acct_order_of(s.push(e)) =~= acct_order_of(s).push(e.0.0));
    assert forall|i: int, j: int|
        0 <= i < s.push(e).len() && 0 <= j < s.push(e).len() && i != j implies (
    #[trigger] s.push(e)[i]).0.0 != (#[trigger] s.push(e)[j]).0.0 by {
        if i < s.len() && j < s.len() {
        } else if i < s.len() {
            assert(s[i].0.0 != e.0.0);
        } else {
            assert(s[j].0.0 != e.0.0);
        }
    }
}

proof fn lemma_acct_update(s: Seq<(ClientId, Account)>, i: int, e: (ClientId, Account))
    requires
        acct_keys_unique(s),
        0 <= i < s.len(),
        e.0.0 == s[i].0.0,
    ensures
        acct_map_of(s.update(i, e)) == acct_map_of(s).insert(e.0.0, e.1@),
        acct_order_of(s.update(i, e)) == acct_order_of(s),
        acct_keys_unique(s.update(i, e)),
    decreases s.len(),
{
    let dl = s.drop_last();
    if i == s.len() - 1 {
        assert(s.update(i, e).drop_last() =~= dl);
        assert(acct_map_of(dl).insert(e.0.0, e.1@) =~= acct_map_of(dl).insert(
            s.last().0.0,
            s.last().1@,
        ).insert(e.0.0, e.1@));
    } else {
        assert(s.update(i, e).drop_last() =~= dl.update(i, e));
        lemma_acct_update(dl, i, e);
        assert(s[i].0.0 != s[s.len() - 1].0.0);
        assert(acct_map_of(dl).insert(e.0.0, e.1@).insert(s.last().0.0, s.last().1@)
            =~= acct_map_of(dl).insert(s.last().0.0, s.last().1@).insert(e.0.0, e.1@));
        assert(s.update(i, e).last() == s.last());
    }
    assert(acct_order_of(s.update(i, e)) =~= acct_order_of(s));
    assert forall|x: int, y: int|
        0 <= x < s.update(i, e).len() && 0 <= y < s.update(i, e).len() && x != y implies (
    #[trigger] s.update(i, e)[x]).0.0 != (#[trigger] s.update(i, e)[y]).0.0 by {
        assert(s.update(i, e)[x].0.0 == s[x].0.0);
        assert(s.update(i, e)[y].0.0 == s[y].0.0);
    }
}

/// The index of the entry of `client_id` in the account table, if any.
fn find_account(accounts: &Vec<(ClientId, Account)>, client_id: ClientId) -> (r: Option<usize>)
    ensures
        match r {
            Some(i) => i < accounts@.len() && accounts@[i as int].0 == client_id,
            None => forall|i: int|
                0 <= i < accounts@.len() ==> (#[trigger] accounts@[i]).0.0 != client_id.0,
        },
{
    let mut i: usize = 0;
    while i < accounts.len()
        invariant
            i <= accounts@.len(),
            forall|j: int| 0 <= j < i ==> (#[trigger] accounts@[j]).0.0 != client_id.0,
        decreases accounts@.len() - i,
    {
        if accounts[i].0 == client_id {
            return Some(i);
        }
        i = i + 1;
    }
    None
}

/// The index of the entry with this (client, transaction) key in an index of
/// the dispute lifecycle, if any.
fn find_tx(records: &Vec<TxRecord>, client_id: ClientId, transaction_id: TransactionId) -> (r:
    Option<usize>)
    ensures
        match r {
            Some(i) => i < records@.len() && records@[i as int].client_id == client_id
                && records@[i as int].transaction_id == transaction_id,
            None => forall|i: int|
                0 <= i < records@.len() ==> tx_key(#[trigger] records@[i]) != (
                client_id.0,
                transaction_id.0,
                ),
        },
{
    let mut i: usize = 0;
    while i < records.len()
        invariant
            i <= records@.len(),
            forall|j: int|
                0 <= j < i ==> tx_key(#[trigger] records@[j]) != (client_id.0, transaction_id.0),
        decreases records@.len() - i,
    {
        if records[i].client_id == client_id && records[i].transaction_id == transaction_id {
            return Some(i);
        }
        i = i + 1;
    }
    None
}

/// Replays transactions one at a time and owns all account state: the
/// account table and the two indices of the dispute lifecycle.
pub struct TransactionProcessor {
    /// One entry per client, in order of first appearance; clients unique.
    accounts: Vec<(ClientId, Account)>,
    /// Deposits not currently disputed, so eligible for dispute; keys unique.
    deposit_transactions: Vec<TxRecord>,
    /// Deposits currently under dispute, awaiting resolve or chargeback;
    /// keys unique.
    dispute_transactions: Vec<TxRecord>,
}

impl View for TransactionProcessor {
    type V = ProcState;

    closed spec fn view(&self) -> ProcState {
        ProcState {
            accounts: acct_map_of(self.accounts@),
            order: acct_order_of(self.accounts@),
            pending: tx_map_of(self.deposit_transactions@),
            disputed: tx_map_of(self.dispute_transactions@),
        }
    }
}

impl TransactionProcessor {
    /// The representation holds each key at most once and its view is a
    /// well-formed processor state.
    pub closed spec fn inv(self) -> bool {
        &&& acct_keys_unique(self.accounts@)
        &&& tx_keys_unique(self.deposit_transactions@)
        &&& tx_keys_unique(self.dispute_transactions@)
        &&& self@.wf()
    }

    /// A processor that has seen no transactions.
    pub fn new() -> (r: Self)
        ensures
            r.inv(),
            r@ == ProcState::init(),
    {
        let r = TransactionProcessor {
            accounts: Vec::new(),
            deposit_transactions: Vec::new(),
            dispute_transactions: Vec::new(),
        };
        proof {
            assert(r@ =~= ProcState::init());
            assert(r@.order.to_set() =~= r@.accounts.dom());
        }
        r
    }

    /// Credits `amount` to the client's account, creating it if absent, and
    /// records the deposit as eligible for dispute. Fails only on a negative
    /// amount, and then changes nothing. A successful deposit raises the
    /// account's total by exactly the amount.
    pub fn deposit(
        &mut self,
        client_id: ClientId,
        transaction_id: TransactionId,
        amount: FractionalAmount,
    ) -> (r: Result<(), TransactionDepositError>)
        requires
            old(self).inv(),
            old(self)@.deposit_fits(client_id.0, amount.0 as int),
        ensures
            final(self).inv(),
            final(self)@.wf(),
            amount.0 < 0 ==> r == Err::<(), TransactionDepositError>(
                TransactionDepositError::NegativeAmount,
            ) && final(self)@ == old(self)@,
            amount.0 >= 0 ==> r == Ok::<(), TransactionDepositError>(()) && final(self)@ == old(
                self,
            )@.apply_deposit(client_id.0, transaction_id.0, amount.0 as int),
            amount.0 >= 0 ==> final(self)@.account_total(client_id.0) == old(
                self,
            )@.account_total(client_id.0) + amount.0,
    {
        let ghost s0 = self@;
        if amount.0 < 0 {
            return Err(TransactionDepositError::NegativeAmount);
        }
        proof {
            lemma_apply_deposit_wf(s0, client_id.0, transaction_id.0, amount.0 as int);
        }

        // Credit the available balance, creating the account on first use.
        match find_account(&self.accounts, client_id) {
            Some(i) => {
                proof {
                    lemma_acct_index(self.accounts@, i as int);
                }
                let cur: Account = self.accounts[i].1;
                let credited = Account {
                    available_amount: FractionalAmount(cur.available_amount.0 + amount.0),
                    ..cur
                };
                proof {
                    lemma_acct_update(self.accounts@, i as int, (client_id, credited));
                }
                self.accounts[i] = (client_id, credited);
            },
            None => {
                proof {
                    lemma_acct_contains(self.accounts@, client_id.0);
                    lemma_acct_push(
                        self.accounts@,
                        (
                            client_id,
                            Account {
                                available_amount: amount,
                                held_amount: FractionalAmount(0),
                                frozen: false,
                            },
                        ),
                    );
                }
                self.accounts.push(
                    (
                        client_id,
                        Account {
                            available_amount: amount,
                            held_amount: FractionalAmount(0),
                            frozen: false,
                        },
                    ),
                );
            },
        }

        // Record the deposit as eligible for dispute.
        let rec = TxRecord { client_id, transaction_id, amount };
        match find_tx(&self.deposit_transactions, client_id, transaction_id) {
            Some(i) => {
                proof {
                    lemma_tx_update(self.deposit_transactions@, i as int, rec);
                }
                self.deposit_transactions[i] = rec;
            },
            None => {
                proof {
                    lemma_tx_contains(self.deposit_transactions@, tx_key(rec));
                    lemma_tx_push(self.deposit_transactions@, rec);
                }
                self.deposit_transactions.push(rec);
            },
        }

        proof {
            assert(self@ =~= s0.apply_deposit(client_id.0, transaction_id.0, amount.0 as int));
        }
        Ok(())
    }

    /// Debits `amount` from the client's available balance. Fails on a
    /// negative amount, and on an available balance below the amount; the
    /// account is still created if absent, with empty balances, so a failed
    /// first withdrawal leaves an empty account behind. A successful
    /// withdrawal lowers the account's total by exactly the amount and is
    /// never recorded for dispute.
    pub fn withdraw(
        &mut self,
        client_id: ClientId,
        transaction_id: TransactionId,
        amount: FractionalAmount,
    ) -> (r: Result<(), TransactionWithdrawError>)
        requires
            old(self).inv(),
        ensures
            final(self).inv(),
            final(self)@.wf(),
            amount.0 < 0 ==> r == Err::<(), TransactionWithdrawError>(
                TransactionWithdrawError::NegativeAmount,
            ) && final(self)@ == old(self)@,
            amount.0 >= 0 && old(self)@.account_or_new(client_id.0).available < amount.0 ==> r
                == Err::<(), TransactionWithdrawError>(TransactionWithdrawError::InsufficientFunds)
                && final(self)@ == old(self)@.touch(client_id.0),
            amount.0 >= 0 && old(self)@.account_or_new(client_id.0).available >= amount.0 ==> r
                == Ok::<(), TransactionWithdrawError>(()) && final(self)@ == old(
                self,
            )@.apply_withdraw(client_id.0, amount.0 as int),
            amount.0 >= 0 && old(self)@.account_or_new(client_id.0).available >= amount.0 ==> final(self)@.account_total(client_id.0) == old(self)@.account_total(client_id.0) - amount.0,
    {
        let ghost s0 = self@;
        if amount.0 < 0 {
            return Err(TransactionWithdrawError::NegativeAmount);
        }

        // Lazily create the account, even when the withdrawal then fails.
        let ai: usize;
        match find_account(&self.accounts, client_id) {
            Some(i) => {
                ai = i;
                proof {
                    lemma_acct_index(self.accounts@, i as int);
                    assert(s0.accounts.insert(client_id.0, s0.account_or_new(client_id.0))
                        =~= s0.accounts);
                    assert(self@ =~= s0.touch(client_id.0));
                }
            },
            None => {
                ai = self.accounts.len();
                proof {
                    lemma_acct_contains(self.accounts@, client_id.0);
                    lemma_acct_push(
                        self.accounts@,
                        (
                            client_id,
                            Account {
                                available_amount: FractionalAmount(0),
                                held_amount: FractionalAmount(0),
                                frozen: false,
                            },
                        ),
                    );
                }
                self.accounts.push(
                    (
                        client_id,
                        Account {
                            available_amount: FractionalAmount(0),
                            held_amount: FractionalAmount(0),
                            frozen: false,
                        },
                    ),
                );
                proof {
                    assert(self@ =~= s0.touch(client_id.0));
                }
            },
        }
        proof {
            lemma_touch_wf(s0, client_id.0);
            lemma_acct_index(self.accounts@, ai as int);
        }

        let cur: Account = self.accounts[ai].1;
        if cur.available_amount.0 < amount.0 {
            return Err(TransactionWithdrawError::InsufficientFunds);
        }
        let debited = Account {
            available_amount: FractionalAmount(cur.available_amount.0 - amount.0),
            ..cur
        };
        proof {
            lemma_acct_update(self.accounts@, ai as int, (client_id, debited));
            lemma_apply_withdraw_wf(s0, client_id.0, amount.0 as int);
        }
        self.accounts[ai] = (client_id, debited);
        proof {
            assert(self@ =~= s0.apply_withdraw(client_id.0, amount.0 as int));
        }
        Ok(())
    }

    /// Claims that the referenced deposit was erroneous: moves its amount
    /// from available to held, conserving the account's total, and moves the
    /// deposit from the pending index to the disputed index. Fails, changing
    /// nothing, exactly when no undisputed deposit has this key.
    pub fn dispute(&mut self, client_id: ClientId, transaction_id: TransactionId) -> (r: Result<
        (),
        TransactionDisputeError,
    >)
        requires
            old(self).inv(),
            old(self)@.dispute_fits(client_id.0, transaction_id.0),
        ensures
            final(self).inv(),
            final(self)@.wf(),
            !old(self)@.pending.dom().contains((client_id.0, transaction_id.0)) ==> r == Err::<
                (),
                TransactionDisputeError,
            >(TransactionDisputeError::TransactionNotFound) && final(self)@ == old(self)@,
            old(self)@.pending.dom().contains((client_id.0, transaction_id.0)) ==> r == Ok::<
                (),
                TransactionDisputeError,
            >(()) && final(self)@ == old(self)@.apply_dispute(client_id.0, transaction_id.0),
            old(self)@.pending.dom().contains((client_id.0, transaction_id.0)) ==> final(self)@.account_total(client_id.0) == old(self)@.account_total(client_id.0),
    {
        let ghost s0 = self@;
        let ghost k = (client_id.0, transaction_id.0);

        let i: usize;
        match find_tx(&self.deposit_transactions, client_id, transaction_id) {
            Some(idx) => {
                i = idx;
            },
            None => {
                proof {
                    lemma_tx_contains(self.deposit_transactions@, k);
                }
                return Err(TransactionDisputeError::TransactionNotFound);
            },
        }
        proof {
            lemma_tx_index(self.deposit_transactions@, i as int);
            lemma_apply_dispute_wf(s0, client_id.0, transaction_id.0);
            lemma_tx_remove(self.deposit_transactions@, i as int);
        }
        let rec: TxRecord = self.deposit_transactions.remove(i);

        // The disputed deposit created this account, so it exists.
        let ai: usize;
        match find_account(&self.accounts, client_id) {
            Some(idx) => {
                ai = idx;
            },
            None => {
                proof {
                    lemma_acct_contains(self.accounts@, client_id.0);
                    assert(false);
                }
                return Err(TransactionDisputeError::TransactionNotFound);
            },
        }
        proof {
            lemma_acct_index(self.accounts@, ai as int);
        }
        let cur: Account = self.accounts[ai].1;
        let moved = Account {
            available_amount: FractionalAmount(cur.available_amount.0 - rec.amount.0),
            held_amount: FractionalAmount(cur.held_amount.0 + rec.amount.0),
            ..cur
        };
        proof {
            lemma_acct_update(self.accounts@, ai as int, (client_id, moved));
        }
        self.accounts[ai] = (client_id, moved);

        match find_tx(&self.dispute_transactions, client_id, transaction_id) {
            Some(j) => {
                proof {
                    lemma_tx_update(self.dispute_transactions@, j as int, rec);
                }
                self.dispute_transactions[j] = rec;
            },
            None => {
                proof {
                    lemma_tx_contains(self.dispute_transactions@, tx_key(rec));
                    lemma_tx_push(self.dispute_transactions@, rec);
                }
                self.dispute_transactions.push(rec);
            },
        }
        proof {
            assert(self@ =~= s0.apply_dispute(client_id.0, transaction_id.0));
        }
        Ok(())
    }

    /// Resolves an open dispute: moves its amount back from held to
    /// available, conserving the account's total, and returns the deposit to
    /// the pending index, eligible for a future dispute. Fails, changing
    /// nothing, exactly when no open dispute has this key.
    pub fn resolve(&mut self, client_id: ClientId, transaction_id: TransactionId) -> (r: Result<
        (),
        TransactionResolveError,
    >)
        requires
            old(self).inv(),
            old(self)@.resolve_fits(client_id.0, transaction_id.0),
        ensures
            final(self).inv(),
            final(self)@.wf(),
            !old(self)@.disputed.dom().contains((client_id.0, transaction_id.0)) ==> r == Err::<
                (),
                TransactionResolveError,
            >(TransactionResolveError::DisputeNotFound) && final(self)@ == old(self)@,
            old(self)@.disputed.dom().contains((client_id.0, transaction_id.0)) ==> r == Ok::<
                (),
                TransactionResolveError,
            >(()) && final(self)@ == old(self)@.apply_resolve(client_id.0, transaction_id.0),
            old(self)@.disputed.dom().contains((client_id.0, transaction_id.0)) ==> final(self)@.account_total(client_id.0) == old(self)@.account_total(client_id.0),
    {
        let ghost s0 = self@;
        let ghost k = (client_id.0, transaction_id.0);

        let i: usize;
        match find_tx(&self.dispute_transactions, client_id, transaction_id) {
            Some(idx) => {
                i = idx;
            },
            None => {
                proof {
                    lemma_tx_contains(self.dispute_transactions@, k);
                }
                return Err(TransactionResolveError::DisputeNotFound);
            },
        }
        proof {
            lemma_tx_index(self.dispute_transactions@, i as int);
            lemma_apply_resolve_wf(s0, client_id.0, transaction_id.0);
            lemma_tx_remove(self.dispute_transactions@, i as int);
        }
        let rec: TxRecord = self.dispute_transactions.remove(i);

        // The disputed deposit created this account, so it exists.
        let ai: usize;
        match find_account(&self.accounts, client_id) {
            Some(idx) => {
                ai = idx;
            },
            None => {
                proof {
                    lemma_acct_contains(self.accounts@, client_id.0);
                    assert(false);
                }
                return Err(TransactionResolveError::DisputeNotFound);
            },
        }
        proof {
            lemma_acct_index(self.accounts@, ai as int);
        }
        let cur: Account = self.accounts[ai].1;
        let moved = Account {
            available_amount: FractionalAmount(cur.available_amount.0 + rec.amount.0),
            held_amount: FractionalAmount(cur.held_amount.0 - rec.amount.0),
            ..cur
        };
        proof {
            lemma_acct_update(self.accounts@, ai as int, (client_id, moved));
        }
        self.accounts[ai] = (client_id, moved);

        match find_tx(&self.deposit_transactions, client_id, transaction_id) {
            Some(j) => {
                proof {
                    lemma_tx_update(self.deposit_transactions@, j as int, rec);
                }
                self.deposit_transactions[j] = rec;
            },
            None => {
                proof {
                    lemma_tx_contains(self.deposit_transactions@, tx_key(rec));
                    lemma_tx_push(self.deposit_transactions@, rec);
                }
                self.deposit_transactions.push(rec);
            },
        }
        proof {
            assert(self@ =~= s0.apply_resolve(client_id.0, transaction_id.0));
        }
        Ok(())
    }

    /// Closes an open dispute against the client: the held amount leaves the
    /// account for good, lowering its total by that amount, the account is
    /// frozen, and the deposit leaves both indices permanently. Fails,
    /// changing nothing, exactly when no open dispute has this key.
    pub fn chargeback(&mut self, client_id: ClientId, transaction_id: TransactionId) -> (r: Result<
        (),
        TransactionChargebackError,
    >)
        requires
            old(self).inv(),
            old(self)@.chargeback_fits(client_id.0, transaction_id.0),
        ensures
            final(self).inv(),
            final(self)@.wf(),
            !old(self)@.disputed.dom().contains((client_id.0, transaction_id.0)) ==> r == Err::<
                (),
                TransactionChargebackError,
            >(TransactionChargebackError::DisputeNotFound) && final(self)@ == old(self)@,
            old(self)@.disputed.dom().contains((client_id.0, transaction_id.0)) ==> r == Ok::<
                (),
                TransactionChargebackError,
            >(()) && final(self)@ == old(self)@.apply_chargeback(client_id.0, transaction_id.0),
            old(self)@.disputed.dom().contains((client_id.0, transaction_id.0)) ==> final(self)@.account_total(client_id.0) == old(self)@.account_total(client_id.0) - old(
                self,
            )@.disputed[(client_id.0, transaction_id.0)],
    {
        let ghost s0 = self@;
        let ghost k = (client_id.0, transaction_id.0);

        let i: usize;
        match find_tx(&self.dispute_transactions, client_id, transaction_id) {
            Some(idx) => {
                i = idx;
            },
            None => {
                proof {
                    lemma_tx_contains(self.dispute_transactions@, k);
                }
                return Err(TransactionChargebackError::DisputeNotFound);
            },
        }
        proof {
            lemma_tx_index(self.dispute_transactions@, i as int);
            lemma_apply_chargeback_wf(s0, client_id.0, transaction_id.0);
            lemma_tx_remove(self.dispute_transactions@, i as int);
        }
        let rec: TxRecord = self.dispute_transactions.remove(i);

        // The disputed deposit created this account, so it exists.
        let ai: usize;
        match find_account(&self.accounts, client_id) {
            Some(idx) => {
                ai = idx;
            },
            None => {
                proof {
                    lemma_acct_contains(self.accounts@, client_id.0);
                    assert(false);
                }
                return Err(TransactionChargebackError::DisputeNotFound);
            },
        }
        proof {
            lemma_acct_index(self.accounts@, ai as int);
        }
        let cur: Account = self.accounts[ai].1;
        let charged = Account {
            held_amount: FractionalAmount(cur.held_amount.0 - rec.amount.0),
            frozen: true,
            ..cur
        };
        proof {
            lemma_acct_update(self.accounts@, ai as int, (client_id, charged));
        }
        self.accounts[ai] = (client_id, charged);
        proof {
            assert(self@ =~= s0.apply_chargeback(client_id.0, transaction_id.0));
        }
        Ok(())
    }

    /// Consumes the processor and hands out the final account table, one
    /// entry per client, in order of first appearance.
    pub fn into_accounts(self) -> (r: Accounts)
        requires
            self.inv(),
        ensures
            r@.len() == self@.order.len(),
            forall|i: int|
                0 <= i < r@.len() ==> (#[trigger] r@[i]).0.0 == self@.order[i] && r@[i].1@
                    == self@.accounts[self@.order[i]],
    {
        proof {
            assert forall|i: int| 0 <= i < self.accounts@.len() implies (
            #[trigger] self.accounts@[i]).1@ == self@.accounts[self@.order[i]] by {
                lemma_acct_index(self.accounts@, i);
            }
        }
        self.accounts
    }

    /// Whether a deposit of `amount` for this client stays within the
    /// representation: the one precondition of `deposit` beyond the
    /// invariant, checkable before the call.
    pub fn can_deposit(&self, client_id: ClientId, amount: FractionalAmount) -> (r: bool)
        requires
            self.inv(),
        ensures
            r == self@.deposit_fits(client_id.0, amount.0 as int),
    {
        if amount.0 < 0 {
            return true;
        }
        match find_account(&self.accounts, client_id) {
            Some(i) => {
                proof {
                    lemma_acct_index(self.accounts@, i as int);
                }
                self.accounts[i].1.available_amount.0 <= i64::MAX - amount.0
            },
            None => {
                proof {
                    lemma_acct_contains(self.accounts@, client_id.0);
                }
                true
            },
        }
    }

    /// Whether moving the referenced pending amount between this client's
    /// balances stays within the representation: the one precondition of
    /// `dispute` beyond the invariant, checkable before the call.
    pub fn can_dispute(&self, client_id: ClientId, transaction_id: TransactionId) -> (r: bool)
        requires
            self.inv(),
        ensures
            r == self@.dispute_fits(client_id.0, transaction_id.0),
    {
        match find_tx(&self.deposit_transactions, client_id, transaction_id) {
            None => {
                proof {
                    lemma_tx_contains(
                        self.deposit_transactions@,
                        (client_id.0, transaction_id.0),
                    );
                }
                true
            },
            Some(i) => {
                proof {
                    lemma_tx_index(self.deposit_transactions@, i as int);
                    assert(self@.pending.dom().contains((client_id.0, transaction_id.0)));
                }
                let a: i64 = self.deposit_transactions[i].amount.0;
                match find_account(&self.accounts, client_id) {
                    Some(ai) => {
                        proof {
                            lemma_acct_index(self.accounts@, ai as int);
                        }
                        let avail: i64 = self.accounts[ai].1.available_amount.0;
                        let held: i64 = self.accounts[ai].1.held_amount.0;
                        (avail as i128) - (a as i128) >= i64::MIN as i128 && (held as i128) + (
                        a as i128) <= i64::MAX as i128
                    },
                    None => {
                        proof {
                            lemma_acct_contains(self.accounts@, client_id.0);
                            assert(self@.accounts.dom().contains(client_id.0));
                            assert(false);
                        }
                        true
                    },
                }
            },
        }
    }

    /// Whether moving the referenced disputed amount back between this
    /// client's balances stays within the representation: the one
    /// precondition of `resolve` beyond the invariant, checkable before the
    /// call.
    pub fn can_resolve(&self, client_id: ClientId, transaction_id: TransactionId) -> (r: bool)
        requires
            self.inv(),
        ensures
            r == self@.resolve_fits(client_id.0, transaction_id.0),
    {
        match find_tx(&self.dispute_transactions, client_id, transaction_id) {
            None => {
                proof {
                    lemma_tx_contains(
                        self.dispute_transactions@,
                        (client_id.0, transaction_id.0),
                    );
                }
                true
            },
            Some(i) => {
                proof {
                    lemma_tx_index(self.dispute_transactions@, i as int);
                    assert(self@.disputed.dom().contains((client_id.0, transaction_id.0)));
                }
                let a: i64 = self.dispute_transactions[i].amount.0;
                match find_account(&self.accounts, client_id) {
                    Some(ai) => {
                        proof {
                            lemma_acct_index(self.accounts@, ai as int);
                        }
                        let avail: i64 = self.accounts[ai].1.available_amount.0;
                        let held: i64 = self.accounts[ai].1.held_amount.0;
                        (held as i128) - (a as i128) >= i64::MIN as i128 && (avail as i128) + (
                        a as i128) <= i64::MAX as i128
                    },
                    None => {
                        proof {
                            lemma_acct_contains(self.accounts@, client_id.0);
                            assert(self@.accounts.dom().contains(client_id.0));
                            assert(false);
                        }
                        true
                    },
                }
            },
        }
    }

    /// Whether debiting the referenced disputed amount from this client's
    /// held balance stays within the representation: the one precondition of
    /// `chargeback` beyond the invariant, checkable before the call.
    pub fn can_chargeback(&self, client_id: ClientId, transaction_id: TransactionId) -> (r: bool)
        requires
            self.inv(),
        ensures
            r == self@.chargeback_fits(client_id.0, transaction_id.0),
    {
        match find_tx(&self.dispute_transactions, client_id, transaction_id) {
            None => {
                proof {
                    lemma_tx_contains(
                        self.dispute_transactions@,
                        (client_id.0, transaction_id.0),
                    );
                }
                true
            },
            Some(i) => {
                proof {
                    lemma_tx_index(self.dispute_transactions@, i as int);
                    assert(self@.disputed.dom().contains((client_id.0, transaction_id.0)));
                }
                let a: i64 = self.dispute_transactions[i].amount.0;
                match find_account(&self.accounts, client_id) {
                    Some(ai) => {
                        proof {
                            lemma_acct_index(self.accounts@, ai as int);
                        }
                        let held: i64 = self.accounts[ai].1.held_amount.0;
                        (held as i128) - (a as i128) >= i64::MIN as i128
                    },
                    None => {
                        proof {
                            lemma_acct_contains(self.accounts@, client_id.0);
                            assert(self@.accounts.dom().contains(client_id.0));
                            assert(false);
                        }
                        true
                    },
                }
            },
        }
    }
}

} // verus!
