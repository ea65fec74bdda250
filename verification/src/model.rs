//! The mathematical model of the transaction processor.
//!
//! The processor's view is a [`ProcState`]: the account table as a map from
//! client to balances, the order in which accounts were first created, and
//! the two dispute-lifecycle indices. Each transaction kind is a pure
//! transition on this state; the executable processor ensures that every
//! call takes its view along the matching transition.

use vstd::prelude::*;

verus! {

/// The balances of one account as unbounded scaled integers, plus its
/// frozen flag. The total of an account is not stored: it is always
/// `available + held`.
#[verifier::ext_equal]
pub struct AccountState {
    pub available: int,
    pub held: int,
    pub frozen: bool,
}

impl AccountState {
    /// A freshly created account: empty and not frozen.
    pub open spec fn new() -> AccountState {
        AccountState { available: 0, held: 0, frozen: false }
    }
}

/// The abstract state of a transaction processor.
#[verifier::ext_equal]
pub struct ProcState {
    /// Balances of every account created so far, by client.
    pub accounts: Map<u16, AccountState>,
    /// The clients with accounts, in order of first appearance. The final
    /// account table is handed out in this order.
    pub order: Seq<u16>,
    /// Deposits eligible for dispute: scaled amount by (client, transaction).
    pub pending: Map<(u16, u32), int>,
    /// Deposits currently under dispute: scaled amount by (client, transaction).
    pub disputed: Map<(u16, u32), int>,
}

impl ProcState {
    /// The state of a processor that has seen no transactions.
    pub open spec fn init() -> ProcState {
        ProcState {
            accounts: Map::empty(),
            order: Seq::empty(),
            pending: Map::empty(),
            disputed: Map::empty(),
        }
    }

    /// Every amount in the indices is a representable non-negative value and
    /// belongs to a client with an account, balances are representable, and
    /// the creation order lists exactly the accounts, each once.
    pub open spec fn wf(self) -> bool {
        &&& forall|k: (u16, u32)| #[trigger]
            self.pending.dom().contains(k) ==> 0 <= self.pending[k] <= i64::MAX
                && self.accounts.dom().contains(k.0)
        &&& forall|k: (u16, u32)| #[trigger]
            self.disputed.dom().contains(k) ==> 0 <= self.disputed[k] <= i64::MAX
                && self.accounts.dom().contains(k.0)
        &&& forall|c: u16| #[trigger]
            self.accounts.dom().contains(c) ==> i64::MIN <= self.accounts[c].available <= i64::MAX
                && i64::MIN <= self.accounts[c].held <= i64::MAX
        &&& self.order.no_duplicates()
        &&& self.order.to_set() == self.accounts.dom()
    }

    /// The account of `c`, or a fresh one if `c` has none yet.
    pub open spec fn account_or_new(self, c: u16) -> AccountState {
        if self.accounts.dom().contains(c) {
            self.accounts[c]
        } else {
            AccountState::new()
        }
    }

    /// The derived total of the account of `c`.
    pub open spec fn account_total(self, c: u16) -> int {
        self.account_or_new(c).available + self.account_or_new(c).held
    }

    /// The creation order after an operation that touches `c`'s account.
    pub open spec fn order_after_touch(self, c: u16) -> Seq<u16> {
        if self.accounts.dom().contains(c) {
            self.order
        } else {
            self.order.push(c)
        }
    }

    /// The state after lazily creating an account for `c`, with no balance
    /// change. A failed withdrawal still leaves this creation behind.
    pub open spec fn touch(self, c: u16) -> ProcState {
        ProcState {
            accounts: self.accounts.insert(c, self.account_or_new(c)),
            order: self.order_after_touch(c),
            ..self
        }
    }

    /// Crediting `amount` to `c`'s account never exceeds the representation.
    pub open spec fn deposit_fits(self, c: u16, amount: int) -> bool {
        amount < 0 || self.account_or_new(c).available + amount <= i64::MAX
    }

    /// The state after a successful deposit: the amount is added to the
    /// available balance and the deposit becomes eligible for dispute.
    pub open spec fn apply_deposit(self, c: u16, tx: u32, amount: int) -> ProcState {
        let acct = self.account_or_new(c);
        ProcState {
            accounts: self.accounts.insert(
                c,
                AccountState { available: acct.available + amount, ..acct },
            ),
            order: self.order_after_touch(c),
            pending: self.pending.insert((c, tx), amount),
            disputed: self.disputed,
        }
    }

    /// The state after a successful withdrawal: the amount leaves the
    /// available balance. Withdrawals are never recorded for dispute.
    pub open spec fn apply_withdraw(self, c: u16, amount: int) -> ProcState {
        let acct = self.account_or_new(c);
        ProcState {
            accounts: self.accounts.insert(
                c,
                AccountState { available: acct.available - amount, ..acct },
            ),
            order: self.order_after_touch(c),
            ..self
        }
    }

    /// Moving the disputed amount between the balances of `c` stays within
    /// the representation.
    pub open spec fn dispute_fits(self, c: u16, tx: u32) -> bool {
        !self.pending.dom().contains((c, tx)) || {
            let a = self.pending[(c, tx)];
            let acct = self.account_or_new(c);
            acct.available - a >= i64::MIN && acct.held + a <= i64::MAX
        }
    }

    /// The state after a successful dispute: the deposited amount moves from
    /// available to held, conserving the total, and the deposit moves from
    /// the pending index to the disputed index.
    pub open spec fn apply_dispute(self, c: u16, tx: u32) -> ProcState {
        let a = self.pending[(c, tx)];
        let acct = self.accounts[c];
        ProcState {
            accounts: self.accounts.insert(
                c,
                AccountState { available: acct.available - a, held: acct.held + a, ..acct },
            ),
            order: self.order,
            pending: self.pending.remove((c, tx)),
            disputed: self.disputed.insert((c, tx), a),
        }
    }

    /// Moving the disputed amount back between the balances of `c` stays
    /// within the representation.
    pub open spec fn resolve_fits(self, c: u16, tx: u32) -> bool {
        !self.disputed.dom().contains((c, tx)) || {
            let a = self.disputed[(c, tx)];
            let acct = self.account_or_new(c);
            acct.held - a >= i64::MIN && acct.available + a <= i64::MAX
        }
    }

    /// The state after a successful resolve: the disputed amount moves back
    /// from held to available, conserving the total, and the deposit returns
    /// to the pending index, eligible for a future dispute.
    pub open spec fn apply_resolve(self, c: u16, tx: u32) -> ProcState {
        let a = self.disputed[(c, tx)];
        let acct = self.accounts[c];
        ProcState {
            accounts: self.accounts.insert(
                c,
                AccountState { available: acct.available + a, held: acct.held - a, ..acct },
            ),
            order: self.order,
            pending: self.pending.insert((c, tx), a),
            disputed: self.disputed.remove((c, tx)),
        }
    }

    /// Debiting the charged-back amount from held stays within the
    /// representation.
    pub open spec fn chargeback_fits(self, c: u16, tx: u32) -> bool {
        !self.disputed.dom().contains((c, tx)) || self.account_or_new(c).held - self.disputed[(
            c,
            tx,
        )] >= i64::MIN
    }

    /// The state after a successful chargeback: the held amount leaves the
    /// account for good, the account is frozen, and the deposit leaves both
    /// indices permanently.
    pub open spec fn apply_chargeback(self, c: u16, tx: u32) -> ProcState {
        let a = self.disputed[(c, tx)];
        let acct = self.accounts[c];
        ProcState {
            accounts: self.accounts.insert(
                c,
                AccountState { held: acct.held - a, frozen: true, ..acct },
            ),
            order: self.order,
            pending: self.pending,
            disputed: self.disputed.remove((c, tx)),
        }
    }
}

/// Pushing onto a sequence adds exactly one element to the set of its
/// elements.
proof fn lemma_push_to_set<A>(s: Seq<A>, a: A)
    ensures
        s.push(a).to_set() == s.to_set().insert(a),
{
    assert forall|x: A| s.push(a).to_set().contains(x) implies s.to_set().insert(a).contains(
        x,
    ) by {
        let i = choose|i: int| 0 <= i < s.push(a).len() && s.push(a)[i] == x;
        if i < s.len() {
            assert(s[i] == x);
        }
    }
    assert forall|x: A| s.to_set().insert(a).contains(x) implies s.push(a).to_set().contains(
        x,
    ) by {
        if s.to_set().contains(x) {
            let i = choose|i: int| 0 <= i < s.len() && s[i] == x;
            assert(s.push(a)[i] == x);
        } else {
            assert(s.push(a)[s.len() as int] == x);
        }
    }
    assert(s.push(a).to_set() =~= s.to_set().insert(a));
}

/// Lazily creating an account preserves well-formedness.
pub proof fn lemma_touch_wf(s: ProcState, c: u16)
    requires
        s.wf(),
    ensures
        s.touch(c).wf(),
{
    if !s.accounts.dom().contains(c) {
        assert(!s.order.to_set().contains(c));
        lemma_push_to_set(s.order, c);
        assert forall|i: int, j: int|
            0 <= i < s.order.push(c).len() && 0 <= j < s.order.push(c).len() && i
                != j implies s.order.push(c)[i] != s.order.push(c)[j] by {
            if i < s.order.len() && j < s.order.len() {
            } else if i < s.order.len() {
                assert(s.order.to_set().contains(s.order[i]));
            } else {
                assert(s.order.to_set().contains(s.order[j]));
            }
        }
    }
    assert(s.touch(c).order.to_set() =~= s.touch(c).accounts.dom());
}

/// A successful deposit preserves well-formedness.
pub proof fn lemma_apply_deposit_wf(s: ProcState, c: u16, tx: u32, amount: int)
    requires
        s.wf(),
        0 <= amount <= i64::MAX,
        s.deposit_fits(c, amount),
    ensures
        s.apply_deposit(c, tx, amount).wf(),
{
    lemma_touch_wf(s, c);
    assert(s.apply_deposit(c, tx, amount).order.to_set() =~= s.apply_deposit(
        c,
        tx,
        amount,
    ).accounts.dom());
}

/// A successful withdrawal preserves well-formedness.
pub proof fn lemma_apply_withdraw_wf(s: ProcState, c: u16, amount: int)
    requires
        s.wf(),
        0 <= amount <= s.account_or_new(c).available,
    ensures
        s.apply_withdraw(c, amount).wf(),
{
    lemma_touch_wf(s, c);
    assert(s.apply_withdraw(c, amount).order.to_set() =~= s.apply_withdraw(c, amount).accounts.dom());
}

/// A successful dispute preserves well-formedness.
pub proof fn lemma_apply_dispute_wf(s: ProcState, c: u16, tx: u32)
    requires
        s.wf(),
        s.pending.dom().contains((c, tx)),
        s.dispute_fits(c, tx),
    ensures
        s.apply_dispute(c, tx).wf(),
{
    assert(s.apply_dispute(c, tx).order.to_set() =~= s.apply_dispute(c, tx).accounts.dom());
}

/// A successful resolve preserves well-formedness.
pub proof fn lemma_apply_resolve_wf(s: ProcState, c: u16, tx: u32)
    requires
        s.wf(),
        s.disputed.dom().contains((c, tx)),
        s.resolve_fits(c, tx),
    ensures
        s.apply_resolve(c, tx).wf(),
{
    assert(s.apply_resolve(c, tx).order.to_set() =~= s.apply_resolve(c, tx).accounts.dom());
}

/// A successful chargeback preserves well-formedness.
pub proof fn lemma_apply_chargeback_wf(s: ProcState, c: u16, tx: u32)
    requires
        s.wf(),
        s.disputed.dom().contains((c, tx)),
        s.chargeback_fits(c, tx),
    ensures
        s.apply_chargeback(c, tx).wf(),
{
    assert(s.apply_chargeback(c, tx).order.to_set() =~= s.apply_chargeback(c, tx).accounts.dom());
}

/// One deposit request: who, which transaction, how much (scaled).
pub struct DepositReq {
    pub client: u16,
    pub tx: u32,
    pub amount: int,
}

/// The state after applying a whole sequence of deposits, in order.
pub open spec fn replay_deposits(s: ProcState, ds: Seq<DepositReq>) -> ProcState
    decreases ds.len(),
{
    if ds.len() == 0 {
        s
    } else {
        replay_deposits(s, ds.drop_last()).apply_deposit(
            ds.last().client,
            ds.last().tx,
            ds.last().amount,
        )
    }
}

/// The sum of the amounts deposited for client `c`.
pub open spec fn sum_deposited(ds: Seq<DepositReq>, c: u16) -> int
    decreases ds.len(),
{
    if ds.len() == 0 {
        0
    } else {
        sum_deposited(ds.drop_last(), c) + if ds.last().client == c {
            ds.last().amount
        } else {
            0
        }
    }
}

/// The (client, transaction) keys of a sequence of deposits.
pub open spec fn deposit_keys(ds: Seq<DepositReq>) -> Set<(u16, u32)> {
    Set::new(
        |k: (u16, u32)|
            exists|i: int| 0 <= i < ds.len() && (#[trigger] ds[i]).client == k.0 && ds[i].tx
                == k.1,
    )
}

/// After a run of nothing but valid deposits, each available balance is
/// exactly the sum of the amounts deposited for that client — the arithmetic
/// is over unbounded integers, so nothing drifts — no balance is held, and
/// the pending index holds exactly the deposited (client, transaction) keys,
/// all of them undisputed.
pub proof fn lemma_deposits_accumulate(ds: Seq<DepositReq>, c: u16)
    requires
        forall|i: int| 0 <= i < ds.len() ==> (#[trigger] ds[i]).amount >= 0,
    ensures
        ({
            let s = replay_deposits(ProcState::init(), ds);
            &&& s.account_or_new(c).available == sum_deposited(ds, c)
            &&& s.account_or_new(c).held == 0
            &&& s.account_or_new(c).frozen == false
            &&& s.pending.dom() == deposit_keys(ds)
            &&& s.disputed == Map::<(u16, u32), int>::empty()
        }),
    decreases ds.len(),
{
    let s = replay_deposits(ProcState::init(), ds);
    if ds.len() == 0 {
        assert(s.pending.dom() =~= deposit_keys(ds));
    } else {
        let dl = ds.drop_last();
        let last = ds.last();
        assert(forall|i: int| 0 <= i < dl.len() ==> (#[trigger] dl[i]).amount >= 0);
        lemma_deposits_accumulate(dl, c);
        lemma_deposits_accumulate(dl, last.client);
        let s1 = replay_deposits(ProcState::init(), dl);
        assert(s == s1.apply_deposit(last.client, last.tx, last.amount));
        assert forall|k: (u16, u32)| deposit_keys(ds).contains(k) implies s.pending.dom().contains(
            k,
        ) by {
            let i = choose|i: int|
                0 <= i < ds.len() && (#[trigger] ds[i]).client == k.0 && ds[i].tx == k.1;
            if i < ds.len() - 1 {
                assert(dl[i] == ds[i]);
                assert(deposit_keys(dl).contains(k));
            }
        }
        assert forall|k: (u16, u32)| s.pending.dom().contains(k) implies deposit_keys(ds).contains(
            k,
        ) by {
            if k == (last.client, last.tx) {
                assert(ds[ds.len() - 1].client == k.0 && ds[ds.len() - 1].tx == k.1);
            } else {
                assert(s1.pending.dom().contains(k));
                let i = choose|i: int|
                    0 <= i < dl.len() && (#[trigger] dl[i]).client == k.0 && dl[i].tx == k.1;
                assert(ds[i] == dl[i]);
            }
        }
        assert(s.pending.dom() =~= deposit_keys(ds));
    }
}

/// Disputing a deposit and then resolving the dispute is balance-neutral:
/// every account, and in particular the disputed client's available and held
/// balances, returns exactly to its pre-dispute value, and the deposit is
/// again in the pending index, eligible for a future dispute.
pub proof fn lemma_dispute_resolve_round_trip(s: ProcState, c: u16, tx: u32)
    requires
        s.wf(),
        s.pending.dom().contains((c, tx)),
    ensures
        ({
            let s2 = s.apply_dispute(c, tx).apply_resolve(c, tx);
            &&& s2.accounts == s.accounts
            &&& s2.order == s.order
            &&& s2.pending == s.pending
            &&& (!s.disputed.dom().contains((c, tx)) ==> s2.disputed == s.disputed)
        }),
{
    let s1 = s.apply_dispute(c, tx);
    let s2 = s1.apply_resolve(c, tx);
    assert(s2.accounts =~= s.accounts);
    assert(s2.pending =~= s.pending);
    if !s.disputed.dom().contains((c, tx)) {
        assert(s2.disputed =~= s.disputed);
    }
}

/// Disputing a deposit and then charging it back freezes the account,
/// removes the transaction from both indices for good — by the resolve and
/// chargeback contracts, any later resolve or chargeback of this key is
/// refused — debits the disputed amount, and leaves the held balance where
/// it started.
pub proof fn lemma_dispute_chargeback_freezes(s: ProcState, c: u16, tx: u32)
    requires
        s.wf(),
        s.pending.dom().contains((c, tx)),
    ensures
        ({
            let s2 = s.apply_dispute(c, tx).apply_chargeback(c, tx);
            &&& s2.accounts.dom().contains(c)
            &&& s2.accounts[c].frozen
            &&& !s2.pending.dom().contains((c, tx))
            &&& !s2.disputed.dom().contains((c, tx))
            &&& s2.accounts[c].available == s.accounts[c].available - s.pending[(c, tx)]
            &&& s2.accounts[c].held == s.accounts[c].held
        }),
{
}

} // verus!
