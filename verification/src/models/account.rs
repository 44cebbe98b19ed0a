//! Per-client account state and the state machine that applies one
//! transaction to one account.
//!
//! The machine enforces the monetary and dispute invariants: the balance
//! equation (available funds are exactly deposits minus withdrawals minus
//! held funds minus any charged-back funds), that held funds are the sum of
//! the amounts currently under dispute, that disputes reference recorded
//! monetary transactions, and that a charged-back (locked) account never
//! changes again.

use vstd::prelude::*;

use crate::models::transaction::{Amount, Transaction, TransactionId, TransactionType};

verus! {

/// Identifier of an account owner: an unsigned 16-bit client id.
#[derive(Clone, Copy, Debug, PartialEq, Eq, Structural, Hash)]
pub struct AccountId(pub u16);

impl From<u16> for AccountId {
    fn from(v: u16) -> (r: Self)
        ensures
            r == AccountId(v),
    {
        AccountId(v)
    }
}

impl vstd::std_specs::convert::FromSpecImpl<u16> for AccountId {
    open spec fn obeys_from_spec() -> bool {
        true
    }

    open spec fn from_spec(v: u16) -> Self {
        AccountId(v)
    }
}

impl From<AccountId> for u16 {
    fn from(v: AccountId) -> (r: u16)
        ensures
            r == v.0,
    {
        v.0
    }
}

impl vstd::std_specs::convert::FromSpecImpl<AccountId> for u16 {
    open spec fn obeys_from_spec() -> bool {
        true
    }

    open spec fn from_spec(v: AccountId) -> u16 {
        v.0
    }
}

/// Why a transaction was rejected. Every rejection leaves the account
/// unchanged; callers log and discard these.
#[derive(Clone, Copy, Debug, PartialEq, Eq, Structural)]
pub enum TransactionError {
    AccountLocked { id: AccountId },
    InsufficientFunds { id: AccountId, available: i128, needed: Amount },
    TransactionAlreadyInDispute { id: AccountId, txn_id: TransactionId },
    TransactionAlreadyProcessed { id: AccountId, txn_id: TransactionId },
    TransactionNotFound { id: AccountId, txn_id: TransactionId },
    TransactionNotInDispute { id: AccountId, txn_id: TransactionId },
    WrongAccount { id: AccountId, intended_account: AccountId, txn_id: TransactionId },
}

/// The kind of a recorded monetary transaction.
#[derive(Clone, Copy, Debug, PartialEq, Eq, Structural)]
pub enum MonetaryKind {
    Deposit,
    Withdrawal,
}

/// A successfully applied deposit or withdrawal, kept for future disputes.
#[derive(Clone, Copy, Debug, PartialEq, Eq, Structural)]
pub struct HistoryEntry {
    pub txn_id: TransactionId,
    pub kind: MonetaryKind,
    pub amount: Amount,
}

/// A transaction currently under dispute, with the snapshot of the
/// disputed amount.
#[derive(Clone, Copy, Debug, PartialEq, Eq, Structural)]
pub struct DisputeEntry {
    pub txn_id: TransactionId,
    pub amount: Amount,
}

/// The mathematical value of a history entry.
pub ghost struct HistoryRecord {
    pub kind: MonetaryKind,
    pub amount: int,
}

/// The mathematical model of an account: balances as unbounded integers,
/// the history and the open disputes as maps keyed by transaction id, and
/// the total amount removed by chargebacks.
#[verifier::ext_equal]
pub ghost struct AccountView {
    pub id: AccountId,
    pub available: int,
    pub held: int,
    pub locked: bool,
    pub txn_history: Map<TransactionId, HistoryRecord>,
    pub disputed: Map<TransactionId, int>,
    pub charged_back: int,
}

impl AccountView {
    /// Total funds: available plus held.
    pub open spec fn total(self) -> int {
        self.available + self.held
    }
}

/// The history map described by a sequence of history entries; later
/// entries win, though well-formed accounts never repeat an id.
pub open spec fn history_map(s: Seq<HistoryEntry>) -> Map<TransactionId, HistoryRecord>
    decreases s.len(),
{
    if s.len() == 0 {
        Map::empty()
    } else {
        history_map(s.drop_last()).insert(
            s.last().txn_id,
            HistoryRecord { kind: s.last().kind, amount: s.last().amount as int },
        )
    }
}

/// The dispute map described by a sequence of dispute entries.
pub open spec fn dispute_map(s: Seq<DisputeEntry>) -> Map<TransactionId, int>
    decreases s.len(),
{
    if s.len() == 0 {
        Map::empty()
    } else {
        dispute_map(s.drop_last()).insert(s.last().txn_id, s.last().amount as int)
    }
}

/// Sum of the amounts currently under dispute.
pub open spec fn dispute_total(s: Seq<DisputeEntry>) -> int
    decreases s.len(),
{
    if s.len() == 0 {
        0
    } else {
        dispute_total(s.drop_last()) + s.last().amount
    }
}

/// Sum of the recorded deposit amounts.
pub open spec fn deposit_total(s: Seq<HistoryEntry>) -> int
    decreases s.len(),
{
    if s.len() == 0 {
        0
    } else {
        deposit_total(s.drop_last()) + if s.last().kind is Deposit {
            s.last().amount as int
        } else {
            0
        }
    }
}

/// Sum of the recorded withdrawal amounts.
pub open spec fn withdrawal_total(s: Seq<HistoryEntry>) -> int
    decreases s.len(),
{
    if s.len() == 0 {
        0
    } else {
        withdrawal_total(s.drop_last()) + if s.last().kind is Withdrawal {
            s.last().amount as int
        } else {
            0
        }
    }
}

/// The ids of a sequence of history entries.
pub open spec fn history_ids(s: Seq<HistoryEntry>) -> Seq<TransactionId> {
    s.map_values(|e: HistoryEntry| e.txn_id)
}

/// The ids of a sequence of dispute entries.
pub open spec fn dispute_ids(s: Seq<DisputeEntry>) -> Seq<TransactionId> {
    s.map_values(|e: DisputeEntry| e.txn_id)
}

/// A dispute entry is backed by a recorded monetary transaction with the
/// same id and amount.
pub open spec fn dispute_backed(h: Seq<HistoryEntry>, d: DisputeEntry) -> bool {
    exists|j: int|
        0 <= j < h.len() && (#[trigger] h[j]).txn_id == d.txn_id && h[j].amount == d.amount
}

/// Per-client monetary state plus history, as described by the dispute and
/// chargeback protocol.
#[derive(Clone)]
pub struct Account {
    id: AccountId,
    available: i128,
    held: i128,
    locked: bool,
    txn_history: Vec<HistoryEntry>,
    disputed_txns: Vec<DisputeEntry>,
    charged_back: Ghost<int>,
}

impl View for Account {
    type V = AccountView;

    closed spec fn view(&self) -> AccountView {
        AccountView {
            id: self.id,
            available: self.available as int,
            held: self.held as int,
            locked: self.locked,
            txn_history: history_map(self.txn_history@),
            disputed: dispute_map(self.disputed_txns@),
            charged_back: self.charged_back@,
        }
    }
}

/// The outcome that the dispute protocol prescribes for one transaction
/// against one account: either the next account state, or the error that
/// rejects the transaction and leaves the account unchanged.
pub open spec fn txn_outcome(a: AccountView, txn: Transaction) -> Result<
    AccountView,
    TransactionError,
> {
    if txn.account_id != a.id {
        Err(
            TransactionError::WrongAccount {
                id: a.id,
                intended_account: txn.account_id,
                txn_id: txn.id,
            },
        )
    } else if a.locked {
        Err(TransactionError::AccountLocked { id: a.id })
    } else {
        match txn.txn_type {
            TransactionType::Deposit { amount } => {
                if a.txn_history.contains_key(txn.id) {
                    Err(TransactionError::TransactionAlreadyProcessed { id: a.id, txn_id: txn.id })
                } else {
                    Ok(
                        AccountView {
                            available: a.available + amount,
                            txn_history: a.txn_history.insert(
                                txn.id,
                                HistoryRecord { kind: MonetaryKind::Deposit, amount: amount as int },
                            ),
                            ..a
                        },
                    )
                }
            },
            TransactionType::Withdrawal { amount } => {
                if a.txn_history.contains_key(txn.id) {
                    Err(TransactionError::TransactionAlreadyProcessed { id: a.id, txn_id: txn.id })
                } else if a.available < amount {
                    Err(
                        TransactionError::InsufficientFunds {
                            id: a.id,
                            available: a.available as i128,
                            needed: amount,
                        },
                    )
                } else {
                    Ok(
                        AccountView {
                            available: a.available - amount,
                            txn_history: a.txn_history.insert(
                                txn.id,
                                HistoryRecord {
                                    kind: MonetaryKind::Withdrawal,
                                    amount: amount as int,
                                },
                            ),
                            ..a
                        },
                    )
                }
            },
            TransactionType::Dispute => {
                if a.disputed.contains_key(txn.id) {
                    Err(TransactionError::TransactionAlreadyInDispute { id: a.id, txn_id: txn.id })
                } else if !a.txn_history.contains_key(txn.id) {
                    Err(TransactionError::TransactionNotFound { id: a.id, txn_id: txn.id })
                } else {
                    let amount = a.txn_history[txn.id].amount;
                    Ok(
                        AccountView {
                            available: a.available - amount,
                            held: a.held + amount,
                            disputed: a.disputed.insert(txn.id, amount),
                            ..a
                        },
                    )
                }
            },
            TransactionType::Resolve => {
                if !a.disputed.contains_key(txn.id) {
                    Err(TransactionError::TransactionNotInDispute { id: a.id, txn_id: txn.id })
                } else {
                    let amount = a.disputed[txn.id];
                    Ok(
                        AccountView {
                            available: a.available + amount,
                            held: a.held - amount,
                            disputed: a.disputed.remove(txn.id),
                            ..a
                        },
                    )
                }
            },
            TransactionType::Chargeback => {
                if !a.disputed.contains_key(txn.id) {
                    Err(TransactionError::TransactionNotInDispute { id: a.id, txn_id: txn.id })
                } else {
                    let amount = a.disputed[txn.id];
                    Ok(
                        AccountView {
                            held: a.held - amount,
                            locked: true,
                            disputed: a.disputed.remove(txn.id),
                            charged_back: a.charged_back + amount,
                            ..a
                        },
                    )
                }
            },
        }
    }
}

/// How one call of [`Account::process_txn`] relates the states before and
/// after: the account moves to the prescribed next state on success, and is
/// untouched on the prescribed error.
pub open spec fn txn_conforms(
    pre: AccountView,
    post: AccountView,
    txn: Transaction,
    r: Result<(), TransactionError>,
) -> bool {
    match txn_outcome(pre, txn) {
        Ok(v) => r is Ok && post == v,
        Err(e) => r == Err::<(), TransactionError>(e) && post == pre,
    }
}

impl Account {
    /// Well-formedness: recorded ids are unique, recorded amounts are
    /// non-negative, every open dispute is backed by a recorded
    /// transaction, held funds are the sum of the disputed amounts, only a
    /// locked account may have charged-back funds, and the balance
    /// equation holds.
    pub closed spec fn wf(&self) -> bool {
        &&& history_ids(self.txn_history@).no_duplicates()
        &&& forall|i: int|
            0 <= i < self.txn_history@.len() ==> (#[trigger] self.txn_history@[i]).amount >= 0
        &&& dispute_ids(self.disputed_txns@).no_duplicates()
        &&& forall|i: int|
            0 <= i < self.disputed_txns@.len() ==> dispute_backed(
                self.txn_history@,
                #[trigger] self.disputed_txns@[i],
            )
        &&& self.held as int == dispute_total(self.disputed_txns@)
        &&& 0 <= self.charged_back@ <= i64::MAX as int
        &&& (!self.locked ==> self.charged_back@ == 0)
        &&& self.available as int == deposit_total(self.txn_history@) - withdrawal_total(
            self.txn_history@,
        ) - self.held as int - self.charged_back@
    }

    /// A fresh account for a client seen for the first time.
    pub fn new(id: AccountId) -> (r: Self)
        ensures
            r.wf(),
            r@ == fresh_account(id),
    {
        let r = Self {
            id,
            available: 0,
            held: 0,
            locked: false,
            txn_history: Vec::new(),
            disputed_txns: Vec::new(),
            charged_back: Ghost(0),
        };
        proof {
            assert(r@.txn_history =~= Map::<TransactionId, HistoryRecord>::empty());
            assert(r@.disputed =~= Map::<TransactionId, int>::empty());
            assert(r@ =~= fresh_account(id));
        }
        r
    }

    pub fn id(&self) -> (r: AccountId)
        ensures
            r == self@.id,
    {
        self.id
    }

    pub fn available(&self) -> (r: i128)
        ensures
            r as int == self@.available,
    {
        self.available
    }

    /// Held funds are never negative while the account is well formed:
    /// they are the sum of the non-negative amounts under dispute.
    pub fn held(&self) -> (r: i128)
        ensures
            r as int == self@.held,
            self.wf() ==> r >= 0,
    {
        proof {
            if self.wf() {
                lemma_wf_bounds(self);
            }
        }
        self.held
    }

    /// Total funds of the account: available plus held.
    pub fn total(&self) -> (r: i128)
        requires
            self.wf(),
        ensures
            r as int == self@.total(),
            r as int == self@.available + self@.held,
    {
        proof {
            lemma_wf_bounds(self);
        }
        self.available + self.held
    }

    pub fn locked(&self) -> (r: bool)
        ensures
            r == self@.locked,
    {
        self.locked
    }

    /// Apply one transaction to this account under the dispute protocol.
    ///
    /// On success the account moves to exactly the state that
    /// [`txn_outcome`] prescribes; on any error the account is unchanged
    /// and the error is exactly the prescribed one. In particular a locked
    /// account rejects everything, and a deposit or withdrawal whose id
    /// was already recorded is rejected without side effects.
    pub fn process_txn(&mut self, txn: Transaction) -> (r: Result<(), TransactionError>)
        requires
            old(self).wf(),
            txn.wf(),
        ensures
            final(self).wf(),
            txn_conforms(old(self)@, final(self)@, txn, r),
    {
        proof {
            lemma_wf_bounds(old(self));
        }
        if txn.account_id != self.id {
            return Err(
                TransactionError::WrongAccount {
                    id: self.id,
                    intended_account: txn.account_id,
                    txn_id: txn.id,
                },
            );
        }
        if self.locked {
            return Err(TransactionError::AccountLocked { id: self.id });
        }
        match txn.txn_type {
            TransactionType::Deposit { amount } => {
                proof {
                    lemma_history_map_contains(old(self).txn_history@, txn.id);
                }
                if find_history(&self.txn_history, txn.id).is_some() {
                    return Err(
                        TransactionError::TransactionAlreadyProcessed {
                            id: self.id,
                            txn_id: txn.id,
                        },
                    );
                }
                let entry = HistoryEntry { txn_id: txn.id, kind: MonetaryKind::Deposit, amount };
                self.available = self.available + amount as i128;
                self.txn_history.push(entry);
                proof {
                    self.lemma_after_record(old(self), entry);
                }
                Ok(())
            },
            TransactionType::Withdrawal { amount } => {
                proof {
                    lemma_history_map_contains(old(self).txn_history@, txn.id);
                }
                if find_history(&self.txn_history, txn.id).is_some() {
                    return Err(
                        TransactionError::TransactionAlreadyProcessed {
                            id: self.id,
                            txn_id: txn.id,
                        },
                    );
                }
                if self.available < amount as i128 {
                    return Err(
                        TransactionError::InsufficientFunds {
                            id: self.id,
                            available: self.available,
                            needed: amount,
                        },
                    );
                }
                let entry = HistoryEntry { txn_id: txn.id, kind: MonetaryKind::Withdrawal, amount };
                self.available = self.available - amount as i128;
                self.txn_history.push(entry);
                proof {
                    self.lemma_after_record(old(self), entry);
                }
                Ok(())
            },
            TransactionType::Dispute => {
                proof {
                    lemma_dispute_map_contains(old(self).disputed_txns@, txn.id);
                    lemma_history_map_contains(old(self).txn_history@, txn.id);
                }
                if find_dispute(&self.disputed_txns, txn.id).is_some() {
                    return Err(
                        TransactionError::TransactionAlreadyInDispute {
                            id: self.id,
                            txn_id: txn.id,
                        },
                    );
                }
                match find_history(&self.txn_history, txn.id) {
                    None => Err(
                        TransactionError::TransactionNotFound { id: self.id, txn_id: txn.id },
                    ),
                    Some(j) => {
                        proof {
                            lemma_history_map_index(old(self).txn_history@, j as int);
                        }
                        let amount = self.txn_history[j].amount;
                        let entry = DisputeEntry { txn_id: txn.id, amount };
                        self.available = self.available - amount as i128;
                        self.held = self.held + amount as i128;
                        self.disputed_txns.push(entry);
                        proof {
                            lemma_dispute_push(old(self).disputed_txns@, entry);
                            assert(dispute_ids(self.disputed_txns@).no_duplicates());
                            assert forall|i2: int|
                                0 <= i2 < self.disputed_txns@.len() implies dispute_backed(
                                self.txn_history@,
                                #[trigger] self.disputed_txns@[i2],
                            ) by {
                                if i2 < old(self).disputed_txns@.len() {
                                    assert(self.disputed_txns@[i2] == old(
                                        self,
                                    ).disputed_txns@[i2]);
                                } else {
                                    assert(self.disputed_txns@[i2] == entry);
                                    assert(self.txn_history@[j as int].txn_id == entry.txn_id);
                                }
                            }
                        }
                        Ok(())
                    },
                }
            },
            TransactionType::Resolve => {
                proof {
                    lemma_dispute_map_contains(old(self).disputed_txns@, txn.id);
                }
                match find_dispute(&self.disputed_txns, txn.id) {
                    None => Err(
                        TransactionError::TransactionNotInDispute { id: self.id, txn_id: txn.id },
                    ),
                    Some(i) => {
                        proof {
                            lemma_dispute_map_index(old(self).disputed_txns@, i as int);
                            lemma_dispute_remove(old(self).disputed_txns@, i as int);
                            lemma_backed_amount_nonneg(
                                old(self).txn_history@,
                                old(self).disputed_txns@,
                                i as int,
                            );
                        }
                        let amount = self.disputed_txns[i].amount;
                        self.available = self.available + amount as i128;
                        self.held = self.held - amount as i128;
                        self.disputed_txns.remove(i);
                        proof {
                            self.lemma_after_undispute(old(self), i as int);
                        }
                        Ok(())
                    },
                }
            },
            TransactionType::Chargeback => {
                proof {
                    lemma_dispute_map_contains(old(self).disputed_txns@, txn.id);
                }
                match find_dispute(&self.disputed_txns, txn.id) {
                    None => Err(
                        TransactionError::TransactionNotInDispute { id: self.id, txn_id: txn.id },
                    ),
                    Some(i) => {
                        proof {
                            lemma_dispute_map_index(old(self).disputed_txns@, i as int);
                            lemma_dispute_remove(old(self).disputed_txns@, i as int);
                            lemma_backed_amount_nonneg(
                                old(self).txn_history@,
                                old(self).disputed_txns@,
                                i as int,
                            );
                        }
                        let amount = self.disputed_txns[i].amount;
                        self.held = self.held - amount as i128;
                        self.locked = true;
                        self.charged_back = Ghost(self.charged_back@ + amount as int);
                        self.disputed_txns.remove(i);
                        proof {
                            self.lemma_after_undispute(old(self), i as int);
                        }
                        Ok(())
                    },
                }
            },
        }
    }

    /// After recording a fresh monetary transaction, the account is again
    /// well formed.
    proof fn lemma_after_record(&self, pre: &Account, entry: HistoryEntry)
        requires
            pre.wf(),
            entry.amount >= 0,
            forall|j: int|
                0 <= j < pre.txn_history@.len() ==> (#[trigger] pre.txn_history@[j]).txn_id
                    != entry.txn_id,
            self.txn_history@ == pre.txn_history@.push(entry),
            self.disputed_txns@ == pre.disputed_txns@,
            self.held == pre.held,
            self.locked == pre.locked,
            self.charged_back == pre.charged_back,
            self.id == pre.id,
            self.available as int == pre.available + if entry.kind is Deposit {
                entry.amount as int
            } else {
                -(entry.amount as int)
            },
        ensures
            self.wf(),
            self@.txn_history == pre@.txn_history.insert(
                entry.txn_id,
                HistoryRecord { kind: entry.kind, amount: entry.amount as int },
            ),
            self@.disputed == pre@.disputed,
    {
        lemma_history_push(pre.txn_history@, entry);
        assert(history_ids(self.txn_history@).no_duplicates()) by {
            let ids = history_ids(pre.txn_history@);
            assert forall|k: int| 0 <= k < ids.len() implies ids[k] != entry.txn_id by {
                assert(ids[k] == pre.txn_history@[k].txn_id);
            }
        }
        assert forall|i2: int|
            0 <= i2 < self.disputed_txns@.len() implies dispute_backed(
            self.txn_history@,
            #[trigger] self.disputed_txns@[i2],
        ) by {
            assert(dispute_backed(pre.txn_history@, self.disputed_txns@[i2]));
            let j = choose|j: int|
                0 <= j < pre.txn_history@.len() && (#[trigger] pre.txn_history@[j]).txn_id
                    == self.disputed_txns@[i2].txn_id && pre.txn_history@[j].amount
                    == self.disputed_txns@[i2].amount;
            assert(self.txn_history@[j] == pre.txn_history@[j]);
        }
    }

    /// After closing the dispute at index `i` (by resolve or chargeback),
    /// the account is again well formed.
    proof fn lemma_after_undispute(&self, pre: &Account, i: int)
        requires
            pre.wf(),
            0 <= i < pre.disputed_txns@.len(),
            self.txn_history@ == pre.txn_history@,
            self.disputed_txns@ == pre.disputed_txns@.remove(i),
            self.id == pre.id,
            self.held as int == pre.held - pre.disputed_txns@[i].amount,
            self.available as int + self.held as int + self.charged_back@ == pre.available
                + pre.held + pre.charged_back@,
            0 <= self.charged_back@ <= i64::MAX as int,
            !self.locked ==> self.charged_back@ == 0,
        ensures
            self.wf(),
            self@.disputed == pre@.disputed.remove(pre.disputed_txns@[i].txn_id),
            self@.txn_history == pre@.txn_history,
    {
        lemma_dispute_remove(pre.disputed_txns@, i);
        pre.disputed_txns@.remove_ensures(i);
        assert forall|i2: int|
            0 <= i2 < self.disputed_txns@.len() implies dispute_backed(
            self.txn_history@,
            #[trigger] self.disputed_txns@[i2],
        ) by {
            let m = if i2 < i {
                i2
            } else {
                i2 + 1
            };
            assert(self.disputed_txns@[i2] == pre.disputed_txns@[m]);
            assert(dispute_backed(pre.txn_history@, pre.disputed_txns@[m]));
        }
    }
}

/// A disputed amount is one of the recorded amounts, so it is
/// non-negative.
proof fn lemma_backed_amount_nonneg(h: Seq<HistoryEntry>, d: Seq<DisputeEntry>, i: int)
    requires
        0 <= i < d.len(),
        dispute_backed(h, d[i]),
        forall|j: int| 0 <= j < h.len() ==> (#[trigger] h[j]).amount >= 0,
    ensures
        d[i].amount >= 0,
{
}

/// The state of a newly created account: zero balances, unlocked, no
/// history, no disputes.
pub open spec fn fresh_account(id: AccountId) -> AccountView {
    AccountView {
        id,
        available: 0,
        held: 0,
        locked: false,
        txn_history: Map::empty(),
        disputed: Map::empty(),
        charged_back: 0,
    }
}

/// Bounds that follow from well-formedness: at most `2^32` distinct
/// transaction ids exist, so the recorded sums, and with them the
/// balances, stay far inside the range of `i128`.
proof fn lemma_wf_bounds(a: &Account)
    requires
        a.wf(),
    ensures
        0 <= a.held as int <= 0x1_0000_0000 * (i64::MAX as int),
        a.available as int <= 0x1_0000_0000 * (i64::MAX as int),
        a.available as int >= -(3 * 0x1_0000_0000 * (i64::MAX as int)),
{
    let h = a.txn_history@;
    let d = a.disputed_txns@;
    lemma_distinct_ids_len(history_ids(h));
    lemma_distinct_ids_len(dispute_ids(d));
    assert(history_ids(h).len() == h.len());
    assert(dispute_ids(d).len() == d.len());
    lemma_history_sum_bounds(h);
    lemma_dispute_total_bounds(d);
    let m = i64::MAX as int;
    assert(h.len() * m <= 0x1_0000_0000 * m) by (nonlinear_arith)
        requires
            h.len() <= 0x1_0000_0000,
            m >= 0,
    ;
    assert(d.len() * m <= 0x1_0000_0000 * m) by (nonlinear_arith)
        requires
            d.len() <= 0x1_0000_0000,
            m >= 0,
    ;
}

/// A sequence of distinct transaction ids has at most `2^32` elements,
/// because the ids are 32-bit values.
pub proof fn lemma_distinct_ids_len(ids: Seq<TransactionId>)
    requires
        ids.no_duplicates(),
    ensures
        ids.len() <= 0x1_0000_0000,
{
    let f = |t: TransactionId| t.0 as int;
    let ints = ids.map_values(f);
    assert(vstd::relations::injective(f)) by {
        assert forall|x: TransactionId, y: TransactionId| #[trigger] f(x) == #[trigger] f(y)
            implies x == y by {
            assert(x.0 == y.0);
        }
    }
    ids.lemma_no_duplicates_injective(f);
    ints.unique_seq_to_set();
    let range = vstd::set_lib::set_int_range(0, 0x1_0000_0000);
    assert forall|x: int| ints.to_set().contains(x) implies range.contains(x) by {
        let i = choose|i: int| 0 <= i < ints.len() && ints[i] == x;
        assert(ints[i] == f(ids[i]));
    }
    vstd::set_lib::lemma_int_range(0, 0x1_0000_0000);
    vstd::set_lib::lemma_len_subset(ints.to_set(), range);
}

/// The recorded sums are bounded by the number of entries times the
/// largest amount, and non-negative when the amounts are.
proof fn lemma_history_sum_bounds(s: Seq<HistoryEntry>)
    requires
        forall|i: int| 0 <= i < s.len() ==> (#[trigger] s[i]).amount >= 0,
    ensures
        0 <= deposit_total(s) <= s.len() * (i64::MAX as int),
        0 <= withdrawal_total(s) <= s.len() * (i64::MAX as int),
    decreases s.len(),
{
    let m = i64::MAX as int;
    if s.len() > 0 {
        lemma_history_sum_bounds(s.drop_last());
        assert((s.len() - 1) * m + m == s.len() * m) by (nonlinear_arith);
    }
}

/// The disputed sum is bounded by the number of entries times the largest
/// amount, and non-negative when the amounts are.
proof fn lemma_dispute_total_bounds(s: Seq<DisputeEntry>)
    requires
        forall|i: int| 0 <= i < s.len() ==> (#[trigger] s[i]).amount >= 0,
    ensures
        0 <= dispute_total(s) <= s.len() * (i64::MAX as int),
    decreases s.len(),
{
    let m = i64::MAX as int;
    if s.len() > 0 {
        lemma_dispute_total_bounds(s.drop_last());
        assert((s.len() - 1) * m + m == s.len() * m) by (nonlinear_arith);
    }
}

/// The history map contains an id exactly when some entry carries it.
proof fn lemma_history_map_contains(s: Seq<HistoryEntry>, id: TransactionId)
    ensures
        history_map(s).contains_key(id) <==> exists|i: int|
            0 <= i < s.len() && (#[trigger] s[i]).txn_id == id,
    decreases s.len(),
{
    if s.len() > 0 {
        lemma_history_map_contains(s.drop_last(), id);
        if s.last().txn_id == id {
            assert(s[s.len() - 1].txn_id == id);
        } else {
            if exists|i: int| 0 <= i < s.len() && (#[trigger] s[i]).txn_id == id {
                let i = choose|i: int| 0 <= i < s.len() && (#[trigger] s[i]).txn_id == id;
                assert(s.drop_last()[i].txn_id == id);
            }
        }
    }
}

/// With unique ids, the history map holds each entry at its id.
proof fn lemma_history_map_index(s: Seq<HistoryEntry>, i: int)
    requires
        history_ids(s).no_duplicates(),
        0 <= i < s.len(),
    ensures
        history_map(s).contains_key(s[i].txn_id),
        history_map(s)[s[i].txn_id] == (HistoryRecord {
            kind: s[i].kind,
            amount: s[i].amount as int,
        }),
    decreases s.len(),
{
    if i < s.len() - 1 {
        assert(history_ids(s.drop_last()) =~= history_ids(s).drop_last());
        lemma_history_map_index(s.drop_last(), i);
        assert(history_ids(s)[i] == s[i].txn_id);
        assert(history_ids(s)[s.len() - 1] == s.last().txn_id);
    }
}

/// The dispute map contains an id exactly when some entry carries it.
proof fn lemma_dispute_map_contains(s: Seq<DisputeEntry>, id: TransactionId)
    ensures
        dispute_map(s).contains_key(id) <==> exists|i: int|
            0 <= i < s.len() && (#[trigger] s[i]).txn_id == id,
    decreases s.len(),
{
    if s.len() > 0 {
        lemma_dispute_map_contains(s.drop_last(), id);
        if s.last().txn_id == id {
            assert(s[s.len() - 1].txn_id == id);
        } else {
            if exists|i: int| 0 <= i < s.len() && (#[trigger] s[i]).txn_id == id {
                let i = choose|i: int| 0 <= i < s.len() && (#[trigger] s[i]).txn_id == id;
                assert(s.drop_last()[i].txn_id == id);
            }
        }
    }
}

/// With unique ids, the dispute map holds each entry's amount at its id.
proof fn lemma_dispute_map_index(s: Seq<DisputeEntry>, i: int)
    requires
        dispute_ids(s).no_duplicates(),
        0 <= i < s.len(),
    ensures
        dispute_map(s).contains_key(s[i].txn_id),
        dispute_map(s)[s[i].txn_id] == s[i].amount as int,
    decreases s.len(),
{
    if i < s.len() - 1 {
        assert(dispute_ids(s.drop_last()) =~= dispute_ids(s).drop_last());
        lemma_dispute_map_index(s.drop_last(), i);
        assert(dispute_ids(s)[i] == s[i].txn_id);
        assert(dispute_ids(s)[s.len() - 1] == s.last().txn_id);
    }
}

/// Appending a history entry inserts it into the map and adds its amount
/// to the matching sum.
proof fn lemma_history_push(s: Seq<HistoryEntry>, e: HistoryEntry)
    ensures
        history_map(s.push(e)) == history_map(s).insert(
            e.txn_id,
            HistoryRecord { kind: e.kind, amount: e.amount as int },
        ),
        deposit_total(s.push(e)) == deposit_total(s) + if e.kind is Deposit {
            e.amount as int
        } else {
            0
        },
        withdrawal_total(s.push(e)) == withdrawal_total(s) + if e.kind is Withdrawal {
            e.amount as int
        } else {
            0
        },
        history_ids(s.push(e)) == history_ids(s).push(e.txn_id),
{
    assert(s.push(e).drop_last() =~= s);
    assert(s.push(e).last() == e);
    assert(history_ids(s.push(e)) =~= history_ids(s).push(e.txn_id));
}

/// Appending a dispute entry inserts it into the map and adds its amount
/// to the disputed sum.
proof fn lemma_dispute_push(s: Seq<DisputeEntry>, e: DisputeEntry)
    ensures
        dispute_map(s.push(e)) == dispute_map(s).insert(e.txn_id, e.amount as int),
        dispute_total(s.push(e)) == dispute_total(s) + e.amount,
        dispute_ids(s.push(e)) == dispute_ids(s).push(e.txn_id),
{
    assert(s.push(e).drop_last() =~= s);
    assert(s.push(e).last() == e);
    assert(dispute_ids(s.push(e)) =~= dispute_ids(s).push(e.txn_id));
}

/// Removing one element of a duplicate-free sequence keeps it
/// duplicate-free.
pub(crate) proof fn lemma_no_dup_remove<A>(s: Seq<A>, i: int)
    requires
        s.no_duplicates(),
        0 <= i < s.len(),
    ensures
        s.remove(i).no_duplicates(),
{
    s.remove_ensures(i);
    let t = s.remove(i);
    assert forall|k1: int, k2: int|
        0 <= k1 < t.len() && 0 <= k2 < t.len() && k1 != k2 implies t[k1] != t[k2] by {
        let m1 = if k1 < i {
            k1
        } else {
            k1 + 1
        };
        let m2 = if k2 < i {
            k2
        } else {
            k2 + 1
        };
        assert(t[k1] == s[m1]);
        assert(t[k2] == s[m2]);
    }
}

/// The disputed sum splits over concatenation.
proof fn lemma_dispute_total_concat(a: Seq<DisputeEntry>, b: Seq<DisputeEntry>)
    ensures
        dispute_total(a + b) == dispute_total(a) + dispute_total(b),
    decreases b.len(),
{
    if b.len() == 0 {
        assert(a + b =~= a);
    } else {
        lemma_dispute_total_concat(a, b.drop_last());
        assert((a + b).drop_last() =~= a + b.drop_last());
        assert((a + b).last() == b.last());
    }
}

/// Removing a dispute entry: the ids stay unique, the map loses exactly
/// that id, and the disputed sum drops by exactly that amount.
proof fn lemma_dispute_remove(s: Seq<DisputeEntry>, i: int)
    requires
        dispute_ids(s).no_duplicates(),
        0 <= i < s.len(),
    ensures
        dispute_ids(s.remove(i)).no_duplicates(),
        dispute_map(s.remove(i)) == dispute_map(s).remove(s[i].txn_id),
        dispute_total(s.remove(i)) == dispute_total(s) - s[i].amount,
{
    let t = s.remove(i);
    s.remove_ensures(i);
    assert(dispute_ids(t) =~= dispute_ids(s).remove(i)) by {
        dispute_ids(s).remove_ensures(i);
        assert forall|k: int| 0 <= k < t.len() implies dispute_ids(t)[k] == dispute_ids(s).remove(
            i,
        )[k] by {
            if k < i {
                assert(t[k] == s[k]);
            } else {
                assert(t[k] == s[k + 1]);
            }
        }
    }
    lemma_no_dup_remove::<TransactionId>(dispute_ids(s), i);
    // the sum: split the sequence around the removed entry
    let a = s.subrange(0, i);
    let b = s.subrange(i + 1, s.len() as int);
    let mid = seq![s[i]];
    assert(t == a + b);
    assert(s =~= (a + mid) + b);
    lemma_dispute_total_concat(a + mid, b);
    lemma_dispute_total_concat(a, mid);
    lemma_dispute_total_concat(a, b);
    assert(dispute_total(mid) == s[i].amount) by {
        assert(mid.len() == 1);
        assert(mid.drop_last() =~= Seq::<DisputeEntry>::empty());
        assert(dispute_total(Seq::<DisputeEntry>::empty()) == 0);
        assert(mid.last() == s[i]);
    }
    // the map: pointwise
    let removed_id = s[i].txn_id;
    assert forall|k: TransactionId| #[trigger]
        dispute_map(t).contains_key(k) implies dispute_map(s).remove(removed_id).contains_key(k)
        && dispute_map(t)[k] == dispute_map(s).remove(removed_id)[k] by {
        lemma_dispute_map_contains(t, k);
        let j = choose|j: int| 0 <= j < t.len() && (#[trigger] t[j]).txn_id == k;
        lemma_dispute_map_index(t, j);
        let j2 = if j < i {
            j
        } else {
            j + 1
        };
        assert(t[j] == s[j2]);
        lemma_dispute_map_index(s, j2);
        assert(dispute_ids(s)[j2] == s[j2].txn_id);
        assert(dispute_ids(s)[i] == s[i].txn_id);
        assert(k != removed_id);
    }
    assert forall|k: TransactionId| #[trigger]
        dispute_map(s).remove(removed_id).contains_key(k) implies dispute_map(t).contains_key(
        k,
    ) by {
        lemma_dispute_map_contains(s, k);
        let j2 = choose|j2: int| 0 <= j2 < s.len() && (#[trigger] s[j2]).txn_id == k;
        assert(dispute_ids(s)[j2] == s[j2].txn_id);
        assert(dispute_ids(s)[i] == s[i].txn_id);
        assert(j2 != i);
        let j = if j2 < i {
            j2
        } else {
            j2 - 1
        };
        assert(t[j] == s[j2]);
        lemma_dispute_map_contains(t, k);
    }
    assert(dispute_map(t) =~= dispute_map(s).remove(removed_id));
}

/// Index of the history entry carrying the given id, if any.
fn find_history(h: &Vec<HistoryEntry>, id: TransactionId) -> (r: Option<usize>)
    ensures
        match r {
            Some(i) => i < h@.len() && h@[i as int].txn_id == id,
            None => forall|j: int| 0 <= j < h@.len() ==> (#[trigger] h@[j]).txn_id != id,
        },
{
    let mut i: usize = 0;
    while i < h.len()
        invariant
            i <= h@.len(),
            forall|j: int| 0 <= j < i ==> (#[trigger] h@[j]).txn_id != id,
        decreases h@.len() - i,
    {
        if h[i].txn_id == id {
            return Some(i);
        }
        i = i + 1;
    }
    None
}

/// Index of the dispute entry carrying the given id, if any.
fn find_dispute(d: &Vec<DisputeEntry>, id: TransactionId) -> (r: Option<usize>)
    ensures
        match r {
            Some(i) => i < d@.len() && d@[i as int].txn_id == id,
            None => forall|j: int| 0 <= j < d@.len() ==> (#[trigger] d@[j]).txn_id != id,
        },
{
    let mut i: usize = 0;
    while i < d.len()
        invariant
            i <= d@.len(),
            forall|j: int| 0 <= j < i ==> (#[trigger] d@[j]).txn_id != id,
        decreases d@.len() - i,
    {
        if d[i].txn_id == id {
            return Some(i);
        }
        i = i + 1;
    }
    None
}

/// A transaction addressed to a locked account is rejected, whatever its
/// kind — and every rejection leaves the account unchanged.
pub proof fn lemma_locked_rejects(a: AccountView, txn: Transaction)
    requires
        a.locked,
    ensures
        txn_outcome(a, txn) is Err,
{
}

/// A deposit or withdrawal whose id was already recorded is rejected
/// without side effects.
pub proof fn lemma_duplicate_monetary_rejected(a: AccountView, txn: Transaction)
    requires
        a.txn_history.contains_key(txn.id),
        txn.txn_type is Deposit || txn.txn_type is Withdrawal,
    ensures
        txn_outcome(a, txn) is Err,
{
}

/// A successful dispute or resolve moves funds between available and
/// held, leaving the total untouched.
pub proof fn lemma_dispute_resolve_keep_total(a: AccountView, txn: Transaction)
    requires
        txn.txn_type is Dispute || txn.txn_type is Resolve,
        txn_outcome(a, txn) is Ok,
    ensures
        txn_outcome(a, txn)->Ok_0.total() == a.total(),
{
}

/// A successful chargeback decreases the total by exactly the disputed
/// amount, and locks the account for good.
pub proof fn lemma_chargeback_total(a: AccountView, txn: Transaction)
    requires
        txn.txn_type is Chargeback,
        txn_outcome(a, txn) is Ok,
    ensures
        txn_outcome(a, txn)->Ok_0.total() == a.total() - a.disputed[txn.id],
        txn_outcome(a, txn)->Ok_0.locked,
{
}

/// Resolving a freshly opened dispute restores the account exactly to
/// its state from before the dispute: the total never changed in
/// between, and the held funds return to available.
pub proof fn lemma_resolve_restores(a: AccountView, dispute: Transaction, resolve: Transaction)
    requires
        dispute.txn_type is Dispute,
        resolve.txn_type is Resolve,
        resolve.id == dispute.id,
        resolve.account_id == dispute.account_id,
        !a.disputed.contains_key(dispute.id),
        txn_outcome(a, dispute) is Ok,
    ensures
        txn_outcome(txn_outcome(a, dispute)->Ok_0, resolve) is Ok,
        txn_outcome(txn_outcome(a, dispute)->Ok_0, resolve)->Ok_0 == a,
{
    let mid = txn_outcome(a, dispute)->Ok_0;
    assert(mid.disputed.contains_key(resolve.id));
    let fin = txn_outcome(mid, resolve)->Ok_0;
    assert(fin.disputed =~= a.disputed);
    assert(fin =~= a);
}

} // verus!
