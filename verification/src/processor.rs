//! The order-preserving transaction processing pipeline.
//!
//! Tagged transactions may arrive out of order; the [`Resequencer`] emits
//! them in strictly ascending order of their stream position, and the
//! [`TransactionProcessor`] routes each to the worker owning its client
//! (client id modulo worker count). Each [`Worker`] owns a disjoint shard
//! of accounts, so the final ledger is the one of the in-order stream —
//! whatever the arrival order and whatever the worker count.

use vstd::prelude::*;

use crate::models::account::{txn_outcome, Account, AccountId, AccountView, TransactionError};
use crate::models::transaction::Transaction;
use crate::stream::{ledger_account, ledger_step, run_ledger, shard_txns};

verus! {

/// A transaction tagged with its 0-based position in the input stream.
#[derive(Clone, Copy, Debug, PartialEq, Eq, Structural)]
pub struct OrderedTransaction {
    pub order: u64,
    pub txn: Transaction,
}

impl OrderedTransaction {
    pub fn new(order: u64, txn: Transaction) -> (r: Self)
        ensures
            r == (OrderedTransaction { order, txn }),
    {
        OrderedTransaction { order, txn }
    }

    pub fn order(&self) -> (r: u64)
        ensures
            r == self.order,
    {
        self.order
    }
}

/// The client ids of a sequence of accounts.
pub open spec fn account_ids(s: Seq<Account>) -> Seq<AccountId> {
    s.map_values(|a: Account| a@.id)
}

/// Some account in the sequence belongs to the given client.
pub open spec fn holds_account(s: Seq<Account>, c: AccountId) -> bool {
    exists|i: int| 0 <= i < s.len() && (#[trigger] s[i])@.id == c
}

/// The ledger described by a sequence of accounts.
pub open spec fn accounts_map(s: Seq<Account>) -> Map<AccountId, AccountView>
    decreases s.len(),
{
    if s.len() == 0 {
        Map::empty()
    } else {
        accounts_map(s.drop_last()).insert(s.last()@.id, s.last()@)
    }
}

/// The accounts ledger contains an id exactly when some account carries
/// it.
proof fn lemma_accounts_map_contains(s: Seq<Account>, c: AccountId)
    ensures
        accounts_map(s).contains_key(c) <==> exists|i: int|
            0 <= i < s.len() && (#[trigger] s[i])@.id == c,
    decreases s.len(),
{
    if s.len() > 0 {
        lemma_accounts_map_contains(s.drop_last(), c);
        if s.last()@.id == c {
            assert(s[s.len() - 1]@.id == c);
        } else {
            if exists|i: int| 0 <= i < s.len() && (#[trigger] s[i])@.id == c {
                let i = choose|i: int| 0 <= i < s.len() && (#[trigger] s[i])@.id == c;
                assert(s.drop_last()[i]@.id == c);
            }
        }
    }
}

/// With one account per client, the ledger holds each account at its id.
proof fn lemma_accounts_map_index(s: Seq<Account>, i: int)
    requires
        account_ids(s).no_duplicates(),
        0 <= i < s.len(),
    ensures
        accounts_map(s).contains_key(s[i]@.id),
        accounts_map(s)[s[i]@.id] == s[i]@,
    decreases s.len(),
{
    if i < s.len() - 1 {
        assert(account_ids(s.drop_last()) =~= account_ids(s).drop_last());
        lemma_accounts_map_index(s.drop_last(), i);
        assert(account_ids(s)[i] == s[i]@.id);
        assert(account_ids(s)[s.len() - 1] == s.last()@.id);
    }
}

/// Appending an account inserts its state at its id.
proof fn lemma_accounts_map_push(s: Seq<Account>, a: Account)
    ensures
        accounts_map(s.push(a)) == accounts_map(s).insert(a@.id, a@),
        account_ids(s.push(a)) == account_ids(s).push(a@.id),
{
    assert(s.push(a).drop_last() =~= s);
    assert(s.push(a).last() == a);
    assert(account_ids(s.push(a)) =~= account_ids(s).push(a@.id));
}

/// Replacing the account at index `i` by one for the same client updates
/// the ledger at that id and keeps the ids as they were.
proof fn lemma_accounts_map_update(s: Seq<Account>, i: int, a: Account)
    requires
        account_ids(s).no_duplicates(),
        0 <= i < s.len(),
        a@.id == s[i]@.id,
    ensures
        accounts_map(s.update(i, a)) == accounts_map(s).insert(s[i]@.id, a@),
        account_ids(s.update(i, a)) == account_ids(s),
    decreases s.len(),
{
    assert(account_ids(s.update(i, a)) =~= account_ids(s));
    if i == s.len() - 1 {
        assert(s.update(i, a).drop_last() =~= s.drop_last());
        assert(s.update(i, a).last() == a);
        assert(accounts_map(s.drop_last()).insert(s[i]@.id, s[i]@).insert(a@.id, a@)
            =~= accounts_map(s.drop_last()).insert(a@.id, a@));
    } else {
        assert(account_ids(s.drop_last()) =~= account_ids(s).drop_last());
        lemma_accounts_map_update(s.drop_last(), i, a);
        assert(s.update(i, a).drop_last() =~= s.drop_last().update(i, a));
        assert(s.update(i, a).last() == s.last());
        assert(account_ids(s)[i] == s[i]@.id);
        assert(account_ids(s)[s.len() - 1] == s.last()@.id);
        assert(accounts_map(s.drop_last()).insert(s[i]@.id, a@).insert(s.last()@.id, s.last()@)
            =~= accounts_map(s.drop_last()).insert(s.last()@.id, s.last()@).insert(
            s[i]@.id,
            a@,
        ));
    }
}

/// Index of the account owned by the given client, if any.
fn find_account(s: &Vec<Account>, id: AccountId) -> (r: Option<usize>)
    ensures
        match r {
            Some(i) => i < s@.len() && (s@[i as int])@.id == id,
            None => forall|j: int| 0 <= j < s@.len() ==> ((#[trigger] s@[j])@.id != id),
        },
{
    let mut i: usize = 0;
    while i < s.len()
        invariant
            i <= s@.len(),
            forall|j: int| 0 <= j < i ==> ((#[trigger] s@[j])@.id != id),
        decreases s@.len() - i,
    {
        if s[i].id() == id {
            return Some(i);
        }
        i = i + 1;
    }
    None
}

/// A worker owns one shard of accounts and advances each by the
/// transactions handed to it, in hand-over order. Accounts are created
/// lazily; rejected transactions are reported to the caller and change
/// nothing.
pub struct Worker {
    accounts: Vec<Account>,
}

impl View for Worker {
    type V = Map<AccountId, AccountView>;

    closed spec fn view(&self) -> Map<AccountId, AccountView> {
        accounts_map(self.accounts@)
    }
}

impl Worker {
    /// Well-formed: one account per client, each account well formed.
    pub closed spec fn wf(&self) -> bool {
        &&& account_ids(self.accounts@).no_duplicates()
        &&& forall|i: int| 0 <= i < self.accounts@.len() ==> (#[trigger] self.accounts@[i]).wf()
    }

    /// A worker that owns no accounts yet.
    pub fn new() -> (r: Self)
        ensures
            r.wf(),
            r@ == Map::<AccountId, AccountView>::empty(),
    {
        Worker { accounts: Vec::new() }
    }

    /// Apply one transaction to the account of its client, creating the
    /// account on first sight. The worker's ledger advances by exactly
    /// one step of the stream semantics; an error reports the prescribed
    /// rejection and leaves every account unchanged.
    pub fn process_txn(&mut self, txn: Transaction) -> (r: Result<(), TransactionError>)
        requires
            old(self).wf(),
            txn.wf(),
        ensures
            final(self).wf(),
            final(self)@ == ledger_step(old(self)@, txn),
            (match txn_outcome(ledger_account(old(self)@, txn.account_id), txn) {
                Ok(_) => r is Ok,
                Err(e) => r == Err::<(), TransactionError>(e),
            }),
    {
        let id = txn.account_id();
        proof {
            lemma_accounts_map_contains(self.accounts@, id);
        }
        let idx: usize;
        match find_account(&self.accounts, id) {
            Some(i) => {
                idx = i;
                proof {
                    lemma_accounts_map_index(self.accounts@, i as int);
                }
            },
            None => {
                idx = self.accounts.len();
                let fresh = Account::new(id);
                let ghost s0 = self.accounts@;
                self.accounts.push(fresh);
                proof {
                    lemma_accounts_map_push(s0, self.accounts@[idx as int]);
                    assert(account_ids(self.accounts@).no_duplicates()) by {
                        let ids = account_ids(s0);
                        assert forall|k: int| 0 <= k < ids.len() implies ids[k] != id by {
                            assert(ids[k] == s0[k]@.id);
                        }
                    }
                }
            },
        }
        let ghost s1 = self.accounts@;
        let ghost pre_acct = s1[idx as int]@;
        proof {
            lemma_accounts_map_index(s1, idx as int);
        }
        let r = self.accounts[idx].process_txn(txn);
        proof {
            let post_acct = self.accounts@[idx as int];
            assert(self.accounts@ == s1.update(idx as int, post_acct));
            assert(post_acct@.id == pre_acct.id) by {
                if txn_outcome(pre_acct, txn) is Ok {
                } else {
                }
            }
            lemma_accounts_map_update(s1, idx as int, post_acct);
            assert(pre_acct == ledger_account(old(self)@, txn.account_id));
            assert(final(self)@ =~= ledger_step(old(self)@, txn));
            assert forall|i2: int|
                0 <= i2 < self.accounts@.len() implies (#[trigger] self.accounts@[i2]).wf() by {
                if i2 != idx as int {
                    assert(self.accounts@[i2] == s1[i2]);
                }
            }
        }
        r
    }

    /// Signal end-of-input: hand over the final account states. Exactly
    /// the worker's ledger comes back, one account per client.
    pub fn stop(self) -> (r: Vec<Account>)
        requires
            self.wf(),
        ensures
            account_ids(r@).no_duplicates(),
            forall|i: int| 0 <= i < r@.len() ==> (#[trigger] r@[i]).wf(),
            accounts_map(r@) == self@,
            forall|i: int|
                0 <= i < r@.len() ==> self@.contains_key((#[trigger] r@[i])@.id)
                    && self@[r@[i]@.id] == r@[i]@,
            forall|c: AccountId|
                self@.contains_key(c) ==> exists|i: int|
                    0 <= i < r@.len() && (#[trigger] r@[i])@.id == c,
    {
        proof {
            assert forall|i: int|
                0 <= i < self.accounts@.len() implies self@.contains_key(
                (#[trigger] self.accounts@[i])@.id,
            ) && self@[self.accounts@[i]@.id] == self.accounts@[i]@ by {
                lemma_accounts_map_index(self.accounts@, i);
            }
            assert forall|c: AccountId| self@.contains_key(c) implies exists|i: int|
                0 <= i < self.accounts@.len() && (#[trigger] self.accounts@[i])@.id == c by {
                lemma_accounts_map_contains(self.accounts@, c);
            }
        }
        self.accounts
    }
}

/// A structural failure of the pipeline.
#[derive(Clone, Copy, Debug, PartialEq, Eq, Structural)]
pub enum ProcessorError {
    /// End-of-input arrived while some stream positions were still
    /// missing, so the held-back transactions could never be forwarded.
    OrderingGap { next_expected: u64 },
}

/// The first `n` positions of a submission map, read as the in-order
/// stream.
pub open spec fn stream_of(m: Map<u64, Transaction>, n: int) -> Seq<Transaction> {
    Seq::new(n as nat, |i: int| m[i as u64])
}

/// The stream positions of a sequence of held-back transactions.
spec fn pending_orders(s: Seq<OrderedTransaction>) -> Seq<u64> {
    s.map_values(|e: OrderedTransaction| e.order)
}

/// Index of the held-back transaction at the given stream position, if
/// any.
fn find_pending(s: &Vec<OrderedTransaction>, order: u64) -> (r: Option<usize>)
    ensures
        match r {
            Some(i) => i < s@.len() && s@[i as int].order == order,
            None => forall|j: int| 0 <= j < s@.len() ==> ((#[trigger] s@[j]).order != order),
        },
{
    let mut i: usize = 0;
    while i < s.len()
        invariant
            i <= s@.len(),
            forall|j: int| 0 <= j < i ==> ((#[trigger] s@[j]).order != order),
        decreases s@.len() - i,
    {
        if s[i].order == order {
            return Some(i);
        }
        i = i + 1;
    }
    None
}

/// Re-sequences tagged transactions that may arrive out of order into the
/// single totally ordered stream: a transaction is forwarded exactly when
/// every earlier stream position has been forwarded before it, and early
/// arrivals are held back until their turn.
pub struct Resequencer {
    next_expected: u64,
    pending: Vec<OrderedTransaction>,
    submitted: Ghost<Map<u64, Transaction>>,
}

impl Resequencer {
    /// Everything submitted so far, by stream position.
    pub closed spec fn submitted(&self) -> Map<u64, Transaction> {
        self.submitted@
    }

    /// The next stream position to forward: everything below it has been
    /// forwarded, in ascending order.
    pub closed spec fn next_expected(&self) -> u64 {
        self.next_expected
    }

    /// How many early arrivals are currently held back.
    pub closed spec fn pending_count(&self) -> nat {
        self.pending@.len()
    }

    /// The in-order prefix forwarded so far.
    pub open spec fn delivered(&self) -> Seq<Transaction> {
        stream_of(self.submitted(), self.next_expected() as int)
    }

    /// The resequencer's invariant: positions below `next_expected` have
    /// all arrived and been forwarded; `next_expected` itself has not
    /// arrived; the held-back transactions are exactly the arrived
    /// positions above `next_expected`, each held once.
    pub closed spec fn inv(&self) -> bool {
        &&& forall|o: u64| o < self.next_expected ==> self.submitted@.contains_key(o)
        &&& !self.submitted@.contains_key(self.next_expected)
        &&& forall|o: u64| #[trigger] self.submitted@.contains_key(o) ==> o < u64::MAX
        &&& pending_orders(self.pending@).no_duplicates()
        &&& forall|i: int|
            0 <= i < self.pending@.len() ==> (#[trigger] self.pending@[i]).order
                > self.next_expected
        &&& forall|i: int|
            0 <= i < self.pending@.len() ==> self.submitted@.contains_key(
                (#[trigger] self.pending@[i]).order,
            ) && self.submitted@[self.pending@[i].order] == self.pending@[i].txn
        &&& forall|o: u64|
            #[trigger] self.submitted@.contains_key(o) && o > self.next_expected ==> exists|i: int|
                0 <= i < self.pending@.len() && (#[trigger] self.pending@[i]).order == o
    }

    /// A resequencer that has seen nothing yet.
    pub fn new() -> (r: Self)
        ensures
            r.inv(),
            r.submitted() == Map::<u64, Transaction>::empty(),
            r.next_expected() == 0,
            r.pending_count() == 0,
    {
        Resequencer { next_expected: 0, pending: Vec::new(), submitted: Ghost(Map::empty()) }
    }

    /// How many early arrivals are still held back.
    pub fn outstanding(&self) -> (r: usize)
        ensures
            r == self.pending_count(),
    {
        self.pending.len()
    }

    /// The next stream position the resequencer is waiting for.
    pub fn position(&self) -> (r: u64)
        ensures
            r == self.next_expected(),
    {
        self.next_expected
    }

    /// Accept one tagged transaction, which may arrive out of order, and
    /// return the batch that is now deliverable: the longest run of
    /// consecutive stream positions starting at the old `next_expected`,
    /// in ascending order. Stream positions are the 0-based places of an
    /// input stream, so each arrives at most once.
    pub fn submit(&mut self, ordered_txn: OrderedTransaction) -> (ready: Vec<Transaction>)
        requires
            old(self).inv(),
            !old(self).submitted().contains_key(ordered_txn.order),
            ordered_txn.order < u64::MAX,
        ensures
            final(self).inv(),
            final(self).submitted() == old(self).submitted().insert(
                ordered_txn.order,
                ordered_txn.txn,
            ),
            final(self).next_expected() >= old(self).next_expected(),
            ready@.len() == final(self).next_expected() - old(self).next_expected(),
            forall|k: int|
                0 <= k < ready@.len() ==> ready@[k] == final(self).submitted()[(old(
                    self,
                ).next_expected() + k) as u64],
            final(self).pending_count() + ready@.len() == old(self).pending_count() + 1,
    {
        let ghost m2 = old(self).submitted@.insert(ordered_txn.order, ordered_txn.txn);
        self.submitted = Ghost(m2);
        let mut ready: Vec<Transaction> = Vec::new();
        if ordered_txn.order == self.next_expected {
            let ghost ne0 = old(self).next_expected;
            ready.push(ordered_txn.txn);
            self.next_expected = self.next_expected + 1;
            let mut done = false;
            while !done
                invariant
                    self.submitted@ == m2,
                    ne0 < self.next_expected,
                    forall|o: u64| o < self.next_expected ==> m2.contains_key(o),
                    forall|o: u64| #[trigger] m2.contains_key(o) ==> o < u64::MAX,
                    pending_orders(self.pending@).no_duplicates(),
                    forall|i: int|
                        0 <= i < self.pending@.len() ==> (#[trigger] self.pending@[i]).order
                            >= self.next_expected,
                    forall|i: int|
                        0 <= i < self.pending@.len() ==> m2.contains_key(
                            (#[trigger] self.pending@[i]).order,
                        ) && m2[self.pending@[i].order] == self.pending@[i].txn,
                    forall|o: u64|
                        #[trigger] m2.contains_key(o) && o >= self.next_expected ==> exists|i: int|
                            0 <= i < self.pending@.len() && (#[trigger] self.pending@[i]).order
                                == o,
                    ready@.len() == self.next_expected - ne0,
                    forall|k: int| 0 <= k < ready@.len() ==> ready@[k] == m2[(ne0 + k) as u64],
                    self.pending@.len() + ready@.len() == old(self).pending@.len() + 1,
                    done ==> forall|j: int|
                        0 <= j < self.pending@.len() ==> ((#[trigger] self.pending@[j]).order
                            != self.next_expected),
                decreases self.pending@.len() + (if done {
                    0int
                } else {
                    1int
                }),
            {
                match find_pending(&self.pending, self.next_expected) {
                    Some(i) => {
                        let ghost p0 = self.pending@;
                        let e = self.pending.remove(i);
                        ready.push(e.txn);
                        proof {
                            p0.remove_ensures(i as int);
                            assert(pending_orders(self.pending@) =~= pending_orders(p0).remove(
                                i as int,
                            )) by {
                                pending_orders(p0).remove_ensures(i as int);
                                assert forall|k: int|
                                    0 <= k < self.pending@.len() implies pending_orders(
                                    self.pending@,
                                )[k] == pending_orders(p0).remove(i as int)[k] by {
                                    if k < i {
                                        assert(self.pending@[k] == p0[k]);
                                    } else {
                                        assert(self.pending@[k] == p0[k + 1]);
                                    }
                                }
                            }
                            crate::models::account::lemma_no_dup_remove(
                                pending_orders(p0),
                                i as int,
                            );
                            assert forall|o: u64|
                                #[trigger] m2.contains_key(o) && o >= self.next_expected + 1
                                implies exists|j: int|
                                0 <= j < self.pending@.len() && (#[trigger] self.pending@[j]).order
                                    == o by {
                                let j0 = choose|j0: int|
                                    0 <= j0 < p0.len() && (#[trigger] p0[j0]).order == o;
                                assert(pending_orders(p0)[j0] == o);
                                assert(pending_orders(p0)[i as int] == self.next_expected);
                                assert(j0 != i);
                                let j = if j0 < i {
                                    j0
                                } else {
                                    j0 - 1
                                };
                                assert(self.pending@[j] == p0[j0]);
                            }
                            assert forall|k: int|
                                0 <= k < self.pending@.len() implies (#[trigger] self.pending@[k]).order
                                > self.next_expected by {
                                let k0 = if k < i {
                                    k
                                } else {
                                    k + 1
                                };
                                assert(self.pending@[k] == p0[k0]);
                                assert(pending_orders(p0)[k0] == p0[k0].order);
                                assert(pending_orders(p0)[i as int] == p0[i as int].order);
                            }
                        }
                        self.next_expected = self.next_expected + 1;
                    },
                    None => {
                        done = true;
                    },
                }
            }
            proof {
                if m2.contains_key(self.next_expected) {
                    let i = choose|i: int|
                        0 <= i < self.pending@.len() && (#[trigger] self.pending@[i]).order
                            == self.next_expected;
                    assert(false);
                }
            }
        } else {
            let ghost p0 = self.pending@;
            self.pending.push(ordered_txn);
            proof {
                assert(pending_orders(self.pending@) =~= pending_orders(p0).push(
                    ordered_txn.order,
                ));
                assert forall|k: int|
                    0 <= k < p0.len() implies (#[trigger] pending_orders(p0)[k])
                    != ordered_txn.order by {
                    assert(pending_orders(p0)[k] == p0[k].order);
                    assert(old(self).submitted@.contains_key(p0[k].order));
                }
                assert forall|o: u64| #[trigger] m2.contains_key(o) && o > self.next_expected
                    implies exists|i: int|
                    0 <= i < self.pending@.len() && (#[trigger] self.pending@[i]).order == o by {
                    if o == ordered_txn.order {
                        assert(self.pending@[p0.len() as int].order == o);
                    } else {
                        let i = choose|i: int|
                            0 <= i < p0.len() && (#[trigger] p0[i]).order == o;
                        assert(self.pending@[i].order == o);
                    }
                }
            }
        }
        ready
    }
}

/// The heart of the concurrent pipeline, as a sequential state machine:
/// it accepts tagged transactions in any arrival order, re-sequences them
/// into the in-order stream, and routes each to the worker owning its
/// client (client id modulo worker count). At every moment the workers
/// together hold exactly the ledger of the in-order prefix forwarded so
/// far — so the final output depends neither on the arrival order nor on
/// the worker count.
pub struct TransactionProcessor {
    reseq: Resequencer,
    workers: Vec<Worker>,
}

impl TransactionProcessor {
    /// The number of workers the accounts are sharded across.
    pub closed spec fn num_workers(&self) -> int {
        self.workers@.len() as int
    }

    /// Everything submitted so far, by stream position.
    pub closed spec fn submitted(&self) -> Map<u64, Transaction> {
        self.reseq.submitted()
    }

    /// The next stream position the pipeline is waiting for.
    pub closed spec fn next_expected(&self) -> u64 {
        self.reseq.next_expected()
    }

    /// How many early arrivals are still held back.
    pub closed spec fn pending_count(&self) -> nat {
        self.reseq.pending_count()
    }

    /// The in-order stream forwarded to the workers so far.
    pub closed spec fn delivered(&self) -> Seq<Transaction> {
        self.reseq.delivered()
    }

    /// The ledger held by worker `w`.
    pub closed spec fn worker_view(&self, w: int) -> Map<AccountId, AccountView> {
        self.workers@[w]@
    }

    /// The pipeline invariant: the resequencer is consistent, every
    /// submitted transaction is well formed, and each worker holds
    /// exactly the ledger of its shard of the forwarded in-order stream.
    pub closed spec fn inv(&self) -> bool {
        &&& self.workers@.len() >= 1
        &&& self.reseq.inv()
        &&& forall|o: u64|
            #[trigger] self.reseq.submitted().contains_key(o) ==> self.reseq.submitted()[o].wf()
        &&& forall|w: int| 0 <= w < self.workers@.len() ==> (#[trigger] self.workers@[w]).wf()
        &&& forall|w: int|
            0 <= w < self.workers@.len() ==> (#[trigger] self.workers@[w])@ == run_ledger(
                shard_txns(self.reseq.delivered(), w, self.workers@.len() as int),
            )
    }

    /// A pipeline with the given number of workers, each owning an empty
    /// shard.
    pub fn new(num_workers: usize) -> (r: Self)
        requires
            num_workers >= 1,
        ensures
            r.inv(),
            r.num_workers() == num_workers,
            r.submitted() == Map::<u64, Transaction>::empty(),
            r.next_expected() == 0,
            r.pending_count() == 0,
    {
        let mut workers: Vec<Worker> = Vec::new();
        while workers.len() < num_workers
            invariant
                workers@.len() <= num_workers,
                forall|w: int| 0 <= w < workers@.len() ==> (#[trigger] workers@[w]).wf(),
                forall|w: int|
                    0 <= w < workers@.len() ==> (#[trigger] workers@[w])@ == Map::<
                        AccountId,
                        AccountView,
                    >::empty(),
            decreases num_workers - workers@.len(),
        {
            workers.push(Worker::new());
        }
        let r = TransactionProcessor { reseq: Resequencer::new(), workers };
        proof {
            assert(r.reseq.delivered() =~= Seq::<Transaction>::empty());
            assert forall|w: int| 0 <= w < r.workers@.len() implies (#[trigger] r.workers@[w])@
                == run_ledger(
                shard_txns(r.reseq.delivered(), w, r.workers@.len() as int),
            ) by {
                assert(shard_txns(Seq::<Transaction>::empty(), w, r.workers@.len() as int)
                    =~= Seq::<Transaction>::empty());
                assert(run_ledger(Seq::<Transaction>::empty()) =~= Map::<
                    AccountId,
                    AccountView,
                >::empty());
            }
        }
        r
    }

    /// Accept one tagged transaction, which may arrive out of order
    /// relative to its stream position. Deliverable transactions are
    /// forwarded at once, in strictly ascending stream order, each to the
    /// worker owning its client; early arrivals are held back. Rejections
    /// reported by the state machine are discarded: they are expected
    /// events and never halt the stream.
    pub fn process_ordered_txn(&mut self, ordered_txn: OrderedTransaction)
        requires
            old(self).inv(),
            !old(self).submitted().contains_key(ordered_txn.order),
            ordered_txn.order < u64::MAX,
            ordered_txn.txn.wf(),
        ensures
            final(self).inv(),
            final(self).num_workers() == old(self).num_workers(),
            final(self).submitted() == old(self).submitted().insert(
                ordered_txn.order,
                ordered_txn.txn,
            ),
            final(self).next_expected() >= old(self).next_expected(),
            final(self).pending_count() + (final(self).next_expected() - old(
                self,
            ).next_expected()) == old(self).pending_count() + 1,
    {
        let ghost m2 = old(self).submitted().insert(ordered_txn.order, ordered_txn.txn);
        let ghost ne0 = old(self).next_expected();
        let ready = self.reseq.submit(ordered_txn);
        let n = self.workers.len();
        proof {
            assert forall|o: u64| #[trigger] m2.contains_key(o) implies m2[o].wf() by {
                if o != ordered_txn.order {
                    assert(old(self).submitted().contains_key(o));
                }
            }
            assert(stream_of(m2, ne0 as int) =~= old(self).delivered()) by {
                assert forall|i: int| 0 <= i < ne0 implies stream_of(m2, ne0 as int)[i] == old(
                    self,
                ).delivered()[i] by {
                    assert(old(self).submitted().contains_key(i as u64));
                    assert(m2[i as u64] == old(self).submitted()[i as u64]);
                }
            }
        }
        let mut k: usize = 0;
        while k < ready.len()
            invariant
                self.workers@.len() == n,
                n >= 1,
                self.reseq.inv(),
                self.reseq.submitted() == m2,
                self.reseq.next_expected() == ne0 + ready@.len(),
                self.reseq.pending_count() + ready@.len() == old(self).pending_count() + 1,
                k <= ready@.len(),
                forall|j: int| 0 <= j < ready@.len() ==> ready@[j] == m2[(ne0 + j) as u64],
                forall|o: u64| #[trigger] m2.contains_key(o) ==> m2[o].wf() && o < u64::MAX,
                forall|w: int| 0 <= w < n ==> (#[trigger] self.workers@[w]).wf(),
                forall|w: int|
                    0 <= w < n ==> (#[trigger] self.workers@[w])@ == run_ledger(
                        shard_txns(stream_of(m2, ne0 as int + k), w, n as int),
                    ),
            decreases ready@.len() - k,
        {
            let t = ready[k];
            proof {
                assert(t == m2[(ne0 + k) as u64]);
                assert(m2.contains_key((ne0 + k) as u64)) by {
                    assert(((ne0 + k) as u64) < self.reseq.next_expected());
                }
            }
            let widx = (t.account_id().0 as usize) % n;
            let ghost d_k = stream_of(m2, ne0 as int + k);
            let ghost pre_views = Seq::new(n as nat, |w: int| self.workers@[w]@);
            let _ = self.workers[widx].process_txn(t);
            proof {
                let d_k1 = stream_of(m2, ne0 as int + k + 1);
                assert(d_k1 =~= d_k.push(t));
                assert(t.account_id.0 as int % (n as int) == widx as int);
                assert forall|w: int| 0 <= w < n implies (#[trigger] self.workers@[w])@
                    == run_ledger(shard_txns(d_k1, w, n as int)) by {
                    crate::stream::lemma_shard_push(d_k, t, w, n as int);
                    if w == widx as int {
                        crate::stream::lemma_run_ledger_push(shard_txns(d_k, w, n as int), t);
                        assert(self.workers@[w]@ == ledger_step(pre_views[w], t));
                    } else {
                        assert(self.workers@[w]@ == pre_views[w]);
                    }
                }
            }
            k = k + 1;
        }
        proof {
            assert(self.reseq.delivered() =~= stream_of(m2, ne0 as int + ready@.len()));
        }
    }

    /// Signal end-of-input. If transactions are still held back, the
    /// input stream had a gap in its positions and the pipeline fails
    /// with [`ProcessorError::OrderingGap`]. Otherwise the final account
    /// states come back: exactly one account per client that appeared,
    /// each in the state that the in-order stream prescribes — so the
    /// result depends only on the set of tagged transactions submitted,
    /// not on their arrival order nor on the worker count.
    #[verifier::rlimit(60)]
    pub fn shutdown(self) -> (r: Result<Vec<Account>, ProcessorError>)
        requires
            self.inv(),
        ensures
            r is Err <==> self.pending_count() > 0,
            r matches Err(e) ==> e == (ProcessorError::OrderingGap {
                next_expected: self.next_expected(),
            }) && exists|o: u64|
                #[trigger] self.submitted().contains_key(o) && o > self.next_expected(),
            r is Ok ==> forall|o: u64|
                #[trigger] self.submitted().contains_key(o) ==> o < self.next_expected(),
            r is Ok ==> forall|o: u64|
                o < self.next_expected() ==> self.submitted().contains_key(o),
            r matches Ok(v) ==> account_ids(v@).no_duplicates(),
            r matches Ok(v) ==> forall|i: int| 0 <= i < v@.len() ==> (#[trigger] v@[i]).wf(),
            r matches Ok(v) ==> forall|i: int|
                0 <= i < v@.len() ==> run_ledger(self.delivered()).contains_key(
                    (#[trigger] v@[i])@.id,
                ) && run_ledger(self.delivered())[v@[i]@.id] == v@[i]@,
            r matches Ok(v) ==> forall|c: AccountId|
                #[trigger] run_ledger(self.delivered()).contains_key(c) ==> holds_account(v@, c),
    {
        let mut this = self;
        if this.reseq.pending.len() > 0 {
            proof {
                assert(this.reseq.pending@[0].order > this.reseq.next_expected);
                assert(self.submitted().contains_key(this.reseq.pending@[0].order));
            }
            return Err(ProcessorError::OrderingGap { next_expected: this.reseq.next_expected });
        }
        proof {
            assert forall|o: u64| #[trigger] self.submitted().contains_key(o) implies o
                < self.next_expected() by {
                if o > self.next_expected() {
                    assert(exists|i: int|
                        0 <= i < this.reseq.pending@.len() && (#[trigger] this.reseq.pending@[i]).order
                            == o);
                    assert(false);
                }
            }
        }
        let ghost n = this.workers@.len() as int;
        let ghost full = self.delivered();
        let ghost ledger = run_ledger(full);
        let ghost ws = this.workers@;
        proof {
            assert(ws.subrange(0, ws.len() as int) =~= ws);
        }
        let mut out: Vec<Account> = Vec::new();
        let mut k: usize = 0;
        let wcount = this.workers.len();
        proof {
            assert(ws.len() == wcount);
        }
        while this.workers.len() > 0
            invariant
                n == ws.len(),
                n >= 1,
                ws.len() <= usize::MAX,
                ledger == run_ledger(full),
                k + this.workers@.len() == ws.len(),
                this.workers@ == ws.subrange(k as int, ws.len() as int),
                forall|w: int| 0 <= w < ws.len() ==> (#[trigger] ws[w]).wf(),
                forall|w: int|
                    0 <= w < ws.len() ==> (#[trigger] ws[w])@ == run_ledger(
                        shard_txns(full, w, n),
                    ),
                account_ids(out@).no_duplicates(),
                forall|i: int| 0 <= i < out@.len() ==> (#[trigger] out@[i]).wf(),
                forall|i: int|
                    0 <= i < out@.len() ==> ledger.contains_key((#[trigger] out@[i])@.id)
                        && ledger[out@[i]@.id] == out@[i]@ && ((out@[i]@.id.0 as int) % n
                        < k),
                forall|c: AccountId|
                    #[trigger] ledger.contains_key(c) && (c.0 as int) % n < k ==> exists|i: int|
                        0 <= i < out@.len() && (#[trigger] out@[i])@.id == c,
            decreases this.workers@.len(),
        {
            let wk = this.workers.remove(0);
            proof {
                assert(ws.subrange(k as int, ws.len() as int)[0] == ws[k as int]);
                assert(this.workers@ =~= ws.subrange(k as int + 1, ws.len() as int));
                assert(wk == ws[k as int]);
            }
            let ghost wledger = run_ledger(shard_txns(full, k as int, n));
            let mut accs = wk.stop();
            let ghost out0 = out@;
            let ghost accs_seq = accs@;
            proof {
                assert(ws[k as int]@ == run_ledger(shard_txns(full, k as int, n)));
                assert(wk@ == wledger);
                assert forall|i: int| 0 <= i < accs_seq.len() implies ledger.contains_key(
                    (#[trigger] accs_seq[i])@.id,
                ) && ledger[accs_seq[i]@.id] == accs_seq[i]@ && (accs_seq[i]@.id.0 as int) % n
                    == k as int by {
                    assert(accs@[i] == accs_seq[i]);
                    let c = accs_seq[i]@.id;
                    assert(wledger.contains_key(c) && wledger[c] == accs_seq[i]@);
                    crate::stream::lemma_shard_ledger_members(full, c, k as int, n);
                    crate::stream::lemma_sharding_irrelevant(full, c, k as int, n);
                }
                assert forall|c: AccountId| #[trigger] wledger.contains_key(c) implies exists|
                    i: int,
                | 0 <= i < accs_seq.len() && (#[trigger] accs_seq[i])@.id == c by {
                    let i = choose|i: int|
                        0 <= i < accs@.len() && (#[trigger] accs@[i])@.id == c;
                    assert(accs_seq[i]@.id == c);
                }
            }
            out.append(&mut accs);
            proof {
                assert(out@ == out0 + accs_seq);
                assert(account_ids(out@) =~= account_ids(out0) + account_ids(accs_seq));
                let ids = account_ids(out@);
                assert forall|x: int, y: int|
                    0 <= x < ids.len() && 0 <= y < ids.len() && x != y implies ids[x] != ids[y] by {
                    assert(ids[x] == out@[x]@.id);
                    assert(ids[y] == out@[y]@.id);
                    if x < out0.len() {
                        assert(out@[x] == out0[x]);
                        assert(account_ids(out0)[x] == out0[x]@.id);
                    } else {
                        assert(out@[x] == accs_seq[x - out0.len()]);
                        assert(account_ids(accs_seq)[x - out0.len()] == accs_seq[x
                            - out0.len()]@.id);
                    }
                    if y < out0.len() {
                        assert(out@[y] == out0[y]);
                        assert(account_ids(out0)[y] == out0[y]@.id);
                    } else {
                        assert(out@[y] == accs_seq[y - out0.len()]);
                        assert(account_ids(accs_seq)[y - out0.len()] == accs_seq[y
                            - out0.len()]@.id);
                    }
                }
                assert forall|c: AccountId|
                    #[trigger] ledger.contains_key(c) && (c.0 as int) % n < k + 1 implies exists|
                    i: int,
                |
                    0 <= i < out@.len() && (#[trigger] out@[i])@.id == c by {
                    if (c.0 as int) % n < k {
                        let i = choose|i: int|
                            0 <= i < out0.len() && (#[trigger] out0[i])@.id == c;
                        assert(out@[i]@.id == c);
                    } else {
                        assert((c.0 as int) % n == k as int);
                        crate::stream::lemma_sharding_irrelevant(full, c, k as int, n);
                        assert(wledger.contains_key(c));
                        let i = choose|i: int|
                            0 <= i < accs_seq.len() && (#[trigger] accs_seq[i])@.id == c;
                        assert(out@[out0.len() + i]@.id == c);
                    }
                }
                assert(k < ws.len());
            }
            k = k + 1;
        }
        proof {
            assert(run_ledger(self.delivered()) == ledger);
            assert forall|c: AccountId|
                #[trigger] run_ledger(self.delivered()).contains_key(c) implies holds_account(
                out@,
                c,
            ) by {
                assert(ledger.contains_key(c));
                assert(0 <= (c.0 as int) % n < n);
            }
        }
        Ok(out)
    }
}

/// The pipeline forwards eagerly: every arrived stream position below
/// `next_expected` has been forwarded, the forwarded prefix is exactly
/// the submissions at those positions in ascending order, and position
/// `next_expected` itself has not arrived yet — a deliverable
/// transaction is never held back.
pub proof fn lemma_forwarding_is_eager(p: &TransactionProcessor)
    requires
        p.inv(),
    ensures
        p.delivered() == stream_of(p.submitted(), p.next_expected() as int),
        !p.submitted().contains_key(p.next_expected()),
        forall|o: u64| o < p.next_expected() ==> p.submitted().contains_key(o),
{
}

/// A gap-free input drains completely: when the arrived stream positions
/// are exactly `0 .. n`, the pipeline has forwarded all of them and
/// holds nothing back — so shutdown succeeds and returns the ledger of
/// that stream.
pub proof fn lemma_complete_stream_is_drained(p: &TransactionProcessor, n: u64)
    requires
        p.inv(),
        forall|o: u64| #[trigger] p.submitted().contains_key(o) <==> o < n,
    ensures
        p.next_expected() == n,
        p.pending_count() == 0,
{
    if p.next_expected() < n {
        assert(p.submitted().contains_key(p.next_expected()));
        assert(false);
    }
    if n < p.next_expected() {
        assert(p.submitted().contains_key(n));
        assert(false);
    }
    if p.reseq.pending@.len() > 0 {
        let o = p.reseq.pending@[0].order;
        assert(p.submitted().contains_key(o));
        assert(o > p.next_expected());
        assert(false);
    }
}

/// The worker count is irrelevant: two pipelines fed the same tagged
/// transactions forward the same in-order prefix, and either both can
/// shut down cleanly or neither can — whatever their worker counts. At
/// shutdown each then hands back the ledger of that same stream.
pub proof fn lemma_worker_count_irrelevant(
    p1: &TransactionProcessor,
    p2: &TransactionProcessor,
)
    requires
        p1.inv(),
        p2.inv(),
        p1.submitted() == p2.submitted(),
    ensures
        p1.next_expected() == p2.next_expected(),
        p1.delivered() == p2.delivered(),
        p1.pending_count() == 0 <==> p2.pending_count() == 0,
{
    assert(p1.next_expected() == p2.next_expected()) by {
        if p1.next_expected() < p2.next_expected() {
            assert(p2.submitted().contains_key(p1.next_expected()));
            assert(false);
        }
        if p2.next_expected() < p1.next_expected() {
            assert(p1.submitted().contains_key(p2.next_expected()));
            assert(false);
        }
    }
    assert(p1.delivered() =~= p2.delivered());
    if p1.pending_count() == 0 {
        lemma_drained_carries_over(p1, p2);
    }
    if p2.pending_count() == 0 {
        lemma_drained_carries_over(p2, p1);
    }
}

/// If one pipeline over a submission map has forwarded everything, so
/// has any other pipeline over the same map.
proof fn lemma_drained_carries_over(p1: &TransactionProcessor, p2: &TransactionProcessor)
    requires
        p1.inv(),
        p2.inv(),
        p1.submitted() == p2.submitted(),
        p1.next_expected() == p2.next_expected(),
        p1.pending_count() == 0,
    ensures
        p2.pending_count() == 0,
{
    if p2.reseq.pending@.len() > 0 {
        let o = p2.reseq.pending@[0].order;
        assert(p2.submitted().contains_key(o) && o > p2.next_expected());
        assert(exists|i: int|
            0 <= i < p1.reseq.pending@.len() && (#[trigger] p1.reseq.pending@[i]).order == o);
        assert(false);
    }
}

/// Arrival order is irrelevant: two pipelines over the same worker count
/// that were fed the same tagged transactions — in any two arrival
/// orders — are in identical states: the same forwarded in-order prefix
/// and the same ledger at every worker.
pub proof fn lemma_arrival_order_irrelevant(
    p1: &TransactionProcessor,
    p2: &TransactionProcessor,
)
    requires
        p1.inv(),
        p2.inv(),
        p1.submitted() == p2.submitted(),
        p1.num_workers() == p2.num_workers(),
    ensures
        p1.next_expected() == p2.next_expected(),
        p1.delivered() == p2.delivered(),
        forall|w: int| 0 <= w < p1.num_workers() ==> p1.worker_view(w) == p2.worker_view(w),
{
    lemma_worker_count_irrelevant(p1, p2);
}

} // verus!
