//! The meaning of a whole transaction stream.
//!
//! A stream is processed in order; each transaction advances the account
//! of its client (created lazily) by the state machine of
//! [`crate::models::account`]. Rejected transactions change nothing. The
//! lemmas here state the global laws: locked accounts never move again, an
//! account ends locked exactly when a chargeback succeeded for it, each
//! account's final state depends only on its own transactions, and
//! therefore the final ledger does not depend on how clients are sharded
//! across workers.

use vstd::prelude::*;

use crate::models::account::{fresh_account, txn_outcome, AccountId, AccountView};
use crate::models::transaction::{Transaction, TransactionType};

verus! {

/// The account state after one transaction: the prescribed next state on
/// success, the unchanged state on a rejection.
pub open spec fn account_step(a: AccountView, txn: Transaction) -> AccountView {
    match txn_outcome(a, txn) {
        Ok(v) => v,
        Err(_) => a,
    }
}

/// The account state after a sequence of transactions, applied in order.
pub open spec fn run_account(a: AccountView, ts: Seq<Transaction>) -> AccountView
    decreases ts.len(),
{
    if ts.len() == 0 {
        a
    } else {
        account_step(run_account(a, ts.drop_last()), ts.last())
    }
}

/// The account a ledger holds for a client: the stored one, or a fresh
/// account the first time the client appears.
pub open spec fn ledger_account(m: Map<AccountId, AccountView>, c: AccountId) -> AccountView {
    if m.contains_key(c) {
        m[c]
    } else {
        fresh_account(c)
    }
}

/// One step of the whole-ledger semantics: the targeted account advances
/// by one transaction; every other account is untouched.
pub open spec fn ledger_step(m: Map<AccountId, AccountView>, txn: Transaction) -> Map<
    AccountId,
    AccountView,
> {
    m.insert(txn.account_id, account_step(ledger_account(m, txn.account_id), txn))
}

/// The ledger after an in-order transaction stream: one account per
/// client that appeared.
pub open spec fn run_ledger(ts: Seq<Transaction>) -> Map<AccountId, AccountView>
    decreases ts.len(),
{
    if ts.len() == 0 {
        Map::empty()
    } else {
        ledger_step(run_ledger(ts.drop_last()), ts.last())
    }
}

/// The subsequence of a stream addressed to one client, in stream order.
pub open spec fn client_txns(ts: Seq<Transaction>, c: AccountId) -> Seq<Transaction>
    decreases ts.len(),
{
    if ts.len() == 0 {
        Seq::empty()
    } else if ts.last().account_id == c {
        client_txns(ts.drop_last(), c).push(ts.last())
    } else {
        client_txns(ts.drop_last(), c)
    }
}

/// The subsequence of a stream owned by worker `w` out of `n`: the
/// transactions whose client id is congruent to `w` modulo `n`.
pub open spec fn shard_txns(ts: Seq<Transaction>, w: int, n: int) -> Seq<Transaction>
    decreases ts.len(),
{
    if ts.len() == 0 {
        Seq::empty()
    } else if ts.last().account_id.0 as int % n == w {
        shard_txns(ts.drop_last(), w, n).push(ts.last())
    } else {
        shard_txns(ts.drop_last(), w, n)
    }
}

/// Appending one transaction advances the ledger by one step.
pub proof fn lemma_run_ledger_push(s: Seq<Transaction>, t: Transaction)
    ensures
        run_ledger(s.push(t)) == ledger_step(run_ledger(s), t),
{
    assert(s.push(t).drop_last() =~= s);
    assert(s.push(t).last() == t);
}

/// Appending one transaction extends exactly the shard that owns its
/// client.
pub proof fn lemma_shard_push(s: Seq<Transaction>, t: Transaction, w: int, n: int)
    requires
        n >= 1,
    ensures
        shard_txns(s.push(t), w, n) == if t.account_id.0 as int % n == w {
            shard_txns(s, w, n).push(t)
        } else {
            shard_txns(s, w, n)
        },
{
    assert(s.push(t).drop_last() =~= s);
    assert(s.push(t).last() == t);
}

/// A locked account is inert: every further transaction is rejected, so
/// any stream leaves it exactly as it is.
pub proof fn lemma_locked_account_is_inert(a: AccountView, ts: Seq<Transaction>)
    requires
        a.locked,
    ensures
        run_account(a, ts) == a,
    decreases ts.len(),
{
    if ts.len() > 0 {
        lemma_locked_account_is_inert(a, ts.drop_last());
    }
}

/// A chargeback stood at position `i` of the stream and succeeded when
/// its turn came.
pub open spec fn chargeback_applied_at(a: AccountView, ts: Seq<Transaction>, i: int) -> bool {
    &&& 0 <= i < ts.len()
    &&& (#[trigger] ts[i]).txn_type is Chargeback
    &&& txn_outcome(run_account(a, ts.take(i)), ts[i]) is Ok
}

/// An account ends locked exactly when some chargeback of its stream
/// succeeded. (Starting from any unlocked state, in particular a fresh
/// account.)
pub proof fn lemma_locked_iff_chargeback(a: AccountView, ts: Seq<Transaction>)
    requires
        !a.locked,
    ensures
        run_account(a, ts).locked <==> exists|i: int| chargeback_applied_at(a, ts, i),
    decreases ts.len(),
{
    if ts.len() == 0 {
    } else {
        let prefix = ts.drop_last();
        let mid = run_account(a, prefix);
        let post = run_account(a, ts);
        lemma_locked_iff_chargeback(a, prefix);
        assert(ts.take(ts.len() - 1) =~= prefix);
        assert forall|i: int| 0 <= i < prefix.len() implies ts.take(i) =~= prefix.take(i) by {}
        assert forall|i: int| chargeback_applied_at(a, prefix, i) implies chargeback_applied_at(
            a,
            ts,
            i,
        ) by {
            assert(ts.take(i) =~= prefix.take(i));
            assert(ts[i] == prefix[i]);
        }
        if mid.locked {
            assert(post == mid);
            let i = choose|i: int| chargeback_applied_at(a, prefix, i);
            assert(chargeback_applied_at(a, ts, i));
        } else {
            if post.locked {
                assert(chargeback_applied_at(a, ts, ts.len() - 1));
            }
            if exists|i: int| chargeback_applied_at(a, ts, i) {
                let i = choose|i: int| chargeback_applied_at(a, ts, i);
                if i < ts.len() - 1 {
                    assert(ts.take(i) =~= prefix.take(i));
                    assert(prefix[i] == ts[i]);
                    assert(chargeback_applied_at(a, prefix, i));
                    assert(mid.locked);
                } else {
                    assert(post.locked);
                }
            }
        }
    }
}

/// A client appears in the final ledger exactly when some transaction
/// addressed it.
pub proof fn lemma_client_txns_nonempty(ts: Seq<Transaction>, c: AccountId)
    ensures
        client_txns(ts, c).len() > 0 <==> exists|i: int|
            0 <= i < ts.len() && (#[trigger] ts[i]).account_id == c,
    decreases ts.len(),
{
    if ts.len() > 0 {
        lemma_client_txns_nonempty(ts.drop_last(), c);
        if ts.last().account_id == c {
            assert(ts[ts.len() - 1].account_id == c);
        } else {
            if exists|i: int| 0 <= i < ts.len() && (#[trigger] ts[i]).account_id == c {
                let i = choose|i: int| 0 <= i < ts.len() && (#[trigger] ts[i]).account_id == c;
                assert(ts.drop_last()[i].account_id == c);
            }
        }
    }
}

/// Each account of the final ledger is exactly the fold of that client's
/// own transactions over a fresh account: processing is independent
/// per client.
pub proof fn lemma_ledger_per_client(ts: Seq<Transaction>, c: AccountId)
    ensures
        run_ledger(ts).contains_key(c) <==> client_txns(ts, c).len() > 0,
        run_ledger(ts).contains_key(c) ==> run_ledger(ts)[c] == run_account(
            fresh_account(c),
            client_txns(ts, c),
        ),
    decreases ts.len(),
{
    if ts.len() > 0 {
        let prefix = ts.drop_last();
        lemma_ledger_per_client(prefix, c);
        if ts.last().account_id == c {
            let ct = client_txns(prefix, c);
            assert(ct.push(ts.last()).drop_last() =~= ct);
            assert(run_account(fresh_account(c), ct.push(ts.last())) == account_step(
                run_account(fresh_account(c), ct),
                ts.last(),
            ));
            if !run_ledger(prefix).contains_key(c) {
                assert(ct.len() == 0);
            }
        }
    }
}

/// Every transaction of a shard belongs to that shard's clients.
pub proof fn lemma_shard_txns_members(ts: Seq<Transaction>, w: int, n: int)
    requires
        n >= 1,
    ensures
        forall|k: int|
            0 <= k < shard_txns(ts, w, n).len() ==> (#[trigger] shard_txns(ts, w, n)[k]).account_id.0
                as int % n == w,
    decreases ts.len(),
{
    if ts.len() > 0 {
        lemma_shard_txns_members(ts.drop_last(), w, n);
    }
}

/// Restricting a shard to one of its clients gives the same subsequence
/// as restricting the whole stream to that client.
pub proof fn lemma_shard_client_txns(ts: Seq<Transaction>, c: AccountId, w: int, n: int)
    requires
        n >= 1,
        c.0 as int % n == w,
    ensures
        client_txns(shard_txns(ts, w, n), c) == client_txns(ts, c),
    decreases ts.len(),
{
    if ts.len() > 0 {
        let prefix = ts.drop_last();
        lemma_shard_client_txns(prefix, c, w, n);
        let sp = shard_txns(prefix, w, n);
        if ts.last().account_id.0 as int % n == w {
            assert(sp.push(ts.last()).drop_last() =~= sp);
            assert(sp.push(ts.last()).last() == ts.last());
        } else {
            assert(ts.last().account_id != c);
        }
    }
}

/// Sharding is irrelevant: for a client of shard `w`, the ledger of that
/// shard's stream agrees with the ledger of the whole stream. Together
/// with [`lemma_shard_txns_members`] this says that merging the workers'
/// ledgers, for any worker count, reproduces the single ledger of the
/// in-order stream.
pub proof fn lemma_sharding_irrelevant(ts: Seq<Transaction>, c: AccountId, w: int, n: int)
    requires
        n >= 1,
        c.0 as int % n == w,
    ensures
        run_ledger(shard_txns(ts, w, n)).contains_key(c) <==> run_ledger(ts).contains_key(c),
        run_ledger(ts).contains_key(c) ==> run_ledger(shard_txns(ts, w, n))[c] == run_ledger(
            ts,
        )[c],
{
    let shard = shard_txns(ts, w, n);
    lemma_ledger_per_client(ts, c);
    lemma_ledger_per_client(shard, c);
    lemma_shard_client_txns(ts, c, w, n);
}

/// Clients outside shard `w` never appear in that shard's ledger.
pub proof fn lemma_shard_ledger_members(ts: Seq<Transaction>, c: AccountId, w: int, n: int)
    requires
        n >= 1,
    ensures
        run_ledger(shard_txns(ts, w, n)).contains_key(c) ==> c.0 as int % n == w,
{
    let shard = shard_txns(ts, w, n);
    lemma_ledger_per_client(shard, c);
    lemma_shard_txns_members(ts, w, n);
    if run_ledger(shard).contains_key(c) {
        lemma_client_txns_nonempty(shard, c);
        let i = choose|i: int| 0 <= i < shard.len() && (#[trigger] shard[i]).account_id == c;
        assert(shard[i].account_id.0 as int % n == w);
    }
}

} // verus!
