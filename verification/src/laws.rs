//! The laws the transaction engine obeys, stated and proved over the same
//! spec functions its contracts use.

use vstd::prelude::*;
use crate::db::db_has_cf;
use crate::db::db_cf_at;
use crate::db::db_mod_seq;
use crate::db::db_wf;
use crate::db::cf_recs;
use crate::db::Db;
use crate::store::has_key;
use crate::store::key_at;
use crate::store::merge_concat;
use crate::store::Op;
use crate::txn::commit_ok;
use crate::txn::local_resolve;
use crate::txn::txn_base;
use crate::txn::txn_read;
use crate::txn::IntentOp;
use crate::txn::Transaction;

verus! {

/// The concatenating merge policy is associative: resolving one operand
/// after another leaves the same value as resolving their concatenation at
/// once, so merge operands may be folded lazily in any grouping, in call
/// order.
pub proof fn lemma_merge_concat_assoc(prev: Option<Seq<u8>>, o1: Seq<u8>, o2: Seq<u8>)
    ensures
        merge_concat(Option::Some(merge_concat(prev, o1)), o2) == merge_concat(prev, o1 + o2),
{
    match prev {
        Option::Some(v) => {
            assert((v + o1) + o2 =~= v + (o1 + o2));
        },
        Option::None => {
            assert(o1 + o2 =~= o1 + o2);
        },
    }
}

/// However the store stands, a transaction's own read of a key reflects its
/// most recent buffered `Put` or `Delete` of that key: a `Put` is read back
/// as its value, a `Delete` as not found, and the store's concurrent state
/// cannot show through.
///
/// `i` is the position of the last buffered write of `(n, k)`; the two base
/// values stand for any two states of the store.
pub proof fn lemma_local_write_wins(
    intent: Seq<IntentOp>,
    n: Seq<char>,
    k: Seq<u8>,
    base1: Option<Seq<u8>>,
    base2: Option<Seq<u8>>,
    i: int,
)
    requires
        0 <= i < intent.len(),
        intent[i].cf@ == n,
        intent[i].key@ == k,
        intent[i].op is Put || intent[i].op is Delete,
        forall|j: int|
            i < j < intent.len() ==> !((#[trigger] intent[j]).cf@ == n && intent[j].key@ == k),
    ensures
        intent[i].op matches Op::Put(v) ==> local_resolve(intent, n, k, base1) == Option::Some(
            v@,
        ),
        intent[i].op is Delete ==> local_resolve(intent, n, k, base1) == Option::<Seq<u8>>::None,
        local_resolve(intent, n, k, base1) == local_resolve(intent, n, k, base2),
    decreases intent.len(),
{
    if i == intent.len() - 1 {
        // the last entry of the log decides on its own
    } else {
        let shorter = intent.drop_last();
        assert(shorter[i] == intent[i]);
        assert forall|j: int|
            i < j < shorter.len() implies !((#[trigger] shorter[j]).cf@ == n && shorter[j].key@
            == k) by {
            assert(shorter[j] == intent[j]);
        }
        lemma_local_write_wins(shorter, n, k, base1, base2, i);
        assert(!(intent.last().cf@ == n && intent.last().key@ == k));
    }
}

/// The same law at the transaction level: whatever else was committed to
/// the store meanwhile, the transaction's own read of the key is its last
/// buffered `Put` or `Delete` of it, identical over any two store states.
pub proof fn lemma_txn_read_local_write(t: Transaction, db1: Db, db2: Db, n: Seq<char>, k: Seq<u8>, i: int)
    requires
        0 <= i < t.intent@.len(),
        t.intent@[i].cf@ == n,
        t.intent@[i].key@ == k,
        t.intent@[i].op is Put || t.intent@[i].op is Delete,
        forall|j: int|
            i < j < t.intent@.len() ==> !((#[trigger] t.intent@[j]).cf@ == n && t.intent@[j].key@
                == k),
    ensures
        t.intent@[i].op matches Op::Put(v) ==> txn_read(t, db1, n, k) == Option::Some(v@),
        t.intent@[i].op is Delete ==> txn_read(t, db1, n, k) == Option::<Seq<u8>>::None,
        txn_read(t, db1, n, k) == txn_read(t, db2, n, k),
{
    lemma_local_write_wins(
        t.intent@,
        n,
        k,
        txn_base(t, db1, n, k),
        txn_base(t, db2, n, k),
        i,
    );
}

/// In a well-formed store no key was last written after the store's own
/// sequence number.
pub proof fn lemma_db_mod_seq_bounded(db: Db, n: Seq<char>, k: Seq<u8>)
    requires
        db_wf(db),
    ensures
        db_mod_seq(db, n, k) <= db.seq,
{
    if db_has_cf(db, n) {
        let ci = db_cf_at(db, n);
        let s = cf_recs(db, n);
        if has_key(s, k) {
            let t = key_at(s, k);
            assert(s[t] == db.cfs@[ci].store.recs@[t]);
        }
    }
}

/// A transaction whose every buffered write observed the store's current
/// sequence number or later passes commit validation; in particular, writes
/// recorded against the store as it stands now always validate against it.
pub proof fn lemma_commit_ok_observed_current(t: Transaction, db: Db)
    requires
        db_wf(db),
        forall|i: int| 0 <= i < t.intent@.len() ==> (#[trigger] t.intent@[i]).obs >= db.seq,
    ensures
        commit_ok(t, db),
{
    assert forall|i: int|
        0 <= i < t.intent@.len() implies db_mod_seq(
        db,
        (#[trigger] t.intent@[i]).cf@,
        t.intent@[i].key@,
    ) <= t.intent@[i].obs by {
        lemma_db_mod_seq_bounded(db, t.intent@[i].cf@, t.intent@[i].key@);
    }
}

/// Commits that touch none of a transaction's keys cannot make it fail:
/// when the store moves from `pre` to `post` without changing the
/// last-write sequence number of any key the transaction wrote — which is
/// what `write` and `commit` guarantee for every key outside their batch —
/// a transaction that would have validated against `pre` still validates
/// against `post`.  With `commit`'s contract, its commit then returns `Ok`.
pub proof fn lemma_commit_ok_disjoint(t: Transaction, pre: Db, post: Db)
    requires
        commit_ok(t, pre),
        forall|i: int|
            0 <= i < t.intent@.len() ==> db_mod_seq(
                post,
                (#[trigger] t.intent@[i]).cf@,
                t.intent@[i].key@,
            ) == db_mod_seq(pre, t.intent@[i].cf@, t.intent@[i].key@),
    ensures
        commit_ok(t, post),
{
}

/// Two transactions begun on the same snapshot racing on one key: after the
/// first commits a write of `(n, k)` — raising that key's last-write
/// sequence number past the shared snapshot — the second, holding a
/// buffered write of `(n, k)` observed at that snapshot, can no longer pass
/// commit validation.  With `commit`'s contract, its commit then fails with
/// `Conflict` and the store is untouched.
pub proof fn lemma_snapshot_write_conflict(
    t2: Transaction,
    pre: Db,
    post: Db,
    n: Seq<char>,
    k: Seq<u8>,
    i: int,
)
    requires
        0 <= i < t2.intent@.len(),
        t2.intent@[i].cf@ == n,
        t2.intent@[i].key@ == k,
        t2.intent@[i].obs <= pre.seq,
        db_mod_seq(post, n, k) > pre.seq,
    ensures
        !commit_ok(t2, post),
{
    assert(db_mod_seq(post, t2.intent@[i].cf@, t2.intent@[i].key@) > t2.intent@[i].obs);
}

} // verus!
