//! Cursors over a keyspace or over a transaction's merged view, in byte-wise
//! lexicographic key order.

use vstd::prelude::*;
use crate::bytes::bytes_lt;
use crate::bytes::copy_bytes;
use crate::bytes::lemma_lex_lt_asym;
use crate::bytes::lemma_lex_lt_connex;
use crate::bytes::lex_le;
use crate::bytes::lex_lt;
use crate::db::db_current;
use crate::db::db_wf;
use crate::db::lemma_db_cf_at;
use crate::db::Db;
use crate::errors::Error;
use crate::options::default_name;
use crate::snapshot::Snapshot;
use crate::store::current;
use crate::store::get_at;
use crate::store::has_key;
use crate::store::key_at;
use crate::store::lemma_key_at;
use crate::store::opt_bytes;
use crate::store::records_wf;
use crate::store::store_bounded;
use crate::store::value_at;
use crate::store::Record;
use crate::store::Store;
use crate::store::Version;
use crate::txn::local_resolve;
use crate::txn::txn_base;
use crate::txn::txn_read;
use crate::txn::Transaction;

verus! {

/// One entry a cursor walks over.
#[derive(Debug)]
pub struct KvPair {
    pub key: Vec<u8>,
    pub value: Vec<u8>,
}

/// Entries stand in strictly increasing key order.
pub open spec fn kv_sorted(es: Seq<KvPair>) -> bool {
    forall|i: int, j: int| 0 <= i < j < es.len() ==> lex_lt(es[i].key@, es[j].key@)
}

/// Whether some entry holds key `k`.
pub open spec fn kv_has(es: Seq<KvPair>, k: Seq<u8>) -> bool {
    exists|i: int| 0 <= i < es.len() && es[i].key@ == k
}

/// The index of the entry holding key `k` (unique when sorted).
pub open spec fn kv_at(es: Seq<KvPair>, k: Seq<u8>) -> int {
    choose|i: int| 0 <= i < es.len() && es[i].key@ == k
}

/// The value the entries hold under key `k`, `None` when the key is absent.
pub open spec fn kv_val(es: Seq<KvPair>, k: Seq<u8>) -> Option<Seq<u8>> {
    if kv_has(es, k) {
        Option::Some(es[kv_at(es, k)].value@)
    } else {
        Option::None
    }
}

/// In sorted entries the index of a key is unique.
pub proof fn lemma_kv_at(es: Seq<KvPair>, k: Seq<u8>, i: int)
    requires
        kv_sorted(es),
        0 <= i < es.len(),
        es[i].key@ == k,
    ensures
        kv_has(es, k),
        kv_at(es, k) == i,
{
    assert(kv_has(es, k));
    let j = kv_at(es, k);
    if j < i {
        lemma_lex_lt_asym(es[j].key@, es[i].key@);
    } else if j > i {
        lemma_lex_lt_asym(es[i].key@, es[j].key@);
    }
}

/// The entries of a keyspace as of sequence number `q`: every key stored
/// with a value at `q`, in order.
#[verifier::loop_isolation(false)]
fn store_entries(s: &Store, q: u64) -> (r: Vec<KvPair>)
    requires
        records_wf(s.recs@),
    ensures
        kv_sorted(r@),
        forall|k: Seq<u8>| #[trigger] kv_val(r@, k) == get_at(s.recs@, k, q),
{
    let n = s.recs.len();
    let mut out: Vec<KvPair> = Vec::new();
    let mut i: usize = 0;
    while i < n
        invariant
            0 <= i <= n,
            n == s.recs@.len(),
            kv_sorted(out@),
            forall|a: int|
                0 <= a < out@.len() ==> exists|t: int|
                    0 <= t < i && (#[trigger] out@[a]).key@ == s.recs@[t].key@,
            forall|t: int|
                0 <= t < i ==> match value_at((#[trigger] s.recs@[t]).versions@, q) {
                    Option::Some(v) => kv_has(out@, s.recs@[t].key@) && kv_val(
                        out@,
                        s.recs@[t].key@,
                    ) == Option::Some(v),
                    Option::None => !kv_has(out@, s.recs@[t].key@),
                },
        decreases n - i,
    {
        let ghost pre = out@;
        let rec = &s.recs[i];
        match s.read_at(rec.key.as_slice(), q) {
            Option::Some(v) => {
                proof {
                    lemma_key_at(s.recs@, s.recs@[i as int].key@, i as int);
                }
                out.push(KvPair { key: copy_bytes(rec.key.as_slice()), value: v });
                proof {
                    let es = out@;
                    let m = es.len() - 1;
                    assert(es[m].key@ == s.recs@[i as int].key@);
                    assert(forall|a: int| 0 <= a < m ==> es[a] == pre[a]);
                    assert forall|a: int, b: int| 0 <= a < b < es.len() implies lex_lt(
                        es[a].key@,
                        es[b].key@,
                    ) by {
                        if b == m {
                            let t = choose|t: int|
                                0 <= t < i && (#[trigger] pre[a]).key@ == s.recs@[t].key@;
                            assert(lex_lt(s.recs@[t].key@, s.recs@[i as int].key@));
                        }
                    }
                    assert forall|a: int| 0 <= a < es.len() implies exists|t: int|
                        0 <= t < i + 1 && (#[trigger] es[a]).key@ == s.recs@[t].key@ by {
                        if a < m {
                            let t = choose|t: int|
                                0 <= t < i && (#[trigger] pre[a]).key@ == s.recs@[t].key@;
                            assert(0 <= t < i + 1 && es[a].key@ == s.recs@[t].key@);
                        } else {
                            assert(0 <= i < i + 1 && es[a].key@ == s.recs@[i as int].key@);
                        }
                    }
                    lemma_kv_at(es, s.recs@[i as int].key@, m);
                    assert forall|t: int|
                        0 <= t < i + 1 implies match value_at(
                        (#[trigger] s.recs@[t]).versions@,
                        q,
                    ) {
                        Option::Some(v2) => kv_has(es, s.recs@[t].key@) && kv_val(
                            es,
                            s.recs@[t].key@,
                        ) == Option::Some(v2),
                        Option::None => !kv_has(es, s.recs@[t].key@),
                    } by {
                        if t < i {
                            assert(s.recs@[t].key@ != s.recs@[i as int].key@) by {
                                lemma_lex_lt_asym(s.recs@[t].key@, s.recs@[i as int].key@);
                            }
                            if kv_has(pre, s.recs@[t].key@) {
                                let w = kv_at(pre, s.recs@[t].key@);
                                lemma_kv_at(pre, s.recs@[t].key@, w);
                                lemma_kv_at(es, s.recs@[t].key@, w);
                            } else {
                                if kv_has(es, s.recs@[t].key@) {
                                    let w = kv_at(es, s.recs@[t].key@);
                                    assert(w != m);
                                    assert(pre[w].key@ == s.recs@[t].key@);
                                }
                            }
                        }
                    }
                }
            },
            Option::None => {
                proof {
                    lemma_key_at(s.recs@, s.recs@[i as int].key@, i as int);
                    assert(!kv_has(out@, s.recs@[i as int].key@)) by {
                        if kv_has(out@, s.recs@[i as int].key@) {
                            let w = kv_at(out@, s.recs@[i as int].key@);
                            let t = choose|t: int|
                                0 <= t < i && (#[trigger] out@[w]).key@ == s.recs@[t].key@;
                            lemma_lex_lt_asym(s.recs@[t].key@, s.recs@[i as int].key@);
                        }
                    }
                }
            },
        }
        i = i + 1;
    }
    proof {
        assert forall|k: Seq<u8>| #[trigger] kv_val(out@, k) == get_at(s.recs@, k, q) by {
            if has_key(s.recs@, k) {
                let t = key_at(s.recs@, k);
                lemma_key_at(s.recs@, k, t);
            } else {
                if kv_has(out@, k) {
                    let w = kv_at(out@, k);
                    let t = choose|t: int|
                        0 <= t < n && (#[trigger] out@[w]).key@ == s.recs@[t].key@;
                    assert(has_key(s.recs@, k));
                }
            }
        }
    }
    out
}

/// A one-version copy of a keyspace as it stood at sequence number `q`,
/// ready for a transaction's writes to be folded in.
#[verifier::loop_isolation(false)]
fn snapshot_records(s: &Store, q: u64) -> (r: Store)
    requires
        records_wf(s.recs@),
    ensures
        records_wf(r.recs@),
        store_bounded(r.recs@, 0),
        forall|k: Seq<u8>| #[trigger] current(r.recs@, k) == get_at(s.recs@, k, q),
{
    let n = s.recs.len();
    let mut out: Vec<Record> = Vec::new();
    let mut i: usize = 0;
    while i < n
        invariant
            0 <= i <= n,
            n == s.recs@.len(),
            out@.len() == i,
            forall|t: int| 0 <= t < i ==> (#[trigger] out@[t]).key@ == s.recs@[t].key@,
            forall|t: int|
                0 <= t < i ==> (#[trigger] out@[t]).versions@.len() == 1 && out@[t].versions@[0].seq
                    == 0 && opt_bytes(out@[t].versions@[0].value) == get_at(
                    s.recs@,
                    s.recs@[t].key@,
                    q,
                ),
        decreases n - i,
    {
        let rec = &s.recs[i];
        let val = s.read_at(rec.key.as_slice(), q);
        let mut vs: Vec<Version> = Vec::new();
        vs.push(Version { seq: 0, value: val });
        out.push(Record { key: copy_bytes(rec.key.as_slice()), versions: vs });
        proof {
            lemma_key_at(s.recs@, s.recs@[i as int].key@, i as int);
        }
        i = i + 1;
    }
    let r = Store { recs: out };
    proof {
        assert(records_wf(r.recs@));
        assert forall|k: Seq<u8>| #[trigger] current(r.recs@, k) == get_at(s.recs@, k, q) by {
            if has_key(s.recs@, k) {
                let t = key_at(s.recs@, k);
                lemma_key_at(s.recs@, k, t);
                assert(r.recs@[t].key@ == k);
                lemma_key_at(r.recs@, k, t);
                assert(r.recs@[t].versions@.last() == r.recs@[t].versions@[0]);
            } else {
                if has_key(r.recs@, k) {
                    let t = key_at(r.recs@, k);
                    assert(s.recs@[t].key@ == k);
                }
            }
        }
    }
    r
}

/// A cursor over fixed entries in increasing key order.  A fresh cursor is
/// not valid until positioned; moving past either end makes it invalid, and
/// an invalid cursor stays invalid until positioned again.
#[derive(Debug)]
pub struct Iter {
    pub entries: Vec<KvPair>,
    pub pos: Option<usize>,
}

/// The entries are sorted and the position, if any, is in range.
pub open spec fn iter_wf(it: Iter) -> bool {
    &&& kv_sorted(it.entries@)
    &&& it.pos matches Option::Some(i) ==> i < it.entries@.len()
}

impl Iter {
    /// Whether the cursor stands on an entry.
    pub fn valid(&self) -> (r: bool)
        ensures
            r == (self.pos is Some),
    {
        self.pos.is_some()
    }

    /// The key under the cursor, if it stands on an entry.
    pub fn key(&self) -> (r: Option<Vec<u8>>)
        requires
            iter_wf(*self),
        ensures
            match self.pos {
                Option::Some(i) => r matches Option::Some(k) && k@ == self.entries@[i as int].key@,
                Option::None => r is None,
            },
    {
        match self.pos {
            Option::Some(i) => Option::Some(copy_bytes(self.entries[i].key.as_slice())),
            Option::None => Option::None,
        }
    }

    /// The value under the cursor, if it stands on an entry.
    pub fn value(&self) -> (r: Option<Vec<u8>>)
        requires
            iter_wf(*self),
        ensures
            match self.pos {
                Option::Some(i) => r matches Option::Some(v) && v@
                    == self.entries@[i as int].value@,
                Option::None => r is None,
            },
    {
        match self.pos {
            Option::Some(i) => Option::Some(copy_bytes(self.entries[i].value.as_slice())),
            Option::None => Option::None,
        }
    }

    /// Stand on the first entry; invalid when there is none.
    pub fn seek_to_first(&mut self)
        requires
            iter_wf(*old(self)),
        ensures
            iter_wf(*final(self)),
            final(self).entries == old(self).entries,
            final(self).pos == if old(self).entries@.len() > 0 {
                Option::Some(0usize)
            } else {
                Option::<usize>::None
            },
    {
        if self.entries.len() > 0 {
            self.pos = Option::Some(0);
        } else {
            self.pos = Option::None;
        }
    }

    /// Stand on the last entry; invalid when there is none.
    pub fn seek_to_last(&mut self)
        requires
            iter_wf(*old(self)),
        ensures
            iter_wf(*final(self)),
            final(self).entries == old(self).entries,
            final(self).pos == if old(self).entries@.len() > 0 {
                Option::Some((old(self).entries@.len() - 1) as usize)
            } else {
                Option::<usize>::None
            },
    {
        let n = self.entries.len();
        if n > 0 {
            self.pos = Option::Some(n - 1);
        } else {
            self.pos = Option::None;
        }
    }

    /// Stand on the smallest stored key at or after `key`; invalid when
    /// every stored key is before it.
    #[verifier::loop_isolation(false)]
    pub fn seek(&mut self, key: &[u8])
        requires
            iter_wf(*old(self)),
        ensures
            iter_wf(*final(self)),
            final(self).entries == old(self).entries,
            match final(self).pos {
                Option::Some(i) => {
                    &&& 0 <= i < old(self).entries@.len()
                    &&& lex_le(key@, old(self).entries@[i as int].key@)
                    &&& forall|j: int|
                        0 <= j < i ==> lex_lt((#[trigger] old(self).entries@[j]).key@, key@)
                },
                Option::None => forall|j: int|
                    0 <= j < old(self).entries@.len() ==> lex_lt(
                        (#[trigger] old(self).entries@[j]).key@,
                        key@,
                    ),
            },
    {
        let n = self.entries.len();
        let mut i: usize = 0;
        while i < n && bytes_lt(self.entries[i].key.as_slice(), key)
            invariant
                0 <= i <= n,
                forall|j: int| 0 <= j < i ==> lex_lt((#[trigger] self.entries@[j]).key@, key@),
            decreases n - i,
        {
            i = i + 1;
        }
        if i < n {
            proof {
                lemma_lex_lt_connex(key@, self.entries@[i as int].key@);
            }
            self.pos = Option::Some(i);
        } else {
            self.pos = Option::None;
        }
    }

    /// Stand on the largest stored key at or before `key`; invalid when
    /// every stored key is after it.
    #[verifier::loop_isolation(false)]
    pub fn seek_for_prev(&mut self, key: &[u8])
        requires
            iter_wf(*old(self)),
        ensures
            iter_wf(*final(self)),
            final(self).entries == old(self).entries,
            match final(self).pos {
                Option::Some(i) => {
                    &&& 0 <= i < old(self).entries@.len()
                    &&& lex_le(old(self).entries@[i as int].key@, key@)
                    &&& forall|j: int|
                        i < j < old(self).entries@.len() ==> lex_lt(
                            key@,
                            (#[trigger] old(self).entries@[j]).key@,
                        )
                },
                Option::None => forall|j: int|
                    0 <= j < old(self).entries@.len() ==> lex_lt(
                        key@,
                        (#[trigger] old(self).entries@[j]).key@,
                    ),
            },
    {
        let n = self.entries.len();
        let mut i: usize = n;
        while i > 0 && bytes_lt(key, self.entries[i - 1].key.as_slice())
            invariant
                0 <= i <= n,
                forall|j: int| i <= j < n ==> lex_lt(key@, (#[trigger] self.entries@[j]).key@),
            decreases i,
        {
            i = i - 1;
        }
        if i > 0 {
            proof {
                lemma_lex_lt_connex(self.entries@[i - 1].key@, key@);
            }
            self.pos = Option::Some(i - 1);
        } else {
            self.pos = Option::None;
        }
    }

    /// Step to the next entry; past the last one the cursor becomes and
    /// stays invalid.
    pub fn next(&mut self)
        requires
            iter_wf(*old(self)),
        ensures
            iter_wf(*final(self)),
            final(self).entries == old(self).entries,
            final(self).pos == match old(self).pos {
                Option::Some(i) => if i + 1 < old(self).entries@.len() {
                    Option::Some((i + 1) as usize)
                } else {
                    Option::<usize>::None
                },
                Option::None => Option::<usize>::None,
            },
    {
        let n = self.entries.len();
        match self.pos {
            Option::Some(i) => {
                proof {
                    assert(i < n);
                }
                if i + 1 < n {
                    self.pos = Option::Some(i + 1);
                } else {
                    self.pos = Option::None;
                }
            },
            Option::None => {},
        }
    }

    /// Step to the previous entry; past the first one the cursor becomes
    /// and stays invalid.
    pub fn prev(&mut self)
        requires
            iter_wf(*old(self)),
        ensures
            iter_wf(*final(self)),
            final(self).entries == old(self).entries,
            final(self).pos == match old(self).pos {
                Option::Some(i) => if i > 0 {
                    Option::Some((i - 1) as usize)
                } else {
                    Option::<usize>::None
                },
                Option::None => Option::<usize>::None,
            },
    {
        match self.pos {
            Option::Some(i) => {
                if i > 0 {
                    self.pos = Option::Some(i - 1);
                } else {
                    self.pos = Option::None;
                }
            },
            Option::None => {},
        }
    }
}

impl Db {
    /// A cursor over the current entries of the default column family, not
    /// yet positioned.
    pub fn raw_iterator(&self) -> (r: Iter)
        requires
            db_wf(*self),
        ensures
            iter_wf(r),
            r.pos is None,
            forall|k: Seq<u8>| #[trigger] kv_val(r.entries@, k) == db_current(
                *self,
                default_name(),
                k,
            ),
    {
        proof {
            lemma_db_cf_at(*self, default_name(), 0);
        }
        let entries = store_entries(&self.cfs[0].store, u64::MAX);
        Iter { entries, pos: Option::None }
    }

    /// A cursor over the entries of the default column family as a snapshot
    /// saw them, not yet positioned.
    pub fn raw_iterator_at(&self, snap: &Snapshot) -> (r: Result<Iter, Error>)
        requires
            db_wf(*self),
        ensures
            if snap.released {
                r == Result::<Iter, Error>::Err(Error::InvalidState)
            } else {
                r matches Result::Ok(it) && iter_wf(it) && it.pos is None && forall|k: Seq<u8>|
                    #[trigger] kv_val(it.entries@, k) == crate::db::db_get_at(
                        *self,
                        default_name(),
                        k,
                        snap.seq,
                    )
            },
    {
        if snap.released {
            return Result::Err(Error::InvalidState);
        }
        proof {
            lemma_db_cf_at(*self, default_name(), 0);
        }
        let entries = store_entries(&self.cfs[0].store, snap.seq);
        Result::Ok(Iter { entries, pos: Option::None })
    }

    /// A cursor over the current entries of the default column family,
    /// positioned on the first entry, handing entries out in order.
    pub fn iterator(&self) -> (r: DbIterator)
        requires
            db_wf(*self),
        ensures
            kv_sorted(r.entries@),
            r.pos == 0,
            forall|k: Seq<u8>| #[trigger] kv_val(r.entries@, k) == db_current(
                *self,
                default_name(),
                k,
            ),
    {
        proof {
            lemma_db_cf_at(*self, default_name(), 0);
        }
        let entries = store_entries(&self.cfs[0].store, u64::MAX);
        DbIterator { entries, pos: 0 }
    }
}

impl Transaction {
    /// A cursor over the transaction's merged view of the default column
    /// family: its own buffered writes laid over its read view, local writes
    /// winning and local deletes suppressing stored entries.  Not yet
    /// positioned.
    #[verifier::loop_isolation(false)]
    pub fn raw_iterator(&self, db: &Db) -> (r: Iter)
        requires
            db_wf(*db),
            !self.aborted,
        ensures
            iter_wf(r),
            r.pos is None,
            forall|k: Seq<u8>| #[trigger] kv_val(r.entries@, k) == txn_read(
                *self,
                *db,
                default_name(),
                k,
            ),
    {
        proof {
            lemma_db_cf_at(*db, default_name(), 0);
        }
        let q = if self.use_snapshot {
            self.snap_seq
        } else {
            u64::MAX
        };
        let mut view = snapshot_records(&db.cfs[0].store, q);
        proof {
            assert forall|k: Seq<u8>| #[trigger] current(view.recs@, k) == txn_base(
                *self,
                *db,
                default_name(),
                k,
            ) by {}
        }
        let ghost base_store = view.recs@;
        let target: String = "default".to_owned();
        let n = self.intent.len();
        let mut j: usize = 0;
        while j < n
            invariant
                0 <= j <= n,
                n == self.intent@.len(),
                target@ == default_name(),
                records_wf(view.recs@),
                store_bounded(view.recs@, 1),
                forall|k: Seq<u8>| #[trigger] current(view.recs@, k) == local_resolve(
                    self.intent@.take(j as int),
                    default_name(),
                    k,
                    txn_base(*self, *db, default_name(), k),
                ),
            decreases n - j,
        {
            let ghost pre = view.recs@;
            proof {
                assert(self.intent@.take(j + 1).drop_last() =~= self.intent@.take(j as int));
                assert(self.intent@.take(j + 1).last() == self.intent@[j as int]);
            }
            let e = &self.intent[j];
            if e.cf == target {
                view.apply_one(e.key.as_slice(), &e.op, 1);
                proof {
                    let ek = self.intent@[j as int].key@;
                    assert forall|k: Seq<u8>| #[trigger] current(view.recs@, k) == local_resolve(
                        self.intent@.take(j + 1),
                        default_name(),
                        k,
                        txn_base(*self, *db, default_name(), k),
                    ) by {
                        if k != ek {
                            assert(current(view.recs@, k) == current(pre, k));
                        }
                    }
                }
            } else {
                proof {
                    assert(self.intent@[j as int].cf@ != default_name());
                    assert forall|k: Seq<u8>| #[trigger] current(view.recs@, k) == local_resolve(
                        self.intent@.take(j + 1),
                        default_name(),
                        k,
                        txn_base(*self, *db, default_name(), k),
                    ) by {
                        assert(local_resolve(
                            self.intent@.take(j + 1),
                            default_name(),
                            k,
                            txn_base(*self, *db, default_name(), k),
                        ) == local_resolve(
                            self.intent@.take(j as int),
                            default_name(),
                            k,
                            txn_base(*self, *db, default_name(), k),
                        ));
                    }
                }
            }
            j = j + 1;
        }
        proof {
            assert(self.intent@.take(n as int) =~= self.intent@);
        }
        let entries = store_entries(&view, u64::MAX);
        proof {
            assert forall|k: Seq<u8>| #[trigger] kv_val(entries@, k) == txn_read(
                *self,
                *db,
                default_name(),
                k,
            ) by {
                assert(kv_val(entries@, k) == get_at(view.recs@, k, u64::MAX));
                assert(current(view.recs@, k) == local_resolve(
                    self.intent@,
                    default_name(),
                    k,
                    txn_base(*self, *db, default_name(), k),
                ));
            }
        }
        Iter { entries, pos: Option::None }
    }
}

/// A cursor that hands the entries of a keyspace out in increasing key
/// order, then `None` from every further call.
#[derive(Debug)]
pub struct DbIterator {
    pub entries: Vec<KvPair>,
    pub pos: usize,
}

impl DbIterator {
    /// The next entry in key order, or `None` past the last one.
    pub fn next(&mut self) -> (r: Option<(Vec<u8>, Vec<u8>)>)
        ensures
            final(self).entries == old(self).entries,
            if old(self).pos < old(self).entries@.len() {
                &&& final(self).pos == old(self).pos + 1
                &&& r matches Option::Some(kv) && kv.0@ == old(self).entries@[old(
                    self,
                ).pos as int].key@ && kv.1@ == old(self).entries@[old(self).pos as int].value@
            } else {
                final(self).pos == old(self).pos && r is None
            },
    {
        if self.pos < self.entries.len() {
            let e = &self.entries[self.pos];
            let r = Option::Some((copy_bytes(e.key.as_slice()), copy_bytes(e.value.as_slice())));
            self.pos = self.pos + 1;
            r
        } else {
            Option::None
        }
    }
}

} // verus!
