//! The store: named column families over versioned keyspaces, with one
//! global commit sequence number.

use vstd::prelude::*;
use crate::batch::BatchOp;
use crate::batch::WriteBatch;
use crate::bytes::copy_bytes;
use crate::errors::Error;
use crate::options::default_name;
use crate::options::Options;
use crate::snapshot::Snapshot;
use crate::store::apply_op_value;
use crate::store::get_at;
use crate::store::has_key;
use crate::store::merge_concat;
use crate::store::mod_seq;
use crate::store::current;
use crate::store::opt_bytes;
use crate::store::records_wf;
use crate::store::store_bounded;
use crate::store::store_step;
use crate::store::Op;
use crate::store::Record;
use crate::store::Store;

verus! {

/// A named keyspace of the store.
#[derive(Debug)]
pub struct ColumnFamily {
    pub name: String,
    pub store: Store,
}

/// A handle naming a column family.
#[derive(Debug)]
pub struct CfHandle {
    pub name: String,
}

/// The store: at least the "default" column family, each name unique, every
/// keyspace well formed and bounded by the commit sequence number.
pub open spec fn db_wf(d: Db) -> bool {
    &&& d.cfs@.len() >= 1
    &&& d.cfs@[0].name@ == default_name()
    &&& forall|i: int, j: int|
        0 <= i < j < d.cfs@.len() ==> d.cfs@[i].name@ != d.cfs@[j].name@
    &&& forall|i: int| 0 <= i < d.cfs@.len() ==> records_wf((#[trigger] d.cfs@[i]).store.recs@)
    &&& forall|i: int|
        0 <= i < d.cfs@.len() ==> store_bounded((#[trigger] d.cfs@[i]).store.recs@, d.seq)
}

/// Whether the store has a column family named `n`.
pub open spec fn db_has_cf(d: Db, n: Seq<char>) -> bool {
    exists|i: int| 0 <= i < d.cfs@.len() && d.cfs@[i].name@ == n
}

/// The index of the column family named `n` (unique under `db_wf`).
pub open spec fn db_cf_at(d: Db, n: Seq<char>) -> int {
    choose|i: int| 0 <= i < d.cfs@.len() && d.cfs@[i].name@ == n
}

/// The records of the column family named `n`.
pub open spec fn cf_recs(d: Db, n: Seq<char>) -> Seq<Record> {
    d.cfs@[db_cf_at(d, n)].store.recs@
}

/// The value of `k` in family `n` as of sequence number `q`.
pub open spec fn db_get_at(d: Db, n: Seq<char>, k: Seq<u8>, q: u64) -> Option<Seq<u8>> {
    if db_has_cf(d, n) {
        get_at(cf_recs(d, n), k, q)
    } else {
        Option::None
    }
}

/// The current value of `k` in family `n`.
pub open spec fn db_current(d: Db, n: Seq<char>, k: Seq<u8>) -> Option<Seq<u8>> {
    if db_has_cf(d, n) {
        current(cf_recs(d, n), k)
    } else {
        Option::None
    }
}

/// The sequence number of the last commit that wrote `k` in family `n`.
pub open spec fn db_mod_seq(d: Db, n: Seq<char>, k: Seq<u8>) -> u64 {
    if db_has_cf(d, n) {
        mod_seq(cf_recs(d, n), k)
    } else {
        0
    }
}

/// The two stores have the same column families, by position and name.
pub open spec fn db_same_cfs(pre: Db, post: Db) -> bool {
    post.cfs@.len() == pre.cfs@.len() && forall|i: int|
        0 <= i < pre.cfs@.len() ==> (#[trigger] post.cfs@[i]).name@ == pre.cfs@[i].name@
}

/// How one committed write relates the store before it to the store after
/// it: the commit sequence number advances by one, the written key takes the
/// value `newv` and the new sequence number, its history below the new
/// sequence number is kept, and everything else is untouched.
pub open spec fn db_apply(pre: Db, post: Db, n: Seq<char>, k: Seq<u8>, newv: Option<Seq<u8>>) -> bool {
    &&& db_same_cfs(pre, post)
    &&& post.seq == pre.seq + 1
    &&& has_key(cf_recs(post, n), k)
    &&& db_current(post, n, k) == newv
    &&& db_mod_seq(post, n, k) == post.seq
    &&& forall|q: u64| q < post.seq ==> #[trigger] db_get_at(post, n, k, q) == db_get_at(pre, n, k, q)
    &&& forall|k2: Seq<u8>| k2 != k ==> #[trigger] has_key(cf_recs(post, n), k2) == has_key(
        cf_recs(pre, n),
        k2,
    )
    &&& forall|k2: Seq<u8>, q: u64| k2 != k ==> #[trigger] db_get_at(post, n, k2, q) == db_get_at(
        pre,
        n,
        k2,
        q,
    )
    &&& forall|k2: Seq<u8>| k2 != k ==> #[trigger] db_mod_seq(post, n, k2) == db_mod_seq(
        pre,
        n,
        k2,
    )
    &&& forall|i: int|
        0 <= i < pre.cfs@.len() && pre.cfs@[i].name@ != n ==> post.cfs@[i] == pre.cfs@[i]
}

/// In a well-formed store the index of a column-family name is unique.
pub proof fn lemma_db_cf_at(d: Db, n: Seq<char>, i: int)
    requires
        forall|a: int, b: int| 0 <= a < b < d.cfs@.len() ==> d.cfs@[a].name@ != d.cfs@[b].name@,
        0 <= i < d.cfs@.len(),
        d.cfs@[i].name@ == n,
    ensures
        db_has_cf(d, n),
        db_cf_at(d, n) == i,
{
    assert(db_has_cf(d, n));
}

/// An embedded, in-memory, ordered key-value store with one global commit
/// sequence number.
#[derive(Debug)]
pub struct Db {
    pub seq: u64,
    pub cfs: Vec<ColumnFamily>,
}

impl Db {
    /// An empty store with only the "default" column family.
    pub fn open_default() -> (r: Db)
        ensures
            db_wf(r),
            r.seq == 0,
            r.cfs@.len() == 1,
            cf_recs(r, default_name()).len() == 0,
    {
        let mut cfs: Vec<ColumnFamily> = Vec::new();
        cfs.push(ColumnFamily { name: "default".to_owned(), store: Store::new() });
        let r = Db { seq: 0, cfs };
        proof {
            lemma_db_cf_at(r, default_name(), 0);
        }
        r
    }

    /// An empty store; the in-memory store has nothing to read back, so the
    /// options only describe intent.
    pub fn open(_opts: &Options) -> (r: Db)
        ensures
            db_wf(r),
            r.seq == 0,
            r.cfs@.len() == 1,
            cf_recs(r, default_name()).len() == 0,
    {
        Db::open_default()
    }

    /// An empty store with the "default" family and one family for each
    /// requested name.  Requested families are created only when the options
    /// ask for that; otherwise the first requested name fails the call.
    #[verifier::loop_isolation(false)]
    pub fn open_cf(opts: &Options, cf_names: &[&str]) -> (r: Result<Db, Error>)
        ensures
            ({
                if !opts.create_missing_cfs && cf_names@.len() > 0 {
                    r matches Result::Err(Error::UnknownColumnFamily(s)) && s@ == cf_names@[0]@
                } else {
                    &&& r matches Result::Ok(d)
                    &&& db_wf(d)
                    &&& d.seq == 0
                    &&& forall|t: int|
                        0 <= t < cf_names@.len() ==> db_has_cf(d, #[trigger] cf_names@[t]@)
                    &&& forall|i: int|
                        0 <= i < d.cfs@.len() ==> ((#[trigger] d.cfs@[i]).name@ == default_name()
                            || crate::options::in_names(cf_names@, d.cfs@[i].name@))
                    &&& forall|i: int|
                        0 <= i < d.cfs@.len() ==> (#[trigger] d.cfs@[i]).store.recs@.len() == 0
                }
            }),
    {
        if !opts.create_missing_cfs && cf_names.len() > 0 {
            return Result::Err(Error::UnknownColumnFamily(cf_names[0].to_owned()));
        }
        let mut d = Db::open_default();
        let n = cf_names.len();
        let mut i: usize = 0;
        while i < n
            invariant
                db_wf(d),
                d.seq == 0,
                n == cf_names@.len(),
                0 <= i <= n,
                forall|t: int| 0 <= t < i ==> db_has_cf(d, #[trigger] cf_names@[t]@),
                forall|j: int|
                    0 <= j < d.cfs@.len() ==> ((#[trigger] d.cfs@[j]).name@ == default_name()
                        || crate::options::in_names(cf_names@, d.cfs@[j].name@)),
                forall|j: int| 0 <= j < d.cfs@.len() ==> (#[trigger] d.cfs@[j]).store.recs@.len() == 0,
            decreases n - i,
        {
            let ghost dpre = d;
            let name_i: &str = cf_names[i];
            if d.find_cf(name_i).is_none() {
                d.cfs.push(ColumnFamily { name: name_i.to_owned(), store: Store::new() });
                proof {
                    let m = d.cfs@.len() - 1;
                    assert(d.cfs@[m].name@ == name_i@);
                    assert(forall|t: int| 0 <= t < m ==> d.cfs@[t] == dpre.cfs@[t]);
                    assert forall|a: int, b: int|
                        0 <= a < b < d.cfs@.len() implies d.cfs@[a].name@ != d.cfs@[b].name@ by {
                        if b == m {
                            assert(!db_has_cf(dpre, name_i@));
                            if d.cfs@[a].name@ == name_i@ {
                                assert(dpre.cfs@[a].name@ == name_i@);
                                assert(db_has_cf(dpre, name_i@));
                            }
                        }
                    }
                    assert(db_has_cf(d, name_i@));
                    assert forall|t: int| 0 <= t < i + 1 implies db_has_cf(
                        d,
                        #[trigger] cf_names@[t]@,
                    ) by {
                        if t < i {
                            let w = db_cf_at(dpre, cf_names@[t]@);
                            assert(dpre.cfs@[w].name@ == cf_names@[t]@);
                            assert(d.cfs@[w].name@ == cf_names@[t]@);
                        }
                    }
                }
            }
            i = i + 1;
        }
        Result::Ok(d)
    }

    /// The position of the column family named `name`, if any.
    #[verifier::loop_isolation(false)]
    pub fn find_cf(&self, name: &str) -> (r: Option<usize>)
        ensures
            match r {
                Option::Some(i) => {
                    &&& 0 <= i < self.cfs@.len()
                    &&& self.cfs@[i as int].name@ == name@
                    &&& db_has_cf(*self, name@)
                },
                Option::None => !db_has_cf(*self, name@),
            },
    {
        let target: String = name.to_owned();
        let n = self.cfs.len();
        let mut i: usize = 0;
        while i < n
            invariant
                n == self.cfs@.len(),
                0 <= i <= n,
                target@ == name@,
                forall|t: int| 0 <= t < i ==> self.cfs@[t].name@ != name@,
            decreases n - i,
        {
            if self.cfs[i].name == target {
                return Option::Some(i);
            }
            i = i + 1;
        }
        Option::None
    }

    /// A handle on the column family named `name`, if the store has it.
    pub fn cf_handle(&self, name: &str) -> (r: Option<CfHandle>)
        ensures
            r matches Option::Some(h) ==> h.name@ == name@ && db_has_cf(*self, name@),
            r is None ==> !db_has_cf(*self, name@),
    {
        match self.find_cf(name) {
            Option::Some(_) => Option::Some(CfHandle { name: name.to_owned() }),
            Option::None => Option::None,
        }
    }

    /// Add an empty column family named `name`.
    pub fn create_cf(&mut self, name: &str, _opts: &Options) -> (r: Result<(), Error>)
        requires
            db_wf(*old(self)),
        ensures
            db_wf(*final(self)),
            final(self).seq == old(self).seq,
            if db_has_cf(*old(self), name@) {
                &&& r == Result::<(), Error>::Err(Error::InvalidState)
                &&& *final(self) == *old(self)
            } else {
                &&& r == Result::<(), Error>::Ok(())
                &&& db_has_cf(*final(self), name@)
                &&& cf_recs(*final(self), name@).len() == 0
                &&& final(self).cfs@.drop_last() == old(self).cfs@
            },
    {
        let ghost dpre = *self;
        if self.find_cf(name).is_some() {
            return Result::Err(Error::InvalidState);
        }
        self.cfs.push(ColumnFamily { name: name.to_owned(), store: Store::new() });
        proof {
            let m = self.cfs@.len() - 1;
            assert(self.cfs@.drop_last() =~= dpre.cfs@);
            assert(forall|t: int| 0 <= t < m ==> self.cfs@[t] == dpre.cfs@[t]);
            assert forall|a: int, b: int|
                0 <= a < b < self.cfs@.len() implies self.cfs@[a].name@ != self.cfs@[b].name@ by {
                if b == m {
                    if self.cfs@[a].name@ == name@ {
                        assert(dpre.cfs@[a].name@ == name@);
                        assert(db_has_cf(dpre, name@));
                    }
                }
            }
            lemma_db_cf_at(*self, name@, m);
        }
        Result::Ok(())
    }

    /// Remove the column family named `name`; "default" cannot be removed.
    #[verifier::loop_isolation(false)]
    pub fn drop_cf(&mut self, name: &str) -> (r: Result<(), Error>)
        requires
            db_wf(*old(self)),
        ensures
            db_wf(*final(self)),
            final(self).seq == old(self).seq,
            if name@ == default_name() {
                r == Result::<(), Error>::Err(Error::InvalidState) && *final(self) == *old(self)
            } else if !db_has_cf(*old(self), name@) {
                (r matches Result::Err(Error::UnknownColumnFamily(s)) && s@ == name@) && *final(self) == *old(self)
            } else {
                &&& r == Result::<(), Error>::Ok(())
                &&& !db_has_cf(*final(self), name@)
                &&& forall|n2: Seq<char>|
                    n2 != name@ ==> #[trigger] db_has_cf(*final(self), n2) == db_has_cf(
                        *old(self),
                        n2,
                    )
                &&& forall|n2: Seq<char>|
                    n2 != name@ && db_has_cf(*old(self), n2) ==> #[trigger] cf_recs(
                        *final(self),
                        n2,
                    ) == cf_recs(*old(self), n2)
            },
    {
        let ghost dpre = *self;
        let target: String = "default".to_owned();
        let owned: String = name.to_owned();
        if owned == target {
            return Result::Err(Error::InvalidState);
        }
        match self.find_cf(name) {
            Option::None => Result::Err(Error::UnknownColumnFamily(owned)),
            Option::Some(i) => {
                let _ = self.cfs.remove(i);
                proof {
                    assert(i != 0);
                    assert forall|t: int| 0 <= t < self.cfs@.len() implies #[trigger] self.cfs@[t]
                        == (if t < i {
                        dpre.cfs@[t]
                    } else {
                        dpre.cfs@[t + 1]
                    }) by {
                        assert(self.cfs@ =~= dpre.cfs@.subrange(0, i as int) + dpre.cfs@.subrange(
                            i + 1,
                            dpre.cfs@.len() as int,
                        ));
                    }
                    assert(db_wf(*self));
                    assert forall|n2: Seq<char>| n2 != name@ implies #[trigger] db_has_cf(
                        *self,
                        n2,
                    ) == db_has_cf(dpre, n2) by {
                        if db_has_cf(dpre, n2) {
                            let w = db_cf_at(dpre, n2);
                            lemma_db_cf_at(dpre, n2, w);
                            assert(w != i);
                            if w < i {
                                assert(self.cfs@[w].name@ == n2);
                            } else {
                                assert(self.cfs@[w - 1].name@ == n2);
                            }
                        }
                        if db_has_cf(*self, n2) {
                            let w = db_cf_at(*self, n2);
                            if w < i {
                                assert(dpre.cfs@[w].name@ == n2);
                            } else {
                                assert(dpre.cfs@[w + 1].name@ == n2);
                            }
                        }
                    }
                    assert forall|n2: Seq<char>|
                        n2 != name@ && db_has_cf(dpre, n2) implies #[trigger] cf_recs(*self, n2)
                        == cf_recs(dpre, n2) by {
                        let w = db_cf_at(dpre, n2);
                        lemma_db_cf_at(dpre, n2, w);
                        if w < i {
                            lemma_db_cf_at(*self, n2, w);
                        } else {
                            lemma_db_cf_at(*self, n2, w - 1);
                        }
                    }
                    assert(!db_has_cf(*self, name@)) by {
                        if db_has_cf(*self, name@) {
                            let w = db_cf_at(*self, name@);
                            lemma_db_cf_at(dpre, name@, i as int);
                            if w < i {
                                assert(dpre.cfs@[w].name@ == name@);
                            } else {
                                assert(dpre.cfs@[w + 1].name@ == name@);
                            }
                        }
                    }
                }
                Result::Ok(())
            },
        }
    }

    /// Commit one write to the column family at position `i`.
    fn apply_single(&mut self, i: usize, k: &[u8], op: &Op)
        requires
            db_wf(*old(self)),
            old(self).seq < u64::MAX,
            0 <= i < old(self).cfs@.len(),
        ensures
            db_wf(*final(self)),
            db_apply(
                *old(self),
                *final(self),
                old(self).cfs@[i as int].name@,
                k@,
                apply_op_value(
                    db_current(*old(self), old(self).cfs@[i as int].name@, k@),
                    *op,
                ),
            ),
    {
        let ghost dpre = *self;
        let ghost n = dpre.cfs@[i as int].name@;
        proof {
            lemma_db_cf_at(dpre, n, i as int);
        }
        self.seq = self.seq + 1;
        let sq = self.seq;
        let cf = &mut self.cfs[i];
        cf.store.apply_one(k, op, sq);
        proof {
            let dpost = *self;
            assert(forall|t: int|
                0 <= t < dpost.cfs@.len() && t != i ==> dpost.cfs@[t] == dpre.cfs@[t]);
            assert(dpost.cfs@[i as int].name@ == n);
            assert(db_wf(dpost));
            lemma_db_cf_at(dpost, n, i as int);
            assert(cf_recs(dpost, n) == dpost.cfs@[i as int].store.recs@);
            assert(store_step(cf_recs(dpre, n), cf_recs(dpost, n), k@, *op, sq));
        }
    }

    /// Store `value` under `key` in the default column family.
    pub fn put(&mut self, key: &[u8], value: &[u8]) -> (r: Result<(), Error>)
        requires
            db_wf(*old(self)),
            old(self).seq < u64::MAX,
        ensures
            db_wf(*final(self)),
            r == Result::<(), Error>::Ok(()),
            db_apply(*old(self), *final(self), default_name(), key@, Option::Some(value@)),
    {
        let op = Op::Put(copy_bytes(value));
        self.apply_single(0, key, &op);
        Result::Ok(())
    }

    /// Remove `key` from the default column family.
    pub fn delete(&mut self, key: &[u8]) -> (r: Result<(), Error>)
        requires
            db_wf(*old(self)),
            old(self).seq < u64::MAX,
        ensures
            db_wf(*final(self)),
            r == Result::<(), Error>::Ok(()),
            db_apply(*old(self), *final(self), default_name(), key@, Option::None),
    {
        let op = Op::Delete;
        self.apply_single(0, key, &op);
        Result::Ok(())
    }

    /// Append a merge operand for `key` in the default column family,
    /// resolved against the current value by concatenation.
    pub fn merge(&mut self, key: &[u8], operand: &[u8]) -> (r: Result<(), Error>)
        requires
            db_wf(*old(self)),
            old(self).seq < u64::MAX,
        ensures
            db_wf(*final(self)),
            r == Result::<(), Error>::Ok(()),
            db_apply(
                *old(self),
                *final(self),
                default_name(),
                key@,
                Option::Some(
                    merge_concat(db_current(*old(self), default_name(), key@), operand@),
                ),
            ),
    {
        let op = Op::Merge(copy_bytes(operand));
        self.apply_single(0, key, &op);
        Result::Ok(())
    }

    /// The current value of `key` in the default column family.
    pub fn get(&self, key: &[u8]) -> (r: Result<Option<Vec<u8>>, Error>)
        requires
            db_wf(*self),
        ensures
            r matches Result::Ok(v) && opt_bytes(v) == db_current(*self, default_name(), key@),
    {
        proof {
            lemma_db_cf_at(*self, default_name(), 0);
        }
        Result::Ok(self.cfs[0].store.read_current(key))
    }

    /// The current value of `key`; the in-memory store has no pinning, so
    /// this equals `get`.
    pub fn get_pinned(&self, key: &[u8]) -> (r: Result<Option<Vec<u8>>, Error>)
        requires
            db_wf(*self),
        ensures
            r matches Result::Ok(v) && opt_bytes(v) == db_current(*self, default_name(), key@),
    {
        self.get(key)
    }

    /// The current value of `key` in the family the handle names.
    pub fn get_cf(&self, h: &CfHandle, key: &[u8]) -> (r: Result<Option<Vec<u8>>, Error>)
        requires
            db_wf(*self),
        ensures
            if db_has_cf(*self, h.name@) {
                r matches Result::Ok(v) && opt_bytes(v) == db_current(*self, h.name@, key@)
            } else {
                r matches Result::Err(Error::UnknownColumnFamily(s)) && s@ == h.name@
            },
    {
        match self.find_cf(self.cf_name_str(h)) {
            Option::Some(i) => {
                proof {
                    lemma_db_cf_at(*self, h.name@, i as int);
                }
                Result::Ok(self.cfs[i].store.read_current(key))
            },
            Option::None => Result::Err(Error::UnknownColumnFamily(h.name.clone())),
        }
    }

    /// The name a handle carries.
    fn cf_name_str<'a>(&self, h: &'a CfHandle) -> (r: &'a str)
        ensures
            r@ == h.name@,
    {
        h.name.as_str()
    }

    /// Commit `value` under `key` in the family the handle names.
    pub fn put_cf(&mut self, h: &CfHandle, key: &[u8], value: &[u8]) -> (r: Result<(), Error>)
        requires
            db_wf(*old(self)),
            old(self).seq < u64::MAX,
        ensures
            db_wf(*final(self)),
            if db_has_cf(*old(self), h.name@) {
                &&& r == Result::<(), Error>::Ok(())
                &&& db_apply(*old(self), *final(self), h.name@, key@, Option::Some(value@))
            } else {
                (r matches Result::Err(Error::UnknownColumnFamily(s)) && s@ == h.name@) && *final(self) == *old(self)
            },
    {
        match self.find_cf(self.cf_name_str(h)) {
            Option::Some(i) => {
                proof {
                    lemma_db_cf_at(*old(self), h.name@, i as int);
                }
                let op = Op::Put(copy_bytes(value));
                self.apply_single(i, key, &op);
                Result::Ok(())
            },
            Option::None => Result::Err(Error::UnknownColumnFamily(h.name.clone())),
        }
    }

    /// Remove `key` from the family the handle names.
    pub fn delete_cf(&mut self, h: &CfHandle, key: &[u8]) -> (r: Result<(), Error>)
        requires
            db_wf(*old(self)),
            old(self).seq < u64::MAX,
        ensures
            db_wf(*final(self)),
            if db_has_cf(*old(self), h.name@) {
                &&& r == Result::<(), Error>::Ok(())
                &&& db_apply(*old(self), *final(self), h.name@, key@, Option::None)
            } else {
                (r matches Result::Err(Error::UnknownColumnFamily(s)) && s@ == h.name@) && *final(self) == *old(self)
            },
    {
        match self.find_cf(self.cf_name_str(h)) {
            Option::Some(i) => {
                proof {
                    lemma_db_cf_at(*old(self), h.name@, i as int);
                }
                let op = Op::Delete;
                self.apply_single(i, key, &op);
                Result::Ok(())
            },
            Option::None => Result::Err(Error::UnknownColumnFamily(h.name.clone())),
        }
    }

    /// A snapshot fixed at the current commit sequence number.
    pub fn snapshot(&self) -> (r: Snapshot)
        ensures
            r.seq == self.seq,
            r.released == false,
    {
        Snapshot { seq: self.seq, released: false }
    }

    /// Apply every write of the batch, in order, as one atomic commit to the
    /// default column family.
    #[verifier::loop_isolation(false)]
    pub fn write(&mut self, batch: &WriteBatch) -> (r: Result<(), Error>)
        requires
            db_wf(*old(self)),
            old(self).seq < u64::MAX,
        ensures
            db_wf(*final(self)),
            r == Result::<(), Error>::Ok(()),
            db_same_cfs(*old(self), *final(self)),
            final(self).seq == old(self).seq + 1,
            forall|k: Seq<u8>| #[trigger] db_current(*final(self), default_name(), k)
                == fold_batch(db_current(*old(self), default_name(), k), batch.ops@, k),
            forall|k: Seq<u8>|
                batch_touches(batch.ops@, k) ==> #[trigger] db_mod_seq(
                    *final(self),
                    default_name(),
                    k,
                ) == final(self).seq,
            forall|k: Seq<u8>|
                !batch_touches(batch.ops@, k) ==> #[trigger] db_mod_seq(
                    *final(self),
                    default_name(),
                    k,
                ) == db_mod_seq(*old(self), default_name(), k),
            forall|k: Seq<u8>, q: u64|
                q < final(self).seq ==> #[trigger] db_get_at(*final(self), default_name(), k, q)
                    == db_get_at(*old(self), default_name(), k, q),
            forall|k: Seq<u8>, q: u64|
                !batch_touches(batch.ops@, k) ==> #[trigger] db_get_at(
                    *final(self),
                    default_name(),
                    k,
                    q,
                ) == db_get_at(*old(self), default_name(), k, q),
            forall|i: int|
                0 <= i < old(self).cfs@.len() && old(self).cfs@[i].name@ != default_name()
                    ==> final(self).cfs@[i] == old(self).cfs@[i],
    {
        let ghost dpre = *self;
        let ghost dn = default_name();
        proof {
            lemma_db_cf_at(dpre, dn, 0);
        }
        self.seq = self.seq + 1;
        let sq = self.seq;
        let n = batch.ops.len();
        let mut i: usize = 0;
        proof {
            assert(store_bounded(self.cfs@[0].store.recs@, sq));
        }
        while i < n
            invariant
                0 <= i <= n,
                n == batch.ops@.len(),
                self.seq == sq,
                sq == dpre.seq + 1,
                self.cfs@.len() == dpre.cfs@.len(),
                self.cfs@[0].name@ == dn,
                forall|t: int|
                    0 <= t < self.cfs@.len() ==> (#[trigger] self.cfs@[t]).name@
                        == dpre.cfs@[t].name@,
                forall|t: int| 0 < t < self.cfs@.len() ==> self.cfs@[t] == dpre.cfs@[t],
                records_wf(self.cfs@[0].store.recs@),
                store_bounded(self.cfs@[0].store.recs@, sq),
                forall|k: Seq<u8>| #[trigger] current(self.cfs@[0].store.recs@, k) == fold_batch(
                    current(dpre.cfs@[0].store.recs@, k),
                    batch.ops@.take(i as int),
                    k,
                ),
                forall|k: Seq<u8>|
                    batch_touches(batch.ops@.take(i as int), k) ==> #[trigger] mod_seq(
                        self.cfs@[0].store.recs@,
                        k,
                    ) == sq,
                forall|k: Seq<u8>|
                    !batch_touches(batch.ops@.take(i as int), k) ==> #[trigger] mod_seq(
                        self.cfs@[0].store.recs@,
                        k,
                    ) == mod_seq(dpre.cfs@[0].store.recs@, k),
                forall|k: Seq<u8>, q: u64|
                    q < sq ==> #[trigger] get_at(self.cfs@[0].store.recs@, k, q) == get_at(
                        dpre.cfs@[0].store.recs@,
                        k,
                        q,
                    ),
                forall|k: Seq<u8>, q: u64|
                    !batch_touches(batch.ops@.take(i as int), k) ==> #[trigger] get_at(
                        self.cfs@[0].store.recs@,
                        k,
                        q,
                    ) == get_at(dpre.cfs@[0].store.recs@, k, q),
            decreases n - i,
        {
            let ghost mid = self.cfs@[0].store.recs@;
            proof {
                assert(batch.ops@.take(i + 1).drop_last() =~= batch.ops@.take(i as int));
                assert(batch.ops@.take(i + 1).last() == batch.ops@[i as int]);
            }
            let bop = &batch.ops[i];
            let cf = &mut self.cfs[0];
            cf.store.apply_one(bop.key.as_slice(), &bop.op, sq);
            proof {
                let now = self.cfs@[0].store.recs@;
                let bk = batch.ops@[i as int].key@;
                assert(store_step(mid, now, bk, batch.ops@[i as int].op, sq));
                assert forall|k: Seq<u8>| #[trigger] current(now, k) == fold_batch(
                    current(dpre.cfs@[0].store.recs@, k),
                    batch.ops@.take(i + 1),
                    k,
                ) by {
                    if k == bk {
                    } else {
                        assert(current(now, k) == current(mid, k));
                    }
                }
                assert forall|k: Seq<u8>|
                    batch_touches(batch.ops@.take(i + 1), k) implies #[trigger] mod_seq(now, k)
                    == sq by {
                    if k == bk {
                    } else {
                        assert(batch_touches(batch.ops@.take(i as int), k)) by {
                            let w = choose|w: int|
                                0 <= w < batch.ops@.take(i + 1).len() && (#[trigger] batch.ops@.take(
                                    i + 1,
                                )[w]).key@ == k;
                            assert(batch.ops@.take(i as int)[w].key@ == k);
                        }
                        assert(mod_seq(now, k) == mod_seq(mid, k));
                    }
                }
                assert forall|k: Seq<u8>|
                    !batch_touches(batch.ops@.take(i + 1), k) implies #[trigger] mod_seq(now, k)
                    == mod_seq(dpre.cfs@[0].store.recs@, k) by {
                    assert(k != bk) by {
                        if k == bk {
                            assert(batch.ops@.take(i + 1)[i as int].key@ == k);
                        }
                    }
                    assert(!batch_touches(batch.ops@.take(i as int), k)) by {
                        if batch_touches(batch.ops@.take(i as int), k) {
                            let w = choose|w: int|
                                0 <= w < i && (#[trigger] batch.ops@.take(i as int)[w]).key@ == k;
                            assert(batch.ops@.take(i + 1)[w].key@ == k);
                        }
                    }
                }
                assert forall|k: Seq<u8>, q: u64|
                    !batch_touches(batch.ops@.take(i + 1), k) implies #[trigger] get_at(now, k, q)
                    == get_at(dpre.cfs@[0].store.recs@, k, q) by {
                    assert(k != bk) by {
                        if k == bk {
                            assert(batch.ops@.take(i + 1)[i as int].key@ == k);
                        }
                    }
                    assert(!batch_touches(batch.ops@.take(i as int), k)) by {
                        if batch_touches(batch.ops@.take(i as int), k) {
                            let w = choose|w: int|
                                0 <= w < i && (#[trigger] batch.ops@.take(i as int)[w]).key@ == k;
                            assert(batch.ops@.take(i + 1)[w].key@ == k);
                        }
                    }
                    assert(get_at(now, k, q) == get_at(mid, k, q));
                }
            }
            i = i + 1;
        }
        proof {
            assert(batch.ops@.take(n as int) =~= batch.ops@);
            let dpost = *self;
            assert(db_wf(dpost));
            lemma_db_cf_at(dpost, dn, 0);
        }
        Result::Ok(())
    }
}

/// Whether some entry of the batch writes key `k`.
pub open spec fn batch_touches(ops: Seq<BatchOp>, k: Seq<u8>) -> bool {
    exists|i: int| 0 <= i < ops.len() && ops[i].key@ == k
}

/// The value the batch leaves under key `k`, starting from `v0`: each entry
/// for `k` is applied in order.
pub open spec fn fold_batch(v0: Option<Seq<u8>>, ops: Seq<BatchOp>, k: Seq<u8>) -> Option<Seq<u8>>
    decreases ops.len(),
{
    if ops.len() == 0 {
        v0
    } else {
        let prev = fold_batch(v0, ops.drop_last(), k);
        if ops.last().key@ == k {
            apply_op_value(prev, ops.last().op)
        } else {
            prev
        }
    }
}

} // verus!
