//! Optimistic transactions: writes are buffered in a local intent log, reads
//! resolve against that log first, and commit validates at the store that no
//! written key was committed by anyone else after this transaction observed
//! it, then applies the whole log as one atomic commit.

use vstd::prelude::*;
use crate::bytes::bytes_eq;
use crate::bytes::concat_bytes;
use crate::bytes::copy_bytes;
use crate::db::cf_recs;
use crate::db::db_current;
use crate::db::db_cf_at;
use crate::db::db_get_at;
use crate::db::db_has_cf;
use crate::db::db_mod_seq;
use crate::db::db_same_cfs;
use crate::db::db_wf;
use crate::db::lemma_db_cf_at;
use crate::db::Db;
use crate::db::CfHandle;
use crate::errors::Error;
use crate::options::default_name;
use crate::options::OptimisticTransactionOptions;
use crate::options::WriteOptions;
use crate::snapshot::Snapshot;
use crate::store::apply_op_value;
use crate::store::opt_bytes;
use crate::store::store_step;
use crate::store::Op;

verus! {

/// One buffered write: the column family and key it is for, the write
/// itself, and the commit sequence number the transaction had observed for
/// that key when it recorded the write.
#[derive(Debug)]
pub struct IntentOp {
    pub cf: String,
    pub key: Vec<u8>,
    pub op: Op,
    pub obs: u64,
}

/// An optimistic transaction handle.  Each commit or rollback closes the
/// current logical transaction and the handle goes on as a fresh one; only a
/// failed commit leaves the handle aborted, after which every operation
/// fails with `InvalidState`.
#[derive(Debug)]
pub struct Transaction {
    pub aborted: bool,
    pub use_snapshot: bool,
    pub snap_seq: u64,
    pub intent: Vec<IntentOp>,
    pub savepoints: Vec<usize>,
}

/// Savepoints never point past the end of the intent log, and stand in the
/// order they were set.
pub open spec fn txn_wf(t: Transaction) -> bool {
    &&& forall|i: int|
        0 <= i < t.savepoints@.len() ==> #[trigger] t.savepoints@[i] <= t.intent@.len()
    &&& forall|i: int, j: int|
        0 <= i < j < t.savepoints@.len() ==> t.savepoints@[i] <= t.savepoints@[j]
}

/// The sequence number a new write of this transaction observes: the
/// snapshot when one is held, else the store's current sequence number.
pub open spec fn obs_of(t: Transaction, db: Db) -> u64 {
    if t.use_snapshot {
        t.snap_seq
    } else {
        db.seq
    }
}

/// What the transaction reads under its intent log: the snapshot view when
/// one is held, else the store's current state.
pub open spec fn txn_base(t: Transaction, db: Db, n: Seq<char>, k: Seq<u8>) -> Option<Seq<u8>> {
    if t.use_snapshot {
        db_get_at(db, n, k, t.snap_seq)
    } else {
        db_current(db, n, k)
    }
}

/// The value the intent log leaves for `(n, k)` over the base value: each
/// entry for that family and key is applied in order, so the most recent
/// local write wins and merge operands accumulate.
pub open spec fn local_resolve(
    intent: Seq<IntentOp>,
    n: Seq<char>,
    k: Seq<u8>,
    base: Option<Seq<u8>>,
) -> Option<Seq<u8>>
    decreases intent.len(),
{
    if intent.len() == 0 {
        base
    } else {
        let prev = local_resolve(intent.drop_last(), n, k, base);
        if intent.last().cf@ == n && intent.last().key@ == k {
            apply_op_value(prev, intent.last().op)
        } else {
            prev
        }
    }
}

/// What the transaction's own `get` returns for `(n, k)`.
pub open spec fn txn_read(t: Transaction, db: Db, n: Seq<char>, k: Seq<u8>) -> Option<Seq<u8>> {
    local_resolve(t.intent@, n, k, txn_base(t, db, n, k))
}

/// Whether some intent entry writes `(n, k)`.
pub open spec fn intent_touches(intent: Seq<IntentOp>, n: Seq<char>, k: Seq<u8>) -> bool {
    exists|i: int|
        0 <= i < intent.len() && (#[trigger] intent[i]).cf@ == n && intent[i].key@ == k
}

/// Commit validation passes: no key this transaction wrote was committed by
/// anyone else after the transaction observed it.
pub open spec fn commit_ok(t: Transaction, db: Db) -> bool {
    forall|i: int|
        0 <= i < t.intent@.len() ==> db_mod_seq(
            db,
            (#[trigger] t.intent@[i]).cf@,
            t.intent@[i].key@,
        ) <= t.intent@[i].obs
}

/// Every column family the intent log names is in the store.
pub open spec fn cfs_present(t: Transaction, db: Db) -> bool {
    forall|i: int| 0 <= i < t.intent@.len() ==> db_has_cf(db, (#[trigger] t.intent@[i]).cf@)
}

/// The handle is fresh over `db`: nothing buffered, not aborted, observing
/// from `db`'s current sequence number.
pub open spec fn txn_fresh(t: Transaction, db: Db, with_snapshot: bool) -> bool {
    &&& t.aborted == false
    &&& t.use_snapshot == with_snapshot
    &&& t.snap_seq == db.seq
    &&& t.intent@.len() == 0
    &&& t.savepoints@.len() == 0
}

/// All fields but the intent log and savepoints are unchanged.
pub open spec fn same_txn_config(pre: Transaction, post: Transaction) -> bool {
    &&& post.aborted == pre.aborted
    &&& post.use_snapshot == pre.use_snapshot
    &&& post.snap_seq == pre.snap_seq
}

/// One write was appended to the intent log and nothing else changed.
pub open spec fn recorded_entry(
    pre: Transaction,
    post: Transaction,
    n: Seq<char>,
    k: Seq<u8>,
    obs: u64,
) -> bool {
    &&& post.intent@.len() == pre.intent@.len() + 1
    &&& post.intent@.drop_last() == pre.intent@
    &&& post.intent@.last().cf@ == n
    &&& post.intent@.last().key@ == k
    &&& post.intent@.last().obs == obs
    &&& same_txn_config(pre, post)
    &&& post.savepoints == pre.savepoints
}

impl Db {
    /// Begin a transaction.  With `snapshot` set in the options, its read
    /// view and conflict baseline are fixed now; otherwise each read and
    /// write observes the store as it stands at that moment.
    pub fn transaction(&self, _wo: &WriteOptions, opts: &OptimisticTransactionOptions) -> (r:
        Transaction)
        ensures
            txn_fresh(r, *self, opts.snapshot),
            txn_wf(r),
    {
        Transaction {
            aborted: false,
            use_snapshot: opts.snapshot,
            snap_seq: self.seq,
            intent: Vec::new(),
            savepoints: Vec::new(),
        }
    }

    /// Begin a transaction with default options: no snapshot.
    pub fn transaction_default(&self) -> (r: Transaction)
        ensures
            txn_fresh(r, *self, false),
            txn_wf(r),
    {
        let opts = OptimisticTransactionOptions::new();
        let wo = WriteOptions::default();
        self.transaction(&wo, &opts)
    }
}

impl Transaction {
    /// Append one write to the intent log.
    fn record(&mut self, db: &Db, cf: &str, key: &[u8], op: Op) -> (r: Result<(), Error>)
        ensures
            old(self).aborted ==> r == Result::<(), Error>::Err(Error::InvalidState) && *final(self) == *old(self),
            !old(self).aborted ==> {
                &&& r == Result::<(), Error>::Ok(())
                &&& recorded_entry(*old(self), *final(self), cf@, key@, obs_of(*old(self), *db))
                &&& final(self).intent@.last().op == op
            },
    {
        if self.aborted {
            return Result::Err(Error::InvalidState);
        }
        let obs = if self.use_snapshot {
            self.snap_seq
        } else {
            db.seq
        };
        let ghost pre = self.intent@;
        self.intent.push(IntentOp { cf: cf.to_owned(), key: copy_bytes(key), op, obs });
        proof {
            assert(self.intent@.drop_last() =~= pre);
        }
        Result::Ok(())
    }

    /// Buffer a write of `value` under `key` in the default column family.
    pub fn put(&mut self, db: &Db, key: &[u8], value: &[u8]) -> (r: Result<(), Error>)
        ensures
            old(self).aborted ==> r == Result::<(), Error>::Err(Error::InvalidState) && *final(self) == *old(self),
            !old(self).aborted ==> {
                &&& r == Result::<(), Error>::Ok(())
                &&& recorded_entry(
                    *old(self),
                    *final(self),
                    default_name(),
                    key@,
                    obs_of(*old(self), *db),
                )
                &&& final(self).intent@.last().op matches Op::Put(v) && v@ == value@
            },
    {
        self.record(db, "default", key, Op::Put(copy_bytes(value)))
    }

    /// Buffer a write of `value` under `key` in the family the handle names.
    pub fn put_cf(&mut self, db: &Db, h: &CfHandle, key: &[u8], value: &[u8]) -> (r: Result<
        (),
        Error,
    >)
        ensures
            old(self).aborted ==> r == Result::<(), Error>::Err(Error::InvalidState) && *final(self) == *old(self),
            !old(self).aborted ==> {
                &&& r == Result::<(), Error>::Ok(())
                &&& recorded_entry(
                    *old(self),
                    *final(self),
                    h.name@,
                    key@,
                    obs_of(*old(self), *db),
                )
                &&& final(self).intent@.last().op matches Op::Put(v) && v@ == value@
            },
    {
        self.record(db, h.name.as_str(), key, Op::Put(copy_bytes(value)))
    }

    /// Buffer a removal of `key` in the default column family.
    pub fn delete(&mut self, db: &Db, key: &[u8]) -> (r: Result<(), Error>)
        ensures
            old(self).aborted ==> r == Result::<(), Error>::Err(Error::InvalidState) && *final(self) == *old(self),
            !old(self).aborted ==> {
                &&& r == Result::<(), Error>::Ok(())
                &&& recorded_entry(
                    *old(self),
                    *final(self),
                    default_name(),
                    key@,
                    obs_of(*old(self), *db),
                )
                &&& final(self).intent@.last().op is Delete
            },
    {
        self.record(db, "default", key, Op::Delete)
    }

    /// Buffer a removal of `key` in the family the handle names.
    pub fn delete_cf(&mut self, db: &Db, h: &CfHandle, key: &[u8]) -> (r: Result<(), Error>)
        ensures
            old(self).aborted ==> r == Result::<(), Error>::Err(Error::InvalidState) && *final(self) == *old(self),
            !old(self).aborted ==> {
                &&& r == Result::<(), Error>::Ok(())
                &&& recorded_entry(
                    *old(self),
                    *final(self),
                    h.name@,
                    key@,
                    obs_of(*old(self), *db),
                )
                &&& final(self).intent@.last().op is Delete
            },
    {
        self.record(db, h.name.as_str(), key, Op::Delete)
    }

    /// Buffer a merge operand for `key` in the default column family; it is
    /// resolved by concatenation at read and commit time.
    pub fn merge(&mut self, db: &Db, key: &[u8], operand: &[u8]) -> (r: Result<(), Error>)
        ensures
            old(self).aborted ==> r == Result::<(), Error>::Err(Error::InvalidState) && *final(self) == *old(self),
            !old(self).aborted ==> {
                &&& r == Result::<(), Error>::Ok(())
                &&& recorded_entry(
                    *old(self),
                    *final(self),
                    default_name(),
                    key@,
                    obs_of(*old(self), *db),
                )
                &&& final(self).intent@.last().op matches Op::Merge(o) && o@ == operand@
            },
    {
        self.record(db, "default", key, Op::Merge(copy_bytes(operand)))
    }

    /// Buffer a merge operand for `key` in the family the handle names.
    pub fn merge_cf(&mut self, db: &Db, h: &CfHandle, key: &[u8], operand: &[u8]) -> (r: Result<
        (),
        Error,
    >)
        ensures
            old(self).aborted ==> r == Result::<(), Error>::Err(Error::InvalidState) && *final(self) == *old(self),
            !old(self).aborted ==> {
                &&& r == Result::<(), Error>::Ok(())
                &&& recorded_entry(
                    *old(self),
                    *final(self),
                    h.name@,
                    key@,
                    obs_of(*old(self), *db),
                )
                &&& final(self).intent@.last().op matches Op::Merge(o) && o@ == operand@
            },
    {
        self.record(db, h.name.as_str(), key, Op::Merge(copy_bytes(operand)))
    }

    /// Resolve the intent log over a base value.
    #[verifier::loop_isolation(false)]
    fn resolve_local(&self, cf: &str, key: &[u8], base: Option<Vec<u8>>) -> (r: Option<Vec<u8>>)
        ensures
            opt_bytes(r) == local_resolve(self.intent@, cf@, key@, opt_bytes(base)),
    {
        let target: String = cf.to_owned();
        let mut cur = base;
        let n = self.intent.len();
        let mut i: usize = 0;
        while i < n
            invariant
                n == self.intent@.len(),
                0 <= i <= n,
                target@ == cf@,
                opt_bytes(cur) == local_resolve(
                    self.intent@.take(i as int),
                    cf@,
                    key@,
                    opt_bytes(base),
                ),
            decreases n - i,
        {
            proof {
                assert(self.intent@.take(i + 1).drop_last() =~= self.intent@.take(i as int));
                assert(self.intent@.take(i + 1).last() == self.intent@[i as int]);
            }
            let e = &self.intent[i];
            if e.cf == target && bytes_eq(e.key.as_slice(), key) {
                cur = match &e.op {
                    Op::Put(v) => Option::Some(copy_bytes(v.as_slice())),
                    Op::Delete => Option::None,
                    Op::Merge(o) => Option::Some(
                        match &cur {
                            Option::Some(p) => concat_bytes(p.as_slice(), o.as_slice()),
                            Option::None => copy_bytes(o.as_slice()),
                        },
                    ),
                };
            }
            i = i + 1;
        }
        proof {
            assert(self.intent@.take(n as int) =~= self.intent@);
        }
        cur
    }

    /// The value this transaction sees for `key` in the family named `cf`:
    /// its own buffered writes first, then its read view of the store.
    fn get_in_cf(&self, db: &Db, cf: &str, key: &[u8]) -> (r: Result<Option<Vec<u8>>, Error>)
        requires
            db_wf(*db),
        ensures
            self.aborted ==> r == Result::<Option<Vec<u8>>, Error>::Err(Error::InvalidState),
            !self.aborted ==> (r matches Result::Ok(v) && opt_bytes(v) == txn_read(
                *self,
                *db,
                cf@,
                key@,
            )),
    {
        if self.aborted {
            return Result::Err(Error::InvalidState);
        }
        let base: Option<Vec<u8>> = match db.find_cf(cf) {
            Option::Some(i) => {
                proof {
                    lemma_db_cf_at(*db, cf@, i as int);
                }
                if self.use_snapshot {
                    db.cfs[i].store.read_at(key, self.snap_seq)
                } else {
                    db.cfs[i].store.read_current(key)
                }
            },
            Option::None => Option::None,
        };
        proof {
            assert(opt_bytes(base) == txn_base(*self, *db, cf@, key@));
        }
        Result::Ok(self.resolve_local(cf, key, base))
    }

    /// The value this transaction sees for `key` in the default column
    /// family.
    pub fn get(&self, db: &Db, key: &[u8]) -> (r: Result<Option<Vec<u8>>, Error>)
        requires
            db_wf(*db),
        ensures
            self.aborted ==> r == Result::<Option<Vec<u8>>, Error>::Err(Error::InvalidState),
            !self.aborted ==> (r matches Result::Ok(v) && opt_bytes(v) == txn_read(
                *self,
                *db,
                default_name(),
                key@,
            )),
    {
        self.get_in_cf(db, "default", key)
    }

    /// The value this transaction sees for `key`; the in-memory store has no
    /// pinning, so this equals `get`.
    pub fn get_pinned(&self, db: &Db, key: &[u8]) -> (r: Result<Option<Vec<u8>>, Error>)
        requires
            db_wf(*db),
        ensures
            self.aborted ==> r == Result::<Option<Vec<u8>>, Error>::Err(Error::InvalidState),
            !self.aborted ==> (r matches Result::Ok(v) && opt_bytes(v) == txn_read(
                *self,
                *db,
                default_name(),
                key@,
            )),
    {
        self.get_in_cf(db, "default", key)
    }

    /// The value this transaction sees for `key` in the family the handle
    /// names.
    pub fn get_cf(&self, db: &Db, h: &CfHandle, key: &[u8]) -> (r: Result<Option<Vec<u8>>, Error>)
        requires
            db_wf(*db),
        ensures
            self.aborted ==> r == Result::<Option<Vec<u8>>, Error>::Err(Error::InvalidState),
            !self.aborted ==> (r matches Result::Ok(v) && opt_bytes(v) == txn_read(
                *self,
                *db,
                h.name@,
                key@,
            )),
    {
        self.get_in_cf(db, h.name.as_str(), key)
    }

    /// As `get_cf`; the in-memory store has no pinning.
    pub fn get_pinned_cf(&self, db: &Db, h: &CfHandle, key: &[u8]) -> (r: Result<
        Option<Vec<u8>>,
        Error,
    >)
        requires
            db_wf(*db),
        ensures
            self.aborted ==> r == Result::<Option<Vec<u8>>, Error>::Err(Error::InvalidState),
            !self.aborted ==> (r matches Result::Ok(v) && opt_bytes(v) == txn_read(
                *self,
                *db,
                h.name@,
                key@,
            )),
    {
        self.get_in_cf(db, h.name.as_str(), key)
    }

    /// Mark the current end of the intent log; a later
    /// `rollback_to_savepoint` discards exactly what came after this point.
    pub fn set_savepoint(&mut self)
        requires
            txn_wf(*old(self)),
        ensures
            txn_wf(*final(self)),
            final(self).savepoints@ == old(self).savepoints@.push(old(self).intent@.len() as usize),
            final(self).intent == old(self).intent,
            same_txn_config(*old(self), *final(self)),
    {
        let mark = self.intent.len();
        self.savepoints.push(mark);
    }

    /// Discard exactly the writes buffered after the most recent savepoint
    /// and drop that savepoint; everything buffered before it is kept, the
    /// transaction stays usable, and its snapshot, if any, is unchanged.
    pub fn rollback_to_savepoint(&mut self) -> (r: Result<(), Error>)
        requires
            txn_wf(*old(self)),
        ensures
            txn_wf(*final(self)),
            old(self).aborted ==> r == Result::<(), Error>::Err(Error::InvalidState) && *final(self) == *old(self),
            !old(self).aborted && old(self).savepoints@.len() == 0 ==> r == Result::<(
                ),
                Error,
            >::Err(Error::InvalidState) && *final(self) == *old(self),
            !old(self).aborted && old(self).savepoints@.len() > 0 ==> {
                &&& r == Result::<(), Error>::Ok(())
                &&& final(self).intent@ == old(self).intent@.take(
                    old(self).savepoints@.last() as int,
                )
                &&& final(self).savepoints@ == old(self).savepoints@.drop_last()
                &&& same_txn_config(*old(self), *final(self))
            },
    {
        if self.aborted {
            return Result::Err(Error::InvalidState);
        }
        if self.savepoints.is_empty() {
            return Result::Err(Error::InvalidState);
        }
        let mark = match self.savepoints.pop() {
            Option::Some(m) => m,
            Option::None => 0,
        };
        proof {
            assert(self.savepoints@ =~= old(self).savepoints@.drop_last());
        }
        self.intent.truncate(mark);
        Result::Ok(())
    }

    /// Discard every buffered write and savepoint; the handle goes on as a
    /// fresh transaction observing from the store's current sequence number.
    pub fn rollback(&mut self, db: &Db) -> (r: Result<(), Error>)
        ensures
            r == Result::<(), Error>::Ok(()),
            txn_fresh(*final(self), *db, old(self).use_snapshot),
            txn_wf(*final(self)),
    {
        self.intent.clear();
        self.savepoints.clear();
        self.aborted = false;
        self.snap_seq = db.seq;
        Result::Ok(())
    }

    /// The snapshot this transaction was begun with.
    pub fn snapshot(&self) -> (r: Result<Snapshot, Error>)
        ensures
            self.use_snapshot ==> (r matches Result::Ok(s) && s.seq == self.snap_seq
                && s.released == false),
            !self.use_snapshot ==> r == Result::<Snapshot, Error>::Err(Error::InvalidState),
    {
        if self.use_snapshot {
            Result::Ok(Snapshot { seq: self.snap_seq, released: false })
        } else {
            Result::Err(Error::InvalidState)
        }
    }

    /// Validate and apply the intent log.
    ///
    /// Validation fails with `Conflict`, and aborts the handle, exactly when
    /// some key in the log was committed by anyone else after this
    /// transaction observed it; the store is then untouched.  On success the
    /// whole log is applied as one atomic commit — the most recent local
    /// write of each key wins, merge operands concatenate — and the handle
    /// goes on as a fresh transaction.
    #[verifier::loop_isolation(false)]
    pub fn commit(&mut self, db: &mut Db) -> (r: Result<(), Error>)
        requires
            db_wf(*old(db)),
            old(db).seq < u64::MAX,
        ensures
            db_wf(*final(db)),
            old(self).aborted ==> r == Result::<(), Error>::Err(Error::InvalidState) && *final(self) == *old(self) && *final(db) == *old(db),
            !old(self).aborted && !cfs_present(*old(self), *old(db)) ==> (r matches Result::Err(
                Error::UnknownColumnFamily(s),
            ) && !db_has_cf(*old(db), s@) && intent_names(*old(self), s@)) && *final(self) == *old(
                self,
            ) && *final(db) == *old(db),
            !old(self).aborted && cfs_present(*old(self), *old(db)) && !commit_ok(
                *old(self),
                *old(db),
            ) ==> {
                &&& r == Result::<(), Error>::Err(Error::Conflict)
                &&& *final(db) == *old(db)
                &&& final(self).aborted == true
                &&& final(self).intent == old(self).intent
                &&& final(self).savepoints == old(self).savepoints
                &&& final(self).use_snapshot == old(self).use_snapshot
                &&& final(self).snap_seq == old(self).snap_seq
            },
            !old(self).aborted && cfs_present(*old(self), *old(db)) && commit_ok(
                *old(self),
                *old(db),
            ) ==> {
                &&& r == Result::<(), Error>::Ok(())
                &&& txn_fresh(*final(self), *final(db), old(self).use_snapshot)
                &&& db_same_cfs(*old(db), *final(db))
                &&& final(db).seq == old(db).seq + 1
                &&& forall|n2: Seq<char>, k: Seq<u8>| #[trigger] db_current(*final(db), n2, k)
                    == local_resolve(
                    old(self).intent@,
                    n2,
                    k,
                    db_current(*old(db), n2, k),
                )
                &&& forall|n2: Seq<char>, k: Seq<u8>|
                    intent_touches(old(self).intent@, n2, k) ==> #[trigger] db_mod_seq(
                        *final(db),
                        n2,
                        k,
                    ) == final(db).seq
                &&& forall|n2: Seq<char>, k: Seq<u8>|
                    !intent_touches(old(self).intent@, n2, k) ==> #[trigger] db_mod_seq(
                        *final(db),
                        n2,
                        k,
                    ) == db_mod_seq(*old(db), n2, k)
                &&& forall|n2: Seq<char>, k: Seq<u8>, q: u64|
                    q < final(db).seq ==> #[trigger] db_get_at(*final(db), n2, k, q) == db_get_at(
                        *old(db),
                        n2,
                        k,
                        q,
                    )
                &&& forall|n2: Seq<char>, k: Seq<u8>, q: u64|
                    !intent_touches(old(self).intent@, n2, k) ==> #[trigger] db_get_at(
                        *final(db),
                        n2,
                        k,
                        q,
                    ) == db_get_at(*old(db), n2, k, q)
            },
    {
        if self.aborted {
            return Result::Err(Error::InvalidState);
        }
        let ghost tpre = *self;
        let ghost dpre = *db;
        let n = self.intent.len();

        // every named column family must be present
        let mut i: usize = 0;
        while i < n
            invariant
                0 <= i <= n,
                n == self.intent@.len(),
                forall|t: int|
                    0 <= t < i ==> db_has_cf(*db, (#[trigger] self.intent@[t]).cf@),
            decreases n - i,
        {
            let e = &self.intent[i];
            if db.find_cf(e.cf.as_str()).is_none() {
                proof {
                    assert(intent_names(*self, self.intent@[i as int].cf@));
                }
                return Result::Err(Error::UnknownColumnFamily(e.cf.clone()));
            }
            i = i + 1;
        }

        // validate: no key was committed past its observed sequence number
        let mut i: usize = 0;
        while i < n
            invariant
                0 <= i <= n,
                *self == tpre,
                n == self.intent@.len(),
                cfs_present(*self, *db),
                forall|t: int|
                    0 <= t < i ==> db_mod_seq(
                        *db,
                        (#[trigger] self.intent@[t]).cf@,
                        self.intent@[t].key@,
                    ) <= self.intent@[t].obs,
            decreases n - i,
        {
            let e = &self.intent[i];
            let ms = match db.find_cf(e.cf.as_str()) {
                Option::Some(ci) => {
                    proof {
                        lemma_db_cf_at(*db, self.intent@[i as int].cf@, ci as int);
                    }
                    db.cfs[ci].store.seq_of(e.key.as_slice())
                },
                Option::None => {
                    proof {
                        assert(db_has_cf(*db, self.intent@[i as int].cf@));
                        assert(false);
                    }
                    0
                },
            };
            if ms > e.obs {
                self.aborted = true;
                return Result::Err(Error::Conflict);
            }
            i = i + 1;
        }

        // apply the whole log as one atomic commit
        let ghost dchecked = *db;
        db.seq = db.seq + 1;
        let sq = db.seq;
        proof {
            lemma_db_bump(dpre, *db);
            assert(cfs_present(tpre, *db)) by {
                assert forall|t: int|
                    0 <= t < tpre.intent@.len() implies db_has_cf(
                    *db,
                    (#[trigger] tpre.intent@[t]).cf@,
                ) by {
                    assert(db_has_cf(dpre, tpre.intent@[t].cf@));
                }
            }
        }
        let mut i: usize = 0;
        while i < n
            invariant
                0 <= i <= n,
                n == tpre.intent@.len(),
                *self == tpre,
                db.seq == sq,
                sq == dpre.seq + 1,
                db_wf(*db),
                db_same_cfs(dpre, *db),
                cfs_present(tpre, *db),
                forall|n2: Seq<char>, k: Seq<u8>| #[trigger] db_current(*db, n2, k)
                    == local_resolve(
                    tpre.intent@.take(i as int),
                    n2,
                    k,
                    db_current(dpre, n2, k),
                ),
                forall|n2: Seq<char>, k: Seq<u8>|
                    intent_touches(tpre.intent@.take(i as int), n2, k) ==> #[trigger] db_mod_seq(
                        *db,
                        n2,
                        k,
                    ) == sq,
                forall|n2: Seq<char>, k: Seq<u8>|
                    !intent_touches(tpre.intent@.take(i as int), n2, k) ==> #[trigger] db_mod_seq(
                        *db,
                        n2,
                        k,
                    ) == db_mod_seq(dpre, n2, k),
                forall|n2: Seq<char>, k: Seq<u8>, q: u64|
                    q < sq ==> #[trigger] db_get_at(*db, n2, k, q) == db_get_at(dpre, n2, k, q),
                forall|n2: Seq<char>, k: Seq<u8>, q: u64|
                    !intent_touches(tpre.intent@.take(i as int), n2, k) ==> #[trigger] db_get_at(
                        *db,
                        n2,
                        k,
                        q,
                    ) == db_get_at(dpre, n2, k, q),
            decreases n - i,
        {
            let ghost dmid = *db;
            proof {
                assert(tpre.intent@.take(i + 1).drop_last() =~= tpre.intent@.take(i as int));
                assert(tpre.intent@.take(i + 1).last() == tpre.intent@[i as int]);
            }
            let e = &self.intent[i];
            let ci = match db.find_cf(e.cf.as_str()) {
                Option::Some(ci) => ci,
                Option::None => {
                    proof {
                        assert(db_has_cf(*db, tpre.intent@[i as int].cf@));
                        assert(false);
                    }
                    0
                },
            };
            proof {
                lemma_db_cf_at(dmid, tpre.intent@[i as int].cf@, ci as int);
            }
            let cf = &mut db.cfs[ci];
            cf.store.apply_one(e.key.as_slice(), &e.op, sq);
            proof {
                let dpost = *db;
                let en = tpre.intent@[i as int].cf@;
                let ek = tpre.intent@[i as int].key@;
                assert(forall|t: int|
                    0 <= t < dpost.cfs@.len() && t != ci ==> dpost.cfs@[t] == dmid.cfs@[t]);
                assert(dpost.cfs@[ci as int].name@ == en);
                assert(db_wf(dpost));
                lemma_db_cf_at(dpost, en, ci as int);
                assert(store_step(
                    cf_recs(dmid, en),
                    cf_recs(dpost, en),
                    ek,
                    tpre.intent@[i as int].op,
                    sq,
                ));
                assert forall|n2: Seq<char>, k: Seq<u8>| #[trigger] db_current(dpost, n2, k)
                    == local_resolve(
                    tpre.intent@.take(i + 1),
                    n2,
                    k,
                    db_current(dpre, n2, k),
                ) by {
                    lemma_same_cf_views(dmid, dpost, ci as int, en, n2);
                    if n2 == en && k == ek {
                    } else if n2 == en {
                        assert(db_current(dpost, n2, k) == db_current(dmid, n2, k));
                    } else {
                        assert(db_current(dpost, n2, k) == db_current(dmid, n2, k));
                    }
                }
                assert forall|n2: Seq<char>, k: Seq<u8>|
                    intent_touches(tpre.intent@.take(i + 1), n2, k) implies #[trigger] db_mod_seq(
                        dpost,
                        n2,
                        k,
                    ) == sq by {
                    lemma_same_cf_views(dmid, dpost, ci as int, en, n2);
                    if n2 == en && k == ek {
                    } else {
                        assert(intent_touches(tpre.intent@.take(i as int), n2, k)) by {
                            let w = choose|w: int|
                                0 <= w < tpre.intent@.take(i + 1).len() && (#[trigger] tpre.intent@.take(
                                    i + 1,
                                )[w]).cf@ == n2 && tpre.intent@.take(i + 1)[w].key@ == k;
                            assert((tpre.intent@.take(i as int)[w]).cf@ == n2);
                        }
                        assert(db_mod_seq(dpost, n2, k) == db_mod_seq(dmid, n2, k));
                    }
                }
                assert forall|n2: Seq<char>, k: Seq<u8>|
                    !intent_touches(tpre.intent@.take(i + 1), n2, k) implies #[trigger] db_mod_seq(
                        dpost,
                        n2,
                        k,
                    ) == db_mod_seq(dpre, n2, k) by {
                    lemma_same_cf_views(dmid, dpost, ci as int, en, n2);
                    lemma_untouched_step(tpre.intent@, i as int, n2, k);
                    assert(db_mod_seq(dpost, n2, k) == db_mod_seq(dmid, n2, k));
                }
                assert forall|n2: Seq<char>, k: Seq<u8>, q: u64|
                    q < sq implies #[trigger] db_get_at(dpost, n2, k, q) == db_get_at(
                        dpre,
                        n2,
                        k,
                        q,
                    ) by {
                    lemma_same_cf_views(dmid, dpost, ci as int, en, n2);
                    assert(db_get_at(dpost, n2, k, q) == db_get_at(dmid, n2, k, q));
                }
                assert forall|n2: Seq<char>, k: Seq<u8>, q: u64|
                    !intent_touches(tpre.intent@.take(i + 1), n2, k) implies #[trigger] db_get_at(
                        dpost,
                        n2,
                        k,
                        q,
                    ) == db_get_at(dpre, n2, k, q) by {
                    lemma_same_cf_views(dmid, dpost, ci as int, en, n2);
                    lemma_untouched_step(tpre.intent@, i as int, n2, k);
                    assert(db_get_at(dpost, n2, k, q) == db_get_at(dmid, n2, k, q));
                }
            }
            i = i + 1;
        }
        proof {
            assert(tpre.intent@.take(n as int) =~= tpre.intent@);
        }
        self.intent.clear();
        self.savepoints.clear();
        self.snap_seq = db.seq;
        Result::Ok(())
    }
}

/// Whether some intent entry names the column family `n`.
pub open spec fn intent_names(t: Transaction, n: Seq<char>) -> bool {
    exists|i: int| 0 <= i < t.intent@.len() && (#[trigger] t.intent@[i]).cf@ == n
}

/// An entry outside `(n2, k)` cannot make the prefix touch `(n2, k)`.
proof fn lemma_untouched_step(intent: Seq<IntentOp>, i: int, n2: Seq<char>, k: Seq<u8>)
    requires
        0 <= i < intent.len(),
        !intent_touches(intent.take(i + 1), n2, k),
    ensures
        !intent_touches(intent.take(i), n2, k),
        !(intent[i].cf@ == n2 && intent[i].key@ == k),
{
    if intent[i].cf@ == n2 && intent[i].key@ == k {
        assert((tseq(intent, i + 1)[i]).cf@ == n2 && tseq(intent, i + 1)[i].key@ == k);
        assert(intent_touches(intent.take(i + 1), n2, k));
    }
    if intent_touches(intent.take(i), n2, k) {
        let w = choose|w: int|
            0 <= w < intent.take(i).len() && (#[trigger] intent.take(i)[w]).cf@ == n2
                && intent.take(i)[w].key@ == k;
        assert((tseq(intent, i + 1)[w]).cf@ == n2 && tseq(intent, i + 1)[w].key@ == k);
        assert(intent_touches(intent.take(i + 1), n2, k));
    }
}

/// Shorthand for a prefix of the intent log.
spec fn tseq(intent: Seq<IntentOp>, i: int) -> Seq<IntentOp> {
    intent.take(i)
}

/// Advancing the sequence number alone changes no column-family view.
pub proof fn lemma_db_bump(pre: Db, post: Db)
    requires
        db_wf(pre),
        post.cfs@ == pre.cfs@,
        pre.seq <= post.seq,
    ensures
        db_wf(post),
        forall|n: Seq<char>| #[trigger] db_has_cf(post, n) == db_has_cf(pre, n),
        forall|n: Seq<char>| db_has_cf(pre, n) ==> #[trigger] db_cf_at(post, n) == db_cf_at(
            pre,
            n,
        ) && cf_recs(post, n) == cf_recs(pre, n),
        forall|n: Seq<char>, k: Seq<u8>, q: u64| #[trigger] db_get_at(post, n, k, q) == db_get_at(
            pre,
            n,
            k,
            q,
        ),
        forall|n: Seq<char>, k: Seq<u8>| #[trigger] db_current(post, n, k) == db_current(pre, n, k),
        forall|n: Seq<char>, k: Seq<u8>| #[trigger] db_mod_seq(post, n, k) == db_mod_seq(pre, n, k),
{
    assert forall|n: Seq<char>| #[trigger] db_has_cf(post, n) == db_has_cf(pre, n) by {
        if db_has_cf(pre, n) {
            let w = db_cf_at(pre, n);
            lemma_db_cf_at(pre, n, w);
            assert(post.cfs@[w].name@ == n);
        }
        if db_has_cf(post, n) {
            let w = db_cf_at(post, n);
            assert(pre.cfs@[w].name@ == n);
        }
    }
    assert forall|n: Seq<char>| db_has_cf(pre, n) implies #[trigger] db_cf_at(post, n)
        == db_cf_at(pre, n) && cf_recs(post, n) == cf_recs(pre, n) by {
        let w = db_cf_at(pre, n);
        lemma_db_cf_at(pre, n, w);
        lemma_db_cf_at(post, n, w);
    }
}

/// When only the column family at position `ci` changed, every family view
/// of another name is unchanged.
proof fn lemma_same_cf_views(pre: Db, post: Db, ci: int, en: Seq<char>, n2: Seq<char>)
    requires
        db_wf(pre),
        db_wf(post),
        post.cfs@.len() == pre.cfs@.len(),
        0 <= ci < pre.cfs@.len(),
        pre.cfs@[ci].name@ == en,
        post.cfs@[ci].name@ == en,
        forall|t: int| 0 <= t < post.cfs@.len() && t != ci ==> post.cfs@[t] == pre.cfs@[t],
    ensures
        db_has_cf(post, n2) == db_has_cf(pre, n2),
        n2 != en && db_has_cf(pre, n2) ==> cf_recs(post, n2) == cf_recs(pre, n2),
        n2 == en ==> db_cf_at(post, n2) == ci && db_cf_at(pre, n2) == ci,
{
    assert forall|t: int| 0 <= t < post.cfs@.len() implies post.cfs@[t].name@
        == pre.cfs@[t].name@ by {}
    if db_has_cf(pre, n2) {
        let w = db_cf_at(pre, n2);
        assert(post.cfs@[w].name@ == n2);
        assert(db_has_cf(post, n2));
    }
    if db_has_cf(post, n2) {
        let w = db_cf_at(post, n2);
        assert(pre.cfs@[w].name@ == n2);
        assert(db_has_cf(pre, n2));
    }
    if n2 == en {
        lemma_db_cf_at(post, n2, ci);
        lemma_db_cf_at(pre, n2, ci);
    } else if db_has_cf(pre, n2) {
        let w = db_cf_at(pre, n2);
        lemma_db_cf_at(pre, n2, w);
        assert(w != ci);
        lemma_db_cf_at(post, n2, w);
    }
}

} // verus!
