//! Snapshots: immutable read views fixed at a commit sequence number.

use vstd::prelude::*;
use crate::db::db_get_at;
use crate::db::db_wf;
use crate::db::lemma_db_cf_at;
use crate::db::Db;
use crate::errors::Error;
use crate::options::default_name;
use crate::store::opt_bytes;

verus! {

/// An immutable view of the store as of a commit sequence number.  Reads
/// through it never reflect later commits.  A released snapshot refuses
/// reads.
#[derive(Debug)]
pub struct Snapshot {
    pub seq: u64,
    pub released: bool,
}

impl Snapshot {
    /// The value `key` had in the default column family when the snapshot
    /// was taken.
    pub fn get(&self, db: &Db, key: &[u8]) -> (r: Result<Option<Vec<u8>>, Error>)
        requires
            db_wf(*db),
        ensures
            if self.released {
                r == Result::<Option<Vec<u8>>, Error>::Err(Error::InvalidState)
            } else {
                r matches Result::Ok(v) && opt_bytes(v) == db_get_at(
                    *db,
                    default_name(),
                    key@,
                    self.seq,
                )
            },
    {
        if self.released {
            return Result::Err(Error::InvalidState);
        }
        proof {
            lemma_db_cf_at(*db, default_name(), 0);
        }
        Result::Ok(db.cfs[0].store.read_at(key, self.seq))
    }

    /// The value `key` had when the snapshot was taken; the in-memory store
    /// has no pinning, so this equals `get`.
    pub fn get_pinned(&self, db: &Db, key: &[u8]) -> (r: Result<Option<Vec<u8>>, Error>)
        requires
            db_wf(*db),
        ensures
            if self.released {
                r == Result::<Option<Vec<u8>>, Error>::Err(Error::InvalidState)
            } else {
                r matches Result::Ok(v) && opt_bytes(v) == db_get_at(
                    *db,
                    default_name(),
                    key@,
                    self.seq,
                )
            },
    {
        self.get(db, key)
    }

    /// Give the snapshot up: later reads through it fail.
    pub fn release(&mut self)
        ensures
            final(self).released == true,
            final(self).seq == old(self).seq,
    {
        self.released = true;
    }
}

} // verus!
