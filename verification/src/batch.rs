//! A write batch: an ordered list of writes applied to the store as one
//! atomic commit.

use vstd::prelude::*;
use crate::bytes::copy_bytes;
use crate::store::Op;

verus! {

/// One entry of a batch.
#[derive(Debug)]
pub struct BatchOp {
    pub key: Vec<u8>,
    pub op: Op,
}

/// The payload bytes of one entry: key plus value or operand.
pub open spec fn op_bytes(b: BatchOp) -> nat {
    b.key@.len() + match b.op {
        Op::Put(v) => v@.len(),
        Op::Delete => 0,
        Op::Merge(o) => o@.len(),
    }
}

/// The payload bytes of a batch.
pub open spec fn batch_bytes(ops: Seq<BatchOp>) -> nat
    decreases ops.len(),
{
    if ops.len() == 0 {
        0
    } else {
        batch_bytes(ops.drop_last()) + op_bytes(ops.last())
    }
}

/// An ordered list of writes, applied in order as one atomic commit.
#[derive(Debug)]
pub struct WriteBatch {
    pub ops: Vec<BatchOp>,
}

impl Default for WriteBatch {
    fn default() -> (r: Self)
        ensures
            r.ops@.len() == 0,
    {
        WriteBatch { ops: Vec::new() }
    }
}

impl WriteBatch {
    /// How many writes the batch holds.
    pub fn len(&self) -> (r: usize)
        ensures
            r == self.ops@.len(),
    {
        self.ops.len()
    }

    pub fn is_empty(&self) -> (r: bool)
        ensures
            r == (self.ops@.len() == 0),
    {
        self.ops.is_empty()
    }

    /// Append a write of `value` under `key`.
    pub fn put(&mut self, key: &[u8], value: &[u8])
        ensures
            final(self).ops@.len() == old(self).ops@.len() + 1,
            final(self).ops@.drop_last() == old(self).ops@,
            final(self).ops@.last().key@ == key@,
            final(self).ops@.last().op matches Op::Put(v) && v@ == value@,
    {
        let ghost pre = self.ops@;
        self.ops.push(BatchOp { key: copy_bytes(key), op: Op::Put(copy_bytes(value)) });
        proof {
            assert(self.ops@.drop_last() =~= pre);
        }
    }

    /// Append a removal of `key`.
    pub fn delete(&mut self, key: &[u8])
        ensures
            final(self).ops@.len() == old(self).ops@.len() + 1,
            final(self).ops@.drop_last() == old(self).ops@,
            final(self).ops@.last().key@ == key@,
            final(self).ops@.last().op is Delete,
    {
        let ghost pre = self.ops@;
        self.ops.push(BatchOp { key: copy_bytes(key), op: Op::Delete });
        proof {
            assert(self.ops@.drop_last() =~= pre);
        }
    }

    /// Append a merge operand for `key`, resolved by concatenation.
    pub fn merge(&mut self, key: &[u8], operand: &[u8])
        ensures
            final(self).ops@.len() == old(self).ops@.len() + 1,
            final(self).ops@.drop_last() == old(self).ops@,
            final(self).ops@.last().key@ == key@,
            final(self).ops@.last().op matches Op::Merge(o) && o@ == operand@,
    {
        let ghost pre = self.ops@;
        self.ops.push(BatchOp { key: copy_bytes(key), op: Op::Merge(copy_bytes(operand)) });
        proof {
            assert(self.ops@.drop_last() =~= pre);
        }
    }

    /// The payload bytes the batch holds, saturating at the machine limit.
    #[verifier::loop_isolation(false)]
    pub fn size_in_bytes(&self) -> (r: usize)
        ensures
            r == if batch_bytes(self.ops@) <= usize::MAX {
                batch_bytes(self.ops@)
            } else {
                usize::MAX as nat
            },
    {
        let n = self.ops.len();
        let mut acc: usize = 0;
        let mut i: usize = 0;
        while i < n
            invariant
                0 <= i <= n,
                acc == if batch_bytes(self.ops@.take(i as int)) <= usize::MAX {
                    batch_bytes(self.ops@.take(i as int))
                } else {
                    usize::MAX as nat
                },
            decreases n - i,
        {
            proof {
                assert(self.ops@.take(i + 1).drop_last() =~= self.ops@.take(i as int));
                assert(self.ops@.take(i + 1).last() == self.ops@[i as int]);
            }
            let entry = &self.ops[i];
            let klen = entry.key.len();
            let plen = match &entry.op {
                Op::Put(v) => v.len(),
                Op::Delete => 0,
                Op::Merge(o) => o.len(),
            };
            let step = if klen <= usize::MAX - plen {
                klen + plen
            } else {
                usize::MAX
            };
            acc = if acc <= usize::MAX - step {
                acc + step
            } else {
                usize::MAX
            };
            i = i + 1;
        }
        proof {
            assert(self.ops@.take(n as int) =~= self.ops@);
        }
        acc
    }
}

} // verus!
