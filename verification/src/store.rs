//! One ordered keyspace: records sorted by key, each holding the history of
//! committed values with the sequence number of each commit.

use vstd::prelude::*;
use crate::bytes::bytes_eq;
use crate::bytes::bytes_lt;
use crate::bytes::concat_bytes;
use crate::bytes::copy_bytes;
use crate::bytes::lemma_lex_lt_asym;
use crate::bytes::lemma_lex_lt_connex;
use crate::bytes::lemma_lex_lt_trans;
use crate::bytes::lex_lt;

verus! {

/// A write to one key: store the value, remove the key, or append a merge
/// operand to be resolved by concatenation.
#[derive(Debug)]
pub enum Op {
    Put(Vec<u8>),
    Delete,
    Merge(Vec<u8>),
}

/// One committed value of a key (`None` is a tombstone), together with the
/// sequence number of the commit that wrote it.
#[derive(Debug)]
pub struct Version {
    pub seq: u64,
    pub value: Option<Vec<u8>>,
}

/// One key with its full committed history, newest last.
#[derive(Debug)]
pub struct Record {
    pub key: Vec<u8>,
    pub versions: Vec<Version>,
}

/// The mathematical value of an optional byte string.
pub open spec fn opt_bytes(o: Option<Vec<u8>>) -> Option<Seq<u8>> {
    match o {
        Option::Some(v) => Option::Some(v@),
        Option::None => Option::None,
    }
}

/// The concatenating merge policy: the operand is appended to the existing
/// value, or stands alone when there is none.  It is associative in the sense
/// that operands may be folded in any grouping, in call order.
pub open spec fn merge_concat(prev: Option<Seq<u8>>, operand: Seq<u8>) -> Seq<u8> {
    match prev {
        Option::Some(v) => v + operand,
        Option::None => operand,
    }
}

/// What one write makes of the previous value of its key.
pub open spec fn apply_op_value(prev: Option<Seq<u8>>, op: Op) -> Option<Seq<u8>> {
    match op {
        Op::Put(v) => Option::Some(v@),
        Op::Delete => Option::None,
        Op::Merge(operand) => Option::Some(merge_concat(prev, operand@)),
    }
}

/// The value of a history as of sequence number `q`: the newest version
/// committed at or before `q`.
pub open spec fn value_at(vs: Seq<Version>, q: u64) -> Option<Seq<u8>>
    decreases vs.len(),
{
    if vs.len() == 0 {
        Option::None
    } else if vs.last().seq <= q {
        opt_bytes(vs.last().value)
    } else {
        value_at(vs.drop_last(), q)
    }
}

/// A history is non-empty and its sequence numbers strictly increase.
pub open spec fn versions_ok(vs: Seq<Version>) -> bool {
    vs.len() > 0 && (forall|a: int, b: int|
        0 <= a < b < vs.len() ==> vs[a].seq < vs[b].seq)
}

/// Records stand in strictly increasing key order (so keys are unique), and
/// every history is well formed.
pub open spec fn records_wf(s: Seq<Record>) -> bool {
    &&& forall|i: int, j: int|
        0 <= i < j < s.len() ==> lex_lt(s[i].key@, s[j].key@)
    &&& forall|i: int| 0 <= i < s.len() ==> versions_ok((#[trigger] s[i]).versions@)
}

/// No version carries a sequence number above `bound`.
pub open spec fn store_bounded(s: Seq<Record>, bound: u64) -> bool {
    forall|i: int| 0 <= i < s.len() ==> (#[trigger] s[i]).versions@.last().seq <= bound
}

/// Whether some record holds key `k`.
pub open spec fn has_key(s: Seq<Record>, k: Seq<u8>) -> bool {
    exists|i: int| 0 <= i < s.len() && s[i].key@ == k
}

/// The index of the record holding key `k` (unique when the keys are sorted).
pub open spec fn key_at(s: Seq<Record>, k: Seq<u8>) -> int {
    choose|i: int| 0 <= i < s.len() && s[i].key@ == k
}

/// The value of key `k` as of sequence number `q`; `None` when the key is
/// absent or was deleted at or before `q`.
pub open spec fn get_at(s: Seq<Record>, k: Seq<u8>, q: u64) -> Option<Seq<u8>> {
    if has_key(s, k) {
        value_at(s[key_at(s, k)].versions@, q)
    } else {
        Option::None
    }
}

/// The current value of key `k`.
pub open spec fn current(s: Seq<Record>, k: Seq<u8>) -> Option<Seq<u8>> {
    get_at(s, k, u64::MAX)
}

/// The sequence number of the last commit that wrote key `k`; 0 when the key
/// was never written.
pub open spec fn mod_seq(s: Seq<Record>, k: Seq<u8>) -> u64 {
    if has_key(s, k) {
        s[key_at(s, k)].versions@.last().seq
    } else {
        0
    }
}

/// How one write at sequence number `s` relates the store before it to the
/// store after it: the written key takes the new value and sequence number,
/// its history below `s` is kept, and every other key is untouched.
pub open spec fn store_step(pre: Seq<Record>, post: Seq<Record>, k: Seq<u8>, op: Op, s: u64) -> bool {
    &&& has_key(post, k)
    &&& current(post, k) == apply_op_value(current(pre, k), op)
    &&& mod_seq(post, k) == s
    &&& forall|q: u64| q < s ==> #[trigger] get_at(post, k, q) == get_at(pre, k, q)
    &&& forall|k2: Seq<u8>| k2 != k ==> #[trigger] has_key(post, k2) == has_key(pre, k2)
    &&& forall|k2: Seq<u8>| k2 != k ==> #[trigger] mod_seq(post, k2) == mod_seq(pre, k2)
    &&& forall|k2: Seq<u8>, q: u64| k2 != k ==> #[trigger] get_at(post, k2, q) == get_at(pre, k2, q)
}

/// In a sorted store the record index of a key is unique.
pub proof fn lemma_key_at(s: Seq<Record>, k: Seq<u8>, i: int)
    requires
        records_wf(s),
        0 <= i < s.len(),
        s[i].key@ == k,
    ensures
        has_key(s, k),
        key_at(s, k) == i,
{
    assert(has_key(s, k));
    let j = key_at(s, k);
    if j < i {
        lemma_lex_lt_asym(s[j].key@, s[i].key@);
    } else if j > i {
        lemma_lex_lt_asym(s[i].key@, s[j].key@);
    }
}

/// One keyspace of the store.
#[derive(Debug)]
pub struct Store {
    pub recs: Vec<Record>,
}

impl Store {
    pub fn new() -> (r: Store)
        ensures
            r.recs@.len() == 0,
            records_wf(r.recs@),
            store_bounded(r.recs@, 0),
    {
        Store { recs: Vec::new() }
    }

    /// The index of the record holding `k`, if any.
    #[verifier::loop_isolation(false)]
    pub fn find(&self, k: &[u8]) -> (r: Option<usize>)
        requires
            records_wf(self.recs@),
        ensures
            match r {
                Option::Some(i) => {
                    &&& 0 <= i < self.recs@.len()
                    &&& self.recs@[i as int].key@ == k@
                    &&& has_key(self.recs@, k@)
                    &&& key_at(self.recs@, k@) == i
                },
                Option::None => !has_key(self.recs@, k@),
            },
    {
        let n = self.recs.len();
        let mut i: usize = 0;
        while i < n
            invariant
                records_wf(self.recs@),
                n == self.recs@.len(),
                0 <= i <= n,
                forall|j: int| 0 <= j < i ==> self.recs@[j].key@ != k@,
            decreases n - i,
        {
            if bytes_eq(self.recs[i].key.as_slice(), k) {
                proof {
                    lemma_key_at(self.recs@, k@, i as int);
                }
                return Option::Some(i);
            }
            i = i + 1;
        }
        proof {
            assert forall|j: int| 0 <= j < self.recs@.len() implies self.recs@[j].key@ != k@ by {}
        }
        Option::None
    }

    /// The value of `k` as of sequence number `q`.
    #[verifier::loop_isolation(false)]
    pub fn read_at(&self, k: &[u8], q: u64) -> (r: Option<Vec<u8>>)
        requires
            records_wf(self.recs@),
        ensures
            opt_bytes(r) == get_at(self.recs@, k@, q),
    {
        match self.find(k) {
            Option::None => Option::None,
            Option::Some(i) => {
                let vs = &self.recs[i].versions;
                let mut j = vs.len();
                proof {
                    assert(vs@.take(j as int) =~= vs@);
                }
                while j > 0
                    invariant
                        0 <= j <= vs@.len(),
                        forall|t: int| 0 <= t < j ==> vs@[t] == vs@.take(j as int)[t],
                        value_at(vs@, q) == value_at(vs@.take(j as int), q),
                    decreases j,
                {
                    j = j - 1;
                    let ver = &vs[j];
                    if ver.seq <= q {
                        proof {
                            assert(vs@.take(j + 1).last() == vs@[j as int]);
                        }
                        let r = match &ver.value {
                            Option::Some(v) => Option::Some(copy_bytes(v.as_slice())),
                            Option::None => Option::None,
                        };
                        proof {
                            assert(opt_bytes(r) == opt_bytes(vs@[j as int].value));
                            assert(get_at(self.recs@, k@, q) == value_at(vs@, q));
                        }
                        return r;
                    }
                    proof {
                        assert(vs@.take(j + 1).last() == vs@[j as int]);
                        assert(vs@.take(j + 1).drop_last() =~= vs@.take(j as int));
                    }
                }
                proof {
                    assert(vs@.take(0).len() == 0);
                }
                Option::None
            },
        }
    }

    /// The current value of `k`.
    pub fn read_current(&self, k: &[u8]) -> (r: Option<Vec<u8>>)
        requires
            records_wf(self.recs@),
        ensures
            opt_bytes(r) == current(self.recs@, k@),
    {
        self.read_at(k, u64::MAX)
    }

    /// The sequence number of the last commit that wrote `k`.
    pub fn seq_of(&self, k: &[u8]) -> (r: u64)
        requires
            records_wf(self.recs@),
        ensures
            r == mod_seq(self.recs@, k@),
    {
        match self.find(k) {
            Option::None => 0,
            Option::Some(i) => {
                let vs = &self.recs[i].versions;
                vs[vs.len() - 1].seq
            },
        }
    }

    /// Apply one write at sequence number `s`, preserving all history below
    /// `s`.  A repeated write of the same key at the same `s` replaces the
    /// version written at `s`, so one atomic batch leaves one version.
    pub fn apply_one(&mut self, k: &[u8], op: &Op, s: u64)
        requires
            records_wf(old(self).recs@),
            store_bounded(old(self).recs@, s),
        ensures
            records_wf(final(self).recs@),
            store_bounded(final(self).recs@, s),
            store_step(old(self).recs@, final(self).recs@, k@, *op, s),
    {
        let prev = self.read_current(k);
        let new_val: Option<Vec<u8>> = match op {
            Op::Put(v) => Option::Some(copy_bytes(v.as_slice())),
            Op::Delete => Option::None,
            Op::Merge(operand) => Option::Some(
                match &prev {
                    Option::Some(p) => concat_bytes(p.as_slice(), operand.as_slice()),
                    Option::None => copy_bytes(operand.as_slice()),
                },
            ),
        };
        proof {
            assert(opt_bytes(new_val) == apply_op_value(current(old(self).recs@, k@), *op));
        }
        match self.find(k) {
            Option::Some(i) => {
                self.update_existing(i, new_val, s, Ghost(k@), Ghost(*op));
            },
            Option::None => {
                self.insert_new(k, new_val, s, Ghost(*op));
            },
        }
    }

    /// Write the new value into the record at `i`.
    fn update_existing(
        &mut self,
        i: usize,
        new_val: Option<Vec<u8>>,
        s: u64,
        Ghost(k): Ghost<Seq<u8>>,
        Ghost(op): Ghost<Op>,
    )
        requires
            records_wf(old(self).recs@),
            store_bounded(old(self).recs@, s),
            0 <= i < old(self).recs@.len(),
            old(self).recs@[i as int].key@ == k,
            opt_bytes(new_val) == apply_op_value(current(old(self).recs@, k), op),
        ensures
            records_wf(final(self).recs@),
            store_bounded(final(self).recs@, s),
            store_step(old(self).recs@, final(self).recs@, k, op, s),
    {
        let ghost pre = self.recs@;
        proof {
            lemma_key_at(pre, k, i as int);
        }
        let rec = &mut self.recs[i];
        let ghost old_vs = rec.versions@;
        let last = rec.versions.len() - 1;
        if rec.versions[last].seq == s {
            let _ = rec.versions.pop();
        }
        let ghost base = rec.versions@;
        rec.versions.push(Version { seq: s, value: new_val });
        proof {
            let post = self.recs@;
            let nvs = post[i as int].versions@;
            assert(nvs.drop_last() =~= base);
            if old_vs.last().seq == s {
                assert(base =~= old_vs.drop_last());
            } else {
                assert(base =~= old_vs);
            }
            // the new history is ordered and bounded by s
            assert(versions_ok(nvs)) by {
                assert forall|a: int, b: int| 0 <= a < b < nvs.len() implies nvs[a].seq < nvs[b].seq by {
                    if b < nvs.len() - 1 {
                        assert(nvs[a] == old_vs[a] && nvs[b] == old_vs[b]);
                    } else {
                        assert(nvs[b].seq == s);
                        if old_vs.last().seq == s {
                            assert(nvs[a] == old_vs[a]);
                            assert(old_vs[a].seq < old_vs.last().seq);
                        } else {
                            assert(nvs[a] == old_vs[a]);
                            if a < old_vs.len() - 1 {
                                assert(old_vs[a].seq < old_vs.last().seq);
                            }
                            assert(old_vs.last().seq < s);
                        }
                    }
                }
            }
            // keys are unchanged, pointwise
            assert(post.len() == pre.len());
            assert(forall|t: int| 0 <= t < post.len() && t != i ==> post[t] == pre[t]);
            assert(post[i as int].key@ == k);
            assert(records_wf(post));
            assert(store_bounded(post, s));
            lemma_key_at(post, k, i as int);
            // the written key
            assert(current(post, k) == opt_bytes(new_val));
            assert(mod_seq(post, k) == s);
            assert forall|q: u64| q < s implies get_at(post, k, q) == get_at(pre, k, q) by {
                assert(value_at(nvs, q) == value_at(base, q));
                if old_vs.last().seq == s {
                    assert(value_at(old_vs, q) == value_at(old_vs.drop_last(), q));
                }
            }
            // every other key
            assert forall|k2: Seq<u8>| k2 != k implies has_key(post, k2) == has_key(pre, k2) by {
                if has_key(pre, k2) {
                    let t = key_at(pre, k2);
                    assert(post[t].key@ == k2);
                    assert(has_key(post, k2));
                }
                if has_key(post, k2) {
                    let t = key_at(post, k2);
                    assert(pre[t].key@ == k2);
                    assert(has_key(pre, k2));
                }
            }
            assert forall|k2: Seq<u8>, q: u64| k2 != k implies get_at(post, k2, q) == get_at(pre, k2, q) by {
                if has_key(pre, k2) {
                    let t = key_at(pre, k2);
                    assert(t != i);
                    lemma_key_at(post, k2, t);
                    assert(post[t] == pre[t]);
                }
            }
            assert forall|k2: Seq<u8>| k2 != k implies mod_seq(post, k2) == mod_seq(pre, k2) by {
                if has_key(pre, k2) {
                    let t = key_at(pre, k2);
                    assert(t != i);
                    lemma_key_at(post, k2, t);
                    assert(post[t] == pre[t]);
                }
            }
        }
    }

    /// Insert a record for a key the store does not hold yet.
    #[verifier::loop_isolation(false)]
    fn insert_new(&mut self, k: &[u8], new_val: Option<Vec<u8>>, s: u64, Ghost(op): Ghost<Op>)
        requires
            records_wf(old(self).recs@),
            store_bounded(old(self).recs@, s),
            !has_key(old(self).recs@, k@),
            opt_bytes(new_val) == apply_op_value(current(old(self).recs@, k@), op),
        ensures
            records_wf(final(self).recs@),
            store_bounded(final(self).recs@, s),
            store_step(old(self).recs@, final(self).recs@, k@, op, s),
    {
        let ghost pre = self.recs@;
        let n = self.recs.len();
        let mut j: usize = 0;
        while j < n && bytes_lt(self.recs[j].key.as_slice(), k)
            invariant
                records_wf(self.recs@),
                self.recs@ == pre,
                n == pre.len(),
                0 <= j <= n,
                !has_key(pre, k@),
                forall|t: int| 0 <= t < j ==> lex_lt(pre[t].key@, k@),
            decreases n - j,
        {
            j = j + 1;
        }
        proof {
            if j < n {
                assert(pre[j as int].key@ != k@) by {
                    if pre[j as int].key@ == k@ {
                        assert(has_key(pre, k@));
                    }
                }
                lemma_lex_lt_connex(pre[j as int].key@, k@);
                assert(lex_lt(k@, pre[j as int].key@));
            }
        }
        let mut vs: Vec<Version> = Vec::new();
        vs.push(Version { seq: s, value: new_val });
        let rec = Record { key: copy_bytes(k), versions: vs };
        let ghost recg = rec;
        self.recs.insert(j, rec);
        proof {
            let post = self.recs@;
            assert(post == pre.insert(j as int, recg));
            assert(post.len() == pre.len() + 1);
            assert forall|t: int| 0 <= t < post.len() implies #[trigger] post[t] == (if t < j {
                pre[t]
            } else if t == j {
                recg
            } else {
                pre[t - 1]
            }) by {
                assert(post =~= pre.subrange(0, j as int).push(recg) + pre.subrange(
                    j as int,
                    pre.len() as int,
                ));
            }
            assert(records_wf(post)) by {
                assert forall|a: int, b: int| 0 <= a < b < post.len() implies lex_lt(
                    post[a].key@,
                    post[b].key@,
                ) by {
                    if a < j && b < j {
                    } else if a < j && b == j {
                        assert(lex_lt(pre[a].key@, k@));
                    } else if a == j && b > j {
                        if j < n {
                            if b - 1 > j {
                                lemma_lex_lt_trans(k@, pre[j as int].key@, pre[b - 1].key@);
                            }
                        }
                    } else if a < j && b > j {
                    } else if a > j && b > j {
                    }
                }
            }
            assert(store_bounded(post, s));
            lemma_key_at(post, k@, j as int);
            assert(current(post, k@) == opt_bytes(new_val));
            assert(mod_seq(post, k@) == s);
            assert forall|q: u64| q < s implies get_at(post, k@, q) == get_at(pre, k@, q) by {
                assert(get_at(pre, k@, q) is None);
                assert(post[key_at(post, k@)].versions@ == recg.versions@);
                assert(recg.versions@.last().seq == s);
                assert(recg.versions@.drop_last() =~= Seq::<Version>::empty());
                assert(value_at(recg.versions@, q) == value_at(Seq::<Version>::empty(), q));
            }
            assert forall|k2: Seq<u8>| k2 != k@ implies has_key(post, k2) == has_key(pre, k2) by {
                if has_key(pre, k2) {
                    let t = key_at(pre, k2);
                    if t < j {
                        assert(post[t].key@ == k2);
                    } else {
                        assert(post[t + 1].key@ == k2);
                    }
                    assert(has_key(post, k2));
                }
                if has_key(post, k2) {
                    let t = key_at(post, k2);
                    if t < j {
                        assert(pre[t].key@ == k2);
                    } else {
                        assert(t != j);
                        assert(pre[t - 1].key@ == k2);
                    }
                    assert(has_key(pre, k2));
                }
            }
            assert forall|k2: Seq<u8>, q: u64| k2 != k@ implies get_at(post, k2, q) == get_at(
                pre,
                k2,
                q,
            ) by {
                if has_key(pre, k2) {
                    let t = key_at(pre, k2);
                    lemma_key_at(pre, k2, t);
                    if t < j {
                        lemma_key_at(post, k2, t);
                    } else {
                        lemma_key_at(post, k2, t + 1);
                    }
                }
            }
            assert forall|k2: Seq<u8>| k2 != k@ implies mod_seq(post, k2) == mod_seq(pre, k2) by {
                if has_key(pre, k2) {
                    let t = key_at(pre, k2);
                    lemma_key_at(pre, k2, t);
                    if t < j {
                        lemma_key_at(post, k2, t);
                    } else {
                        lemma_key_at(post, k2, t + 1);
                    }
                }
            }
        }
    }
}

} // verus!
