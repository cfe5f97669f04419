//! Store, write and transaction options, and column-family descriptors.

use vstd::prelude::*;
use crate::errors::Error;

verus! {

/// Options for opening a store.
#[derive(Debug)]
pub struct Options {
    pub create_missing: bool,
    pub create_missing_cfs: bool,
    /// The registered name of the associative merge policy; the store itself
    /// always combines operands by concatenation.
    pub merge_operator: Option<String>,
}

/// The options a store opens with when none are given.
pub open spec fn default_options() -> Options {
    Options { create_missing: false, create_missing_cfs: false, merge_operator: Option::None }
}

impl Clone for Options {
    fn clone(&self) -> (r: Self)
        ensures
            r == *self,
    {
        Options {
            create_missing: self.create_missing,
            create_missing_cfs: self.create_missing_cfs,
            merge_operator: match &self.merge_operator {
                Option::Some(s) => Option::Some(s.clone()),
                Option::None => Option::None,
            },
        }
    }
}

impl Default for Options {
    fn default() -> (r: Self)
        ensures
            r == default_options(),
    {
        Options { create_missing: false, create_missing_cfs: false, merge_operator: Option::None }
    }
}

impl Options {
    /// Ask `open` to create the store when it does not exist yet.
    pub fn create_if_missing(&mut self, b: bool)
        ensures
            final(self).create_missing == b,
            final(self).create_missing_cfs == old(self).create_missing_cfs,
            final(self).merge_operator == old(self).merge_operator,
    {
        self.create_missing = b;
    }

    /// Ask `open_cf` to create the named column families it does not find.
    pub fn create_missing_column_families(&mut self, b: bool)
        ensures
            final(self).create_missing_cfs == b,
            final(self).create_missing == old(self).create_missing,
            final(self).merge_operator == old(self).merge_operator,
    {
        self.create_missing_cfs = b;
    }

    /// Register the associative merge policy under `name`.  The policy itself
    /// is the store's concatenating combine.
    pub fn set_merge_operator_associative(&mut self, name: &str)
        ensures
            final(self).merge_operator matches Option::Some(n) && n@ == name@,
            final(self).create_missing == old(self).create_missing,
            final(self).create_missing_cfs == old(self).create_missing_cfs,
    {
        self.merge_operator = Option::Some(name.to_owned());
    }
}

/// Write options; the in-memory store has nothing to tune here.
#[derive(Debug)]
pub struct WriteOptions {}

impl Default for WriteOptions {
    fn default() -> (r: Self)
        ensures
            r == (WriteOptions {  }),
    {
        WriteOptions {  }
    }
}

/// How a transaction is begun: with or without a snapshot fixing its read
/// view and its conflict-detection baseline.
#[derive(Debug)]
pub struct OptimisticTransactionOptions {
    pub snapshot: bool,
}

impl OptimisticTransactionOptions {
    pub fn new() -> (r: Self)
        ensures
            r.snapshot == false,
    {
        OptimisticTransactionOptions { snapshot: false }
    }

    /// Ask `transaction` to fix a snapshot at begin time.
    pub fn set_snapshot(&mut self, b: bool)
        ensures
            final(self).snapshot == b,
    {
        self.snapshot = b;
    }
}

/// A named column family together with the options it is opened with.
#[derive(Debug)]
pub struct ColumnFamilyDescriptor {
    pub name: String,
    pub options: Options,
}

impl ColumnFamilyDescriptor {
    pub fn new(name: &str, options: Options) -> (r: Self)
        ensures
            r.name@ == name@,
            r.options == options,
    {
        ColumnFamilyDescriptor { name: name.to_owned(), options }
    }
}

/// The name of the column family that always exists.
pub open spec fn default_name() -> Seq<char> {
    "default"@
}

/// Whether some descriptor carries the name `n`.
pub open spec fn cfd_has(s: Seq<ColumnFamilyDescriptor>, n: Seq<char>) -> bool {
    exists|i: int| 0 <= i < s.len() && s[i].name@ == n
}

/// Whether `n` occurs among the requested names.
pub open spec fn in_names(names: Seq<&str>, n: Seq<char>) -> bool {
    exists|i: int| 0 <= i < names.len() && names[i]@ == n
}

/// The options of the last descriptor named "default", if any.
pub open spec fn last_default_opts(s: Seq<ColumnFamilyDescriptor>) -> Option<Options>
    decreases s.len(),
{
    if s.len() == 0 {
        Option::None
    } else if s.last().name@ == default_name() {
        Option::Some(s.last().options)
    } else {
        last_default_opts(s.drop_last())
    }
}

/// The options that descriptors added by `complete_column_families` get.
pub open spec fn completion_opts(s: Seq<ColumnFamilyDescriptor>) -> Options {
    match last_default_opts(s) {
        Option::Some(o) => o,
        Option::None => default_options(),
    }
}

/// A descriptor neither named "default" nor requested.
pub open spec fn is_unknown(c: ColumnFamilyDescriptor, names: Seq<&str>) -> bool {
    c.name@ != default_name() && !in_names(names, c.name@)
}

/// The name of the first unknown descriptor, if any.
pub open spec fn first_unknown(s: Seq<ColumnFamilyDescriptor>, names: Seq<&str>) -> Option<
    Seq<char>,
>
    decreases s.len(),
{
    if s.len() == 0 {
        Option::None
    } else if is_unknown(s[0], names) {
        Option::Some(s[0].name@)
    } else {
        first_unknown(s.drop_first(), names)
    }
}

/// The index of the first requested name that is "default"; the length when
/// there is none.
pub open spec fn first_reserved(names: Seq<&str>) -> int
    decreases names.len(),
{
    if names.len() == 0 {
        0
    } else if names[0]@ == default_name() {
        0
    } else {
        1 + first_reserved(names.drop_first())
    }
}

/// The name and options of each descriptor, in order.
pub open spec fn cfd_views(s: Seq<ColumnFamilyDescriptor>) -> Seq<(Seq<char>, Options)> {
    s.map_values(|c: ColumnFamilyDescriptor| (c.name@, c.options))
}

/// Whether some pair carries the name `n`.
pub open spec fn views_have(v: Seq<(Seq<char>, Options)>, n: Seq<char>) -> bool {
    exists|i: int| 0 <= i < v.len() && v[i].0 == n
}

/// What the first pass makes of the descriptor list: a descriptor for
/// "default", with fresh default options, is put at the front when none is
/// there.
pub open spec fn phase1_views(v: Seq<(Seq<char>, Options)>) -> Seq<(Seq<char>, Options)> {
    if views_have(v, default_name()) {
        v
    } else {
        v.insert(0, (default_name(), default_options()))
    }
}

/// What the second pass makes of the descriptor list: the requested names
/// are walked in order, and each name not yet present is appended with the
/// completion options.
pub open spec fn completed_views(
    v: Seq<(Seq<char>, Options)>,
    names: Seq<&str>,
    defo: Options,
) -> Seq<(Seq<char>, Options)>
    decreases names.len(),
{
    if names.len() == 0 {
        v
    } else {
        let prev = completed_views(v, names.drop_last(), defo);
        if views_have(prev, names.last()@) {
            prev
        } else {
            prev.push((names.last()@, defo))
        }
    }
}

proof fn lemma_cfd_views_have(s: Seq<ColumnFamilyDescriptor>, n: Seq<char>)
    ensures
        cfd_has(s, n) == views_have(cfd_views(s), n),
{
    if cfd_has(s, n) {
        let i = choose|i: int| 0 <= i < s.len() && s[i].name@ == n;
        assert(cfd_views(s)[i].0 == n);
    }
    if views_have(cfd_views(s), n) {
        let i = choose|i: int| 0 <= i < cfd_views(s).len() && cfd_views(s)[i].0 == n;
        assert(s[i].name@ == n);
    }
}

proof fn lemma_last_default_some(s: Seq<ColumnFamilyDescriptor>)
    ensures
        (last_default_opts(s) is Some) == cfd_has(s, default_name()),
    decreases s.len(),
{
    if s.len() == 0 {
    } else {
        lemma_last_default_some(s.drop_last());
        if s.last().name@ == default_name() {
            assert(s[s.len() - 1].name@ == default_name());
            assert(cfd_has(s, default_name()));
        } else {
            if cfd_has(s, default_name()) {
                let i = choose|i: int| 0 <= i < s.len() && s[i].name@ == default_name();
                assert(i < s.len() - 1);
                assert(s.drop_last()[i].name@ == default_name());
                assert(cfd_has(s.drop_last(), default_name()));
            }
            if cfd_has(s.drop_last(), default_name()) {
                let i = choose|i: int|
                    0 <= i < s.drop_last().len() && s.drop_last()[i].name@ == default_name();
                assert(s[i].name@ == default_name());
                assert(cfd_has(s, default_name()));
            }
        }
    }
}

proof fn lemma_first_unknown_at(s: Seq<ColumnFamilyDescriptor>, names: Seq<&str>, j: int)
    requires
        0 <= j <= s.len(),
        forall|t: int| 0 <= t < j ==> !is_unknown(s[t], names),
        j < s.len() ==> is_unknown(s[j], names),
    ensures
        first_unknown(s, names) == if j < s.len() {
            Option::Some(s[j].name@)
        } else {
            Option::<Seq<char>>::None
        },
    decreases j,
{
    if j == 0 {
        if s.len() > 0 && !is_unknown(s[0], names) {
            // j == 0 == s.len() is the only consistent case then
        }
    } else {
        let s1 = s.drop_first();
        assert forall|t: int| 0 <= t < j - 1 implies !is_unknown(s1[t], names) by {
            assert(s1[t] == s[t + 1]);
        }
        if j < s.len() {
            assert(s1[j - 1] == s[j]);
        }
        lemma_first_unknown_at(s1, names, j - 1);
        assert(!is_unknown(s[0], names));
    }
}

proof fn lemma_first_reserved_at(names: Seq<&str>, j: int)
    requires
        0 <= j <= names.len(),
        forall|t: int| 0 <= t < j ==> names[t]@ != default_name(),
        j < names.len() ==> names[j]@ == default_name(),
    ensures
        first_reserved(names) == if j < names.len() {
            j
        } else {
            names.len() as int
        },
    decreases j,
{
    if j == 0 {
    } else {
        let n1 = names.drop_first();
        assert forall|t: int| 0 <= t < j - 1 implies n1[t]@ != default_name() by {
            assert(n1[t] == names[t + 1]);
        }
        if j < names.len() {
            assert(n1[j - 1] == names[j]);
        }
        lemma_first_reserved_at(n1, j - 1);
    }
}

/// Whether a descriptor for `name` is in the list.
fn cfds_contain(v: &Vec<ColumnFamilyDescriptor>, name: &str) -> (r: bool)
    ensures
        r == cfd_has(v@, name@),
{
    let target: String = name.to_owned();
    let n = v.len();
    let mut i: usize = 0;
    while i < n
        invariant
            n == v@.len(),
            0 <= i <= n,
            target@ == name@,
            forall|t: int| 0 <= t < i ==> v@[t].name@ != name@,
        decreases n - i,
    {
        if v[i].name == target {
            return true;
        }
        i = i + 1;
    }
    false
}

/// Whether `name` occurs among the requested names.
fn names_contain(names: &[&str], name: &String) -> (r: bool)
    ensures
        r == in_names(names@, name@),
{
    let n = names.len();
    let mut i: usize = 0;
    while i < n
        invariant
            n == names@.len(),
            0 <= i <= n,
            forall|t: int| 0 <= t < i ==> names@[t]@ != name@,
        decreases n - i,
    {
        let cand: String = names[i].to_owned();
        if cand == *name {
            return true;
        }
        i = i + 1;
    }
    false
}

/// Store options together with the descriptors of the column families to
/// open.
#[derive(Debug)]
pub struct FullOptions {
    pub db_opts: Options,
    pub cf_descriptors: Vec<ColumnFamilyDescriptor>,
}

impl FullOptions {
    /// Walk the requested names and add a descriptor, with the "default"
    /// descriptor's options (or fresh default options when there is no
    /// "default" descriptor, which is then also put at the front), for each
    /// requested family that has none yet.
    ///
    /// When `ignore_unknown_column_families` is false, a descriptor that is
    /// neither "default" nor requested fails the call before anything is
    /// changed.  Requesting the name "default" itself fails the call where
    /// that name is reached.
    #[verifier::loop_isolation(false)]
    pub fn complete_column_families(
        &mut self,
        cf_names: &[&str],
        ignore_unknown_column_families: bool,
    ) -> (r: Result<(), Error>)
        ensures
            final(self).db_opts == old(self).db_opts,
            ({
                let pre = old(self).cf_descriptors@;
                let post = final(self).cf_descriptors@;
                let names = cf_names@;
                let defo = completion_opts(pre);
                if !ignore_unknown_column_families && first_unknown(pre, names) is Some {
                    &&& post == pre
                    &&& r matches Result::Err(Error::UnknownColumnFamily(s)) && s@
                        == first_unknown(pre, names)->0
                } else if first_reserved(names) < names.len() {
                    &&& r == Result::<(), Error>::Err(Error::InvalidState)
                    &&& cfd_views(post) == completed_views(
                        phase1_views(cfd_views(pre)),
                        names.take(first_reserved(names)),
                        defo,
                    )
                } else {
                    &&& r == Result::<(), Error>::Ok(())
                    &&& cfd_views(post) == completed_views(phase1_views(cfd_views(pre)), names, defo)
                }
            }),
    {
        let ghost pre = self.cf_descriptors@;
        let ghost names = cf_names@;
        let cf_name_default: String = "default".to_owned();
        let mut options_default: Option<Options> = Option::None;
        let n = self.cf_descriptors.len();
        let mut i: usize = 0;
        while i < n
            invariant
                self.cf_descriptors@ == pre,
                self.db_opts == old(self).db_opts,
                n == pre.len(),
                0 <= i <= n,
                options_default == last_default_opts(pre.take(i as int)),
                !ignore_unknown_column_families ==> forall|t: int|
                    0 <= t < i ==> !is_unknown(pre[t], names),
            decreases n - i,
        {
            proof {
                assert(pre.take(i + 1).drop_last() =~= pre.take(i as int));
                assert(pre.take(i + 1).last() == pre[i as int]);
            }
            let cfd = &self.cf_descriptors[i];
            if cfd.name == cf_name_default {
                options_default = Option::Some(cfd.options.clone());
            } else if names_contain(cf_names, &cfd.name) {
                // requested: nothing to do
            } else if !ignore_unknown_column_families {
                proof {
                    lemma_first_unknown_at(pre, names, i as int);
                }
                return Result::Err(Error::UnknownColumnFamily(cfd.name.clone()));
            }
            i = i + 1;
        }
        proof {
            assert(pre.take(n as int) =~= pre);
            if !ignore_unknown_column_families {
                lemma_first_unknown_at(pre, names, n as int);
            }
            lemma_last_default_some(pre);
        }
        if options_default.is_none() {
            let cf = ColumnFamilyDescriptor::new("default", Options::default());
            options_default = Option::Some(cf.options.clone());
            self.cf_descriptors.insert(0, cf);
            proof {
                assert(self.cf_descriptors@.skip(1) =~= pre);
            }
        }
        let ghost base = cfd_views(self.cf_descriptors@);
        let ghost defo = completion_opts(pre);
        proof {
            lemma_cfd_views_have(pre, default_name());
            assert(base =~= phase1_views(cfd_views(pre)));
            assert(options_default == Option::Some(defo));
            assert(names.take(0).len() == 0);
            assert(completed_views(base, names.take(0), defo) == base);
        }
        let defaults = match options_default {
            Option::Some(o) => o,
            Option::None => Options::default(),
        };
        let m = cf_names.len();
        let mut j: usize = 0;
        while j < m
            invariant
                self.db_opts == old(self).db_opts,
                m == names.len(),
                0 <= j <= m,
                defaults == defo,
                cf_name_default@ == default_name(),
                base == phase1_views(cfd_views(pre)),
                cfd_views(self.cf_descriptors@) == completed_views(base, names.take(j as int), defo),
                forall|t: int| 0 <= t < j ==> names[t]@ != default_name(),
            decreases m - j,
        {
            let ghost cur = self.cf_descriptors@;
            proof {
                assert(names.take(j + 1).drop_last() =~= names.take(j as int));
                assert(names.take(j + 1).last() == names[j as int]);
            }
            let name_j: &str = cf_names[j];
            let name_owned: String = name_j.to_owned();
            if name_owned == cf_name_default {
                proof {
                    lemma_first_reserved_at(names, j as int);
                }
                return Result::Err(Error::InvalidState);
            }
            if !cfds_contain(&self.cf_descriptors, name_j) {
                let cf = ColumnFamilyDescriptor::new(name_j, defaults.clone());
                self.cf_descriptors.push(cf);
                proof {
                    lemma_cfd_views_have(cur, name_j@);
                    assert(!views_have(cfd_views(cur), names.take(j + 1).last()@));
                    assert(cfd_views(self.cf_descriptors@) =~= cfd_views(cur).push(
                        (names.take(j + 1).last()@, defo),
                    ));
                }
            } else {
                proof {
                    lemma_cfd_views_have(cur, name_j@);
                    assert(views_have(cfd_views(cur), names.take(j + 1).last()@));
                    assert(self.cf_descriptors@ == cur);
                }
            }
            proof {
                assert(completed_views(base, names.take(j + 1).drop_last(), defo) == cfd_views(
                    cur,
                ));
                assert(cfd_views(self.cf_descriptors@) == completed_views(
                    base,
                    names.take(j + 1),
                    defo,
                ));
            }
            j = j + 1;
        }
        proof {
            assert(names.take(m as int) =~= names);
            lemma_first_reserved_at(names, m as int);
        }
        Result::Ok(())
    }
}

} // verus!
