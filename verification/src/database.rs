//! The package database: metadata records indexed by package base in
//! insertion order, duplicate detection, dependency resolution and the
//! build-order resolver.

use vstd::prelude::*;
use vstd::string::StrSliceExecFns;
use crate::extract::{extract_pkgname_prefix, pkgname_prefix_end, str_eq};
use crate::srcinfo::{SpecSrcInfo, SrcInfo};

verus! {

/// What the database stores for one package base.
pub struct DatabaseValue {
    pub directory: String,
    pub srcinfo: SrcInfo,
}

/// A second record arrived for a package base that is already present: the
/// database keeps the existing entry and reports both source directories.
#[derive(Debug)]
pub struct DuplicateInfo {
    pub pkgbase: String,
    pub existing_directory: String,
    pub new_directory: String,
}

/// A structurally invalid record that cannot be inserted.
#[derive(Debug, PartialEq, Eq, Structural, Clone, Copy)]
pub enum InsertError {
    MissingPkgbase,
    EmptyPkgbase,
}

/// Why no build order could be produced.
#[derive(Debug)]
pub enum BuildOrderError {
    /// The dependency graph has a cycle through the named package bases.
    CyclicDependency(Vec<String>),
    /// An entry referenced by an edge vanished; defensive, never produced by
    /// this implementation.
    UnresolvedInternal,
}

/// Records indexed by package base, in insertion order.
pub struct SimpleDatabase {
    pub entries: Vec<(String, DatabaseValue)>,
}

/// Whether the record declares `name` among its package names.
pub open spec fn produces(si: SpecSrcInfo, name: Seq<char>) -> bool {
    exists|k: int| 0 <= k < si.pkgnames.len() && si.pkgnames[k] == name
}

/// Every dependency string a record declares, in order.
pub open spec fn dep_strings(si: SpecSrcInfo) -> Seq<Seq<char>> {
    si.depends + si.makedepends + si.checkdepends
}

/// The bare package name of a dependency string: what precedes its
/// version-constraint clause.
pub open spec fn dep_name(d: Seq<char>) -> Seq<char> {
    d.take(pkgname_prefix_end(d))
}

impl SimpleDatabase {
    /// Number of entries.
    pub open spec fn n(self) -> int {
        self.entries@.len() as int
    }

    /// The package base of the entry at `i`.
    pub open spec fn key_at(self, i: int) -> Seq<char> {
        self.entries@[i].0@
    }

    /// The source directory of the entry at `i`.
    pub open spec fn dir_at(self, i: int) -> Seq<char> {
        self.entries@[i].1.directory@
    }

    /// The parsed record of the entry at `i`.
    pub open spec fn rec_at(self, i: int) -> SpecSrcInfo {
        self.entries@[i].1.srcinfo@
    }

    /// At most one entry per package base.
    pub open spec fn wf(self) -> bool {
        forall|i: int, j: int| 0 <= i < j < self.n() ==> self.key_at(i) != self.key_at(j)
    }

    /// Whether some entry has the package base `key`.
    pub open spec fn has_key(self, key: Seq<char>) -> bool {
        exists|i: int| 0 <= i < self.n() && self.key_at(i) == key
    }

    /// `name` resolves to entry `j`: the first entry that produces it.
    pub open spec fn resolves_to(self, name: Seq<char>, j: int) -> bool {
        &&& 0 <= j < self.n()
        &&& produces(self.rec_at(j), name)
        &&& forall|k: int| 0 <= k < j ==> !produces(self.rec_at(k), name)
    }

    /// Entry `a` depends on entry `b`: some dependency of `a` resolves to the
    /// distinct in-database entry `b`. A dependency on one of `a`'s own names
    /// or on a name no entry produces yields no edge.
    pub open spec fn dep_edge(self, a: int, b: int) -> bool {
        &&& 0 <= a < self.n()
        &&& 0 <= b < self.n()
        &&& a != b
        &&& exists|d: int|
            0 <= d < dep_strings(self.rec_at(a)).len() && self.resolves_to(
                dep_name(dep_strings(self.rec_at(a))[d]),
                b,
            )
    }

    /// `idxs` is a dependency cycle: consecutive entries (wrapping around)
    /// are connected by edges.
    pub open spec fn is_cycle(self, idxs: Seq<int>) -> bool {
        &&& idxs.len() >= 2
        &&& forall|k: int|
            0 <= k < idxs.len() ==> #[trigger] self.dep_edge(idxs[k], idxs[(k + 1) % (
            idxs.len() as int)])
    }

    /// `ord` lists each entry exactly once, and every dependency edge points
    /// backwards: a required entry stands before every entry that needs it.
    pub open spec fn is_valid_build_order(self, ord: Seq<int>) -> bool {
        &&& forall|k: int| 0 <= k < ord.len() ==> 0 <= #[trigger] ord[k] < self.n()
        &&& ord.no_duplicates()
        &&& forall|v: int| 0 <= v < self.n() ==> #[trigger] ord.contains(v)
        &&& forall|p: int, q: int|
            0 <= p < ord.len() && 0 <= q < ord.len() && #[trigger] self.dep_edge(
                ord[p],
                ord[q],
            ) ==> q < p
    }

    /// An empty database.
    pub fn new() -> (r: SimpleDatabase)
        ensures
            r.n() == 0,
            r.wf(),
    {
        SimpleDatabase { entries: Vec::new() }
    }

    /// Every entry, in insertion order: the stable iteration order that makes
    /// the build order deterministic.
    pub fn all_entries(&self) -> (r: &Vec<(String, DatabaseValue)>)
        ensures
            r == &self.entries,
    {
        &self.entries
    }

    /// Insert a record under its package base. An already-present package
    /// base leaves the database untouched and reports the duplication with
    /// both source directories; a record without a non-empty package base is
    /// rejected.
    pub fn insert_srcinfo(&mut self, srcinfo: SrcInfo, directory: &str) -> (r: Result<
        Option<DuplicateInfo>,
        InsertError,
    >)
        requires
            old(self).wf(),
        ensures
            final(self).wf(),
            srcinfo@.pkgbase is None ==> ({
                &&& r == Err::<Option<DuplicateInfo>, InsertError>(InsertError::MissingPkgbase)
                &&& *final(self) == *old(self)
            }),
            (srcinfo@.pkgbase is Some && srcinfo@.pkgbase.unwrap().len() == 0) ==> ({
                &&& r == Err::<Option<DuplicateInfo>, InsertError>(InsertError::EmptyPkgbase)
                &&& *final(self) == *old(self)
            }),
            (srcinfo@.pkgbase is Some && srcinfo@.pkgbase.unwrap().len() > 0 && old(self).has_key(
                srcinfo@.pkgbase.unwrap(),
            )) ==> ({
                &&& *final(self) == *old(self)
                &&& r matches Ok(d)
                &&& r matches Ok(d) && d matches Some(dup) && ({
                    &&& dup.pkgbase@ == srcinfo@.pkgbase.unwrap()
                    &&& dup.new_directory@ == directory@
                    &&& exists|i: int|
                        0 <= i < old(self).n() && old(self).key_at(i) == srcinfo@.pkgbase.unwrap()
                            && dup.existing_directory@ == old(self).dir_at(i)
                })
            }),
            (srcinfo@.pkgbase is Some && srcinfo@.pkgbase.unwrap().len() > 0 && !old(self).has_key(
                srcinfo@.pkgbase.unwrap(),
            )) ==> ({
                &&& r == Ok::<Option<DuplicateInfo>, InsertError>(None)
                &&& final(self).n() == old(self).n() + 1
                &&& forall|i: int|
                    0 <= i < old(self).n() ==> final(self).entries@[i] == old(self).entries@[i]
                &&& final(self).key_at(old(self).n()) == srcinfo@.pkgbase.unwrap()
                &&& final(self).dir_at(old(self).n()) == directory@
                &&& final(self).rec_at(old(self).n()) == srcinfo@
            }),
    {
        let kb: String = match &srcinfo.pkgbase {
            Some(s) => s.clone(),
            None => {
                return Err(InsertError::MissingPkgbase);
            },
        };
        if kb.as_str().unicode_len() == 0 {
            return Err(InsertError::EmptyPkgbase);
        }
        let n: usize = self.entries.len();
        let mut i: usize = 0;
        while i < n
            invariant
                0 <= i <= n,
                n == self.n(),
                *self == *old(self),
                self.wf(),
                kb@ == srcinfo@.pkgbase.unwrap(),
                srcinfo@.pkgbase is Some,
                kb@.len() > 0,
                forall|j: int| 0 <= j < i ==> self.key_at(j) != kb@,
            decreases n - i,
        {
            if str_eq(self.entries[i].0.as_str(), kb.as_str()) {
                proof {
                    assert(self.key_at(i as int) == kb@);
                    assert(old(self).has_key(kb@));
                }
                return Ok(
                    Some(
                        DuplicateInfo {
                            pkgbase: kb,
                            existing_directory: self.entries[i].1.directory.clone(),
                            new_directory: String::from_str(directory),
                        },
                    ),
                );
            }
            i = i + 1;
        }
        let value = DatabaseValue { directory: String::from_str(directory), srcinfo };
        self.entries.push((kb, value));
        proof {
            assert(forall|j: int|
                0 <= j < old(self).n() ==> final(self).entries@[j] == old(self).entries@[j]);
            assert(self.key_at(old(self).n()) == kb@);
            assert forall|x: int, y: int| 0 <= x < y < self.n() implies self.key_at(x)
                != self.key_at(y) by {
                if y < old(self).n() {
                    assert(old(self).key_at(x) != old(self).key_at(y));
                } else {
                    assert(self.key_at(x) == old(self).key_at(x));
                    assert(old(self).key_at(x) != kb@);
                }
            }
        }
        Ok(None)
    }

    /// Read-only lookup by package base.
    pub fn lookup(&self, pkgbase: &str) -> (r: Option<&DatabaseValue>)
        requires
            self.wf(),
        ensures
            r matches Some(v) ==> exists|i: int|
                0 <= i < self.n() && self.key_at(i) == pkgbase@ && *v == self.entries@[i].1,
            r is None ==> !self.has_key(pkgbase@),
            self.has_key(pkgbase@) ==> r is Some,
    {
        let n: usize = self.entries.len();
        let mut i: usize = 0;
        while i < n
            invariant
                0 <= i <= n,
                n == self.n(),
                forall|j: int| 0 <= j < i ==> self.key_at(j) != pkgbase@,
            decreases n - i,
        {
            if str_eq(self.entries[i].0.as_str(), pkgbase) {
                proof {
                    assert(self.key_at(i as int) == pkgbase@);
                }
                return Some(&self.entries[i].1);
            }
            i = i + 1;
        }
        None
    }

    /// Resolve a bare package name to the first entry that produces it.
    pub fn resolve_name(&self, name: &str) -> (r: Option<usize>)
        ensures
            r matches Some(j) ==> self.resolves_to(name@, j as int),
            r is None ==> forall|j: int| 0 <= j < self.n() ==> !produces(self.rec_at(j), name@),
    {
        let n: usize = self.entries.len();
        let mut i: usize = 0;
        while i < n
            invariant
                0 <= i <= n,
                n == self.n(),
                forall|j: int| 0 <= j < i ==> !produces(self.rec_at(j), name@),
            decreases n - i,
        {
            if produces_exec(&self.entries[i].1.srcinfo, name) {
                return Some(i);
            }
            i = i + 1;
        }
        None
    }

/// Produce a build order: a sequence of package bases in which every entry
/// stands after all in-database entries it depends on. Fails exactly by
/// reporting a genuine dependency cycle with its participating package bases.
pub fn build_order(&self) -> (r: Result<Vec<String>, BuildOrderError>)
    requires
        self.wf(),
    ensures
        r matches Ok(names) ==> exists|ord: Seq<int>|
            self.is_valid_build_order(ord) && names.deep_view() == ord.map_values(
                |x: int| self.key_at(x),
            ),
        r matches Err(e) ==> (e matches BuildOrderError::CyclicDependency(names)
            && exists|idxs: Seq<int>|
            self.is_cycle(idxs) && names.deep_view() == idxs.map_values(
                |x: int| self.key_at(x),
            )),
{
    let n: usize = self.entries.len();
    let mut colors: Vec<u8> = Vec::new();
    let mut v0: usize = 0;
    while v0 < n
        invariant
            0 <= v0 <= n,
            colors@.len() == v0,
            forall|k: int| 0 <= k < v0 ==> #[trigger] colors@[k] == 0,
        decreases n - v0,
    {
        colors.push(0u8);
        v0 = v0 + 1;
    }
    let mut stack: Vec<usize> = Vec::new();
    let mut output: Vec<usize> = Vec::new();
    proof {
        assert(dfs_inv(*self, colors@, stack@, output@));
    }
    let mut i: usize = 0;
    while i < n
        invariant
            0 <= i <= n,
            n == self.n(),
            self.wf(),
            colors@.len() == n,
            dfs_inv(*self, colors@, stack@, output@),
            stack@.len() == 0,
            forall|v: int| 0 <= v < i ==> #[trigger] colors@[v] != 0,
        decreases n - i,
    {
        let c = colors[i];
        if c == 0 {
            match visit(self, &mut colors, &mut stack, &mut output, i) {
                Ok(()) => {},
                Err(names) => {
                    return Err(BuildOrderError::CyclicDependency(names));
                },
            }
        }
        i = i + 1;
    }
    proof {
        assert forall|v: int| 0 <= v < n implies #[trigger] colors@[v] == 2 by {
            assert(colors@[v] != 0);
            if colors@[v] == 1 {
                assert(stack@.contains(v as usize));
                let k = choose|k: int| 0 <= k < stack@.len() && stack@[k] == v as usize;
            }
        }
    }
    let mut names: Vec<String> = Vec::new();
    let out_len: usize = output.len();
    let mut k: usize = 0;
    while k < out_len
        invariant
            0 <= k <= out_len,
            out_len == output@.len(),
            n == self.n(),
            forall|m: int| 0 <= m < output@.len() ==> (#[trigger] output@[m] as int) < n,
            names@.len() == k,
            forall|m: int|
                0 <= m < names@.len() ==> #[trigger] names.deep_view()[m] == self.key_at(
                    output@[m] as int,
                ),
        decreases out_len - k,
    {
        let idx = output[k];
        let nm = self.entries[idx].0.clone();
        proof {
            assert(nm@ == self.key_at(idx as int));
        }
        let ghost pre_names = names@;
        let ghost pre_dv = names.deep_view();
        names.push(nm);
        proof {
            assert forall|m: int| 0 <= m < names@.len() implies #[trigger] names.deep_view()[m]
                == self.key_at(output@[m] as int) by {
                if m < k {
                    assert(names@[m] == pre_names[m]);
                    assert(names.deep_view()[m] == pre_dv[m]);
                } else {
                    assert(names@[m] == nm);
                }
            }
        }
        k = k + 1;
    }
    proof {
        let ord = output@.map_values(|x: usize| x as int);
        assert(self.is_valid_build_order(ord)) by {
            assert(forall|m: int| 0 <= m < ord.len() ==> #[trigger] ord[m] == output@[m] as int);
            assert(ord.no_duplicates()) by {
                assert forall|m1: int, m2: int|
                    0 <= m1 < ord.len() && 0 <= m2 < ord.len() && m1 != m2 implies ord[m1]
                    != ord[m2] by {
                    assert(output@[m1] != output@[m2]);
                }
            }
            assert forall|v: int| 0 <= v < self.n() implies #[trigger] ord.contains(v) by {
                assert(colors@[v] == 2);
                assert(output@.contains(v as usize));
                let m = choose|m: int| 0 <= m < output@.len() && output@[m] == v as usize;
                assert(ord[m] == v);
            }
            assert forall|p2: int, q2: int|
                0 <= p2 < ord.len() && 0 <= q2 < ord.len() && #[trigger] self.dep_edge(
                    ord[p2],
                    ord[q2],
                ) implies q2 < p2 by {
                assert(self.dep_edge(output@[p2] as int, output@[q2] as int));
            }
        }
        assert forall|m: int| 0 <= m < names@.len() implies #[trigger] names.deep_view()[m]
            == ord.map_values(|x: int| self.key_at(x))[m] by {
            assert(ord[m] == output@[m] as int);
        }
        assert(names.deep_view() =~~= ord.map_values(|x: int| self.key_at(x)));
    }
    Ok(names)
}
}

impl Default for SimpleDatabase {
    fn default() -> (r: SimpleDatabase)
        ensures
            r.n() == 0,
            r.wf(),
    {
        SimpleDatabase::new()
    }
}

/// Whether the record declares `name` among its package names.
pub fn produces_exec(si: &SrcInfo, name: &str) -> (r: bool)
    ensures
        r == produces(si@, name@),
{
    let n: usize = si.pkgnames.len();
    let mut i: usize = 0;
    while i < n
        invariant
            0 <= i <= n,
            n == si.pkgnames@.len(),
            forall|j: int| 0 <= j < i ==> si@.pkgnames[j] != name@,
        decreases n - i,
    {
        if str_eq(si.pkgnames[i].as_str(), name) {
            proof {
                assert(si@.pkgnames[i as int] == name@);
            }
            return true;
        }
        i = i + 1;
    }
    false
}

/// Every dependency string of a record, in declaration order.
pub fn dep_list(si: &SrcInfo) -> (r: Vec<String>)
    ensures
        r.deep_view() == dep_strings(si@),
{
    let mut out: Vec<String> = Vec::new();
    let mut i: usize = 0;
    while i < si.depends.len()
        invariant
            0 <= i <= si.depends@.len(),
            out@.len() == i,
            out.deep_view() =~~= si@.depends.take(i as int),
        decreases si.depends@.len() - i,
    {
        let elem = si.depends[i].clone();
        proof {
            assert(elem@ == si.depends@[i as int]@);
        }
        out.push(elem);
        proof {
            assert(out@.len() == i + 1);
            assert(out@[i as int].deep_view() == si.depends@[i as int]@);
            assert(out.deep_view()[i as int] == out@[i as int].deep_view());
            assert(si@.depends[i as int] == si.depends@[i as int]@);
            assert(out.deep_view()[i as int] == si@.depends[i as int]);
            assert(out.deep_view() =~~= si@.depends.take(i + 1));
        }
        i = i + 1;
    }
    proof {
        assert(out.deep_view() =~~= si@.depends);
    }
    let mut j: usize = 0;
    while j < si.makedepends.len()
        invariant
            0 <= j <= si.makedepends@.len(),
            out@.len() == si.depends@.len() + j,
            out.deep_view() =~~= si@.depends + si@.makedepends.take(j as int),
        decreases si.makedepends@.len() - j,
    {
        let elem = si.makedepends[j].clone();
        proof {
            assert(elem@ == si.makedepends@[j as int]@);
        }
        out.push(elem);
        proof {
            assert(out.deep_view()[si.depends@.len() + j] == si@.makedepends[j as int]);
            assert forall|m: int| 0 <= m < si.depends@.len() + j implies out.deep_view()[m] == (
            si@.depends + si@.makedepends.take(j + 1))[m] by {
                assert(out.deep_view()[m] == (si@.depends + si@.makedepends.take(j as int))[m]);
                if m < si.depends@.len() {
                    assert((si@.depends + si@.makedepends.take(j as int))[m] == si@.depends[m]);
                } else {
                    assert((si@.depends + si@.makedepends.take(j as int))[m] == si@.makedepends[m
                        - si.depends@.len()]);
                }
            }
            assert(out.deep_view() =~~= si@.depends + si@.makedepends.take(j + 1));
        }
        j = j + 1;
    }
    let mut k: usize = 0;
    while k < si.checkdepends.len()
        invariant
            0 <= k <= si.checkdepends@.len(),
            out@.len() == si.depends@.len() + si.makedepends@.len() + k,
            out.deep_view() =~~= si@.depends + si@.makedepends + si@.checkdepends.take(k as int),
        decreases si.checkdepends@.len() - k,
    {
        let elem = si.checkdepends[k].clone();
        proof {
            assert(elem@ == si.checkdepends@[k as int]@);
        }
        out.push(elem);
        proof {
            assert(out.deep_view()[si.depends@.len() + si.makedepends@.len() + k]
                == si@.checkdepends[k as int]);
            assert forall|m: int| 0 <= m < si.depends@.len() + si.makedepends@.len() + k implies
                out.deep_view()[m] == (si@.depends + si@.makedepends + si@.checkdepends.take(
                k + 1,
            ))[m] by {
                assert(out.deep_view()[m] == (si@.depends + si@.makedepends
                    + si@.checkdepends.take(k as int))[m]);
                if m < si.depends@.len() + si.makedepends@.len() {
                    assert((si@.depends + si@.makedepends + si@.checkdepends.take(k as int))[m]
                        == (si@.depends + si@.makedepends)[m]);
                    assert((si@.depends + si@.makedepends + si@.checkdepends.take(k + 1))[m] == (
                    si@.depends + si@.makedepends)[m]);
                } else {
                    assert((si@.depends + si@.makedepends + si@.checkdepends.take(k as int))[m]
                        == si@.checkdepends[m - si.depends@.len() - si.makedepends@.len()]);
                    assert((si@.depends + si@.makedepends + si@.checkdepends.take(k + 1))[m]
                        == si@.checkdepends[m - si.depends@.len() - si.makedepends@.len()]);
                }
            }
            assert(out.deep_view() =~~= si@.depends + si@.makedepends + si@.checkdepends.take(
                k + 1,
            ));
        }
        k = k + 1;
    }
    proof {
        assert(out.deep_view() =~~= dep_strings(si@));
    }
    out
}

/// Number of unvisited (zero) entries in a colour sequence.
pub open spec fn count0(s: Seq<u8>) -> nat
    decreases s.len(),
{
    if s.len() == 0 {
        0
    } else {
        count0(s.drop_last()) + if s.last() == 0 {
            1nat
        } else {
            0nat
        }
    }
}

proof fn lemma_count0_le(s1: Seq<u8>, s2: Seq<u8>)
    requires
        s1.len() == s2.len(),
        forall|v: int| 0 <= v < s2.len() && #[trigger] s2[v] == 0 ==> s1[v] == 0,
    ensures
        count0(s2) <= count0(s1),
    decreases s1.len(),
{
    if s1.len() > 0 {
        assert forall|v: int|
            0 <= v < s2.drop_last().len() && #[trigger] s2.drop_last()[v] == 0 implies s1.drop_last()[v]
            == 0 by {
            assert(s2.drop_last()[v] == s2[v]);
            assert(s1.drop_last()[v] == s1[v]);
        }
        lemma_count0_le(s1.drop_last(), s2.drop_last());
        assert(s2.last() == s2[s2.len() - 1] && s1.last() == s1[s1.len() - 1]);
    }
}

proof fn lemma_count0_lt(s1: Seq<u8>, s2: Seq<u8>, i: int)
    requires
        s1.len() == s2.len(),
        forall|v: int| 0 <= v < s2.len() && #[trigger] s2[v] == 0 ==> s1[v] == 0,
        0 <= i < s1.len(),
        s1[i] == 0,
        s2[i] != 0,
    ensures
        count0(s2) < count0(s1),
    decreases s1.len(),
{
    assert forall|v: int|
        0 <= v < s2.drop_last().len() && #[trigger] s2.drop_last()[v] == 0 implies s1.drop_last()[v]
        == 0 by {
        assert(s2.drop_last()[v] == s2[v]);
        assert(s1.drop_last()[v] == s1[v]);
    }
    if i == s1.len() - 1 {
        lemma_count0_le(s1.drop_last(), s2.drop_last());
        assert(s1.last() == 0 && s2.last() != 0);
    } else {
        assert(s1.drop_last()[i] == s1[i] && s2.drop_last()[i] == s2[i]);
        lemma_count0_lt(s1.drop_last(), s2.drop_last(), i);
        assert(s2.last() == s2[s2.len() - 1] && s1.last() == s1[s1.len() - 1]);
    }
}

/// The state of the depth-first traversal: `output` holds exactly the
/// finished entries in an order where every edge points backwards, finished
/// entries only depend on finished entries, and `stack` holds the in-progress
/// entries as an edge-connected path.
pub open spec fn dfs_inv(
    db: SimpleDatabase,
    colors: Seq<u8>,
    stack: Seq<usize>,
    output: Seq<usize>,
) -> bool {
    &&& colors.len() == db.n()
    &&& forall|v: int| 0 <= v < colors.len() ==> #[trigger] colors[v] <= 2
    &&& forall|k: int|
        0 <= k < output.len() ==> (#[trigger] output[k] as int) < db.n() && colors[output[k] as int]
            == 2
    &&& output.no_duplicates()
    &&& forall|v: int| 0 <= v < colors.len() && #[trigger] colors[v] == 2 ==> output.contains(
        v as usize,
    )
    &&& forall|a: int, b: int|
        0 <= a < colors.len() && colors[a] == 2 && #[trigger] db.dep_edge(a, b) ==> colors[b] == 2
    &&& forall|p: int, q: int|
        0 <= p < output.len() && 0 <= q < output.len() && #[trigger] db.dep_edge(
            output[p] as int,
            output[q] as int,
        ) ==> q < p
    &&& forall|k: int|
        0 <= k < stack.len() ==> (#[trigger] stack[k] as int) < db.n() && colors[stack[k] as int]
            == 1
    &&& forall|v: int| 0 <= v < colors.len() && #[trigger] colors[v] == 1 ==> stack.contains(
        v as usize,
    )
    &&& stack.no_duplicates()
    &&& forall|k: int|
        #![trigger stack[k]]
        0 <= k < stack.len() - 1 ==> db.dep_edge(stack[k] as int, stack[k + 1] as int)
}

/// Assemble the cycle report: the package bases of the in-progress entries
/// from the first occurrence of `j` to the top of the stack, which the edge
/// back to `j` closes into a dependency cycle.
fn cycle_error(db: &SimpleDatabase, stack: &Vec<usize>, j: usize) -> (names: Vec<String>)
    requires
        stack@.len() >= 1,
        forall|k: int| 0 <= k < stack@.len() ==> (#[trigger] stack@[k] as int) < db.n(),
        forall|k: int|
            #![trigger stack@[k]]
            0 <= k < stack@.len() - 1 ==> db.dep_edge(stack@[k] as int, stack@[k + 1] as int),
        stack@.contains(j),
        db.dep_edge(stack@.last() as int, j as int),
    ensures
        exists|idxs: Seq<int>|
            db.is_cycle(idxs) && names.deep_view() == idxs.map_values(|x: int| db.key_at(x)),
{
    let n_stack = stack.len();
    let mut p: usize = 0;
    while p < n_stack && stack[p] != j
        invariant
            0 <= p <= n_stack,
            n_stack == stack@.len(),
            forall|k: int| 0 <= k < p ==> #[trigger] stack@[k] != j,
        decreases n_stack - p,
    {
        p = p + 1;
    }
    proof {
        assert(p < n_stack) by {
            if p == n_stack {
                let k = choose|k: int| 0 <= k < stack@.len() && stack@[k] == j;
                assert(stack@[k] != j);
            }
        }
        assert(stack@[p as int] == j);
    }
    let mut names: Vec<String> = Vec::new();
    let mut q: usize = p;
    while q < n_stack
        invariant
            0 <= p <= q <= n_stack,
            n_stack == stack@.len(),
            forall|k: int| 0 <= k < stack@.len() ==> (#[trigger] stack@[k] as int) < db.n(),
            names@.len() == q - p,
            forall|m: int|
                0 <= m < names@.len() ==> #[trigger] names.deep_view()[m] == db.key_at(
                    stack@[p + m] as int,
                ),
        decreases n_stack - q,
    {
        let s_idx = stack[q];
        let nm = db.entries[s_idx].0.clone();
        proof {
            assert(nm@ == db.key_at(s_idx as int));
            assert(stack@[q as int] == s_idx);
        }
        let ghost pre_names = names@;
        let ghost pre_dv = names.deep_view();
        names.push(nm);
        proof {
            assert(names@.len() == q - p + 1);
            assert forall|m: int| 0 <= m < names@.len() implies #[trigger] names.deep_view()[m]
                == db.key_at(stack@[p + m] as int) by {
                if m < q - p {
                    assert(names@[m] == pre_names[m]);
                    assert(names.deep_view()[m] == pre_dv[m]);
                } else {
                    assert(names@[m] == nm);
                }
            }
        }
        q = q + 1;
    }
    proof {
        let idxs = stack@.skip(p as int).map_values(|x: usize| x as int);
        assert(p < stack@.len() - 1) by {
            if p == stack@.len() - 1 {
                assert(stack@[p as int] == stack@.last());
                assert(stack@.last() == j);
                assert(db.dep_edge(j as int, j as int));
            }
        }
        assert(idxs.len() >= 2);
        assert forall|k: int| 0 <= k < idxs.len() implies #[trigger] db.dep_edge(
            idxs[k],
            idxs[(k + 1) % (idxs.len() as int)],
        ) by {
            assert(idxs[k] == stack@[p + k] as int);
            if k + 1 < idxs.len() {
                assert((k + 1) % (idxs.len() as int) == k + 1) by (nonlinear_arith)
                    requires
                        0 <= k + 1 < idxs.len(),
                ;
                assert(db.dep_edge(stack@[p + k] as int, stack@[p + k + 1] as int));
            } else {
                assert((k + 1) % (idxs.len() as int) == 0) by (nonlinear_arith)
                    requires
                        k + 1 == idxs.len() && idxs.len() >= 1,
                ;
                assert(stack@[p + k] == stack@.last());
                assert(idxs[0] == j as int);
                assert(db.dep_edge(stack@.last() as int, j as int));
            }
        }
        assert(db.is_cycle(idxs));
        assert forall|m: int| 0 <= m < names@.len() implies #[trigger] names.deep_view()[m]
            == idxs.map_values(|x: int| db.key_at(x))[m] by {
            assert(idxs[m] == stack@[p + m] as int);
        }
        assert(names.deep_view() =~~= idxs.map_values(|x: int| db.key_at(x)));
    }
    names
}

/// Depth-first visit of entry `i`: finish every entry reachable from it, or
/// report the dependency cycle that makes that impossible.
#[verifier::rlimit(80)]
fn visit(
    db: &SimpleDatabase,
    colors: &mut Vec<u8>,
    stack: &mut Vec<usize>,
    output: &mut Vec<usize>,
    i: usize,
) -> (r: Result<(), Vec<String>>)
    requires
        db.wf(),
        dfs_inv(*db, old(colors)@, old(stack)@, old(output)@),
        (i as int) < db.n(),
        old(colors)@[i as int] == 0,
        old(stack)@.len() > 0 ==> db.dep_edge(old(stack)@.last() as int, i as int),
    ensures
        r is Ok ==> ({
            &&& dfs_inv(*db, final(colors)@, final(stack)@, final(output)@)
            &&& final(stack)@ == old(stack)@
            &&& final(colors)@.len() == old(colors)@.len()
            &&& final(colors)@[i as int] == 2
            &&& forall|v: int|
                0 <= v < old(colors)@.len() ==> ((final(colors)@[v] == 1) <==> (old(colors)@[v]
                    == 1))
            &&& forall|v: int|
                0 <= v < old(colors)@.len() && old(colors)@[v] == 2 ==> final(colors)@[v] == 2
            &&& forall|v: int|
                0 <= v < old(colors)@.len() && final(colors)@[v] == 0 ==> old(colors)@[v] == 0
            &&& final(output)@.len() >= old(output)@.len()
            &&& forall|k: int| 0 <= k < old(output)@.len() ==> final(output)@[k] == old(output)@[k]
        }),
        r matches Err(names) ==> exists|idxs: Seq<int>|
            db.is_cycle(idxs) && names.deep_view() == idxs.map_values(|x: int| db.key_at(x)),
    decreases count0(old(colors)@),
{
    let ghost entry_colors = colors@;
    proof {
        assert(!old(stack)@.contains(i)) by {
            if old(stack)@.contains(i) {
                let k = choose|k: int| 0 <= k < old(stack)@.len() && old(stack)@[k] == i;
                assert(entry_colors[old(stack)@[k] as int] == 1);
            }
        }
    }
    colors.set(i, 1);
    stack.push(i);
    proof {
        assert(stack@.no_duplicates()) by {
            assert(forall|k: int| 0 <= k < old(stack)@.len() ==> stack@[k] == old(stack)@[k]);
            assert(stack@[stack@.len() - 1] == i);
        }
        assert(dfs_inv(*db, colors@, stack@, output@)) by {
            assert(forall|k: int|
                0 <= k < output@.len() ==> (#[trigger] output@[k] as int) != i as int);
            assert(forall|v: int|
                0 <= v < colors@.len() && #[trigger] colors@[v] == 1 ==> stack@.contains(
                    v as usize,
                )) by {
                assert forall|v2: usize|
                    old(stack)@.contains(v2) implies #[trigger] stack@.contains(v2) by {
                    let k = choose|k: int| 0 <= k < old(stack)@.len() && old(stack)@[k] == v2;
                    assert(stack@[k] == v2);
                }
                assert(stack@[stack@.len() - 1] == i);
                assert(stack@.contains(i));
            }
        }
    }
    let deps = dep_list(&db.entries[i].1.srcinfo);
    let mut d: usize = 0;
    while d < deps.len()
        invariant
            db.wf(),
            (i as int) < db.n(),
            colors@.len() == db.n(),
            entry_colors.len() == colors@.len(),
            dfs_inv(*db, colors@, stack@, output@),
            stack@ == old(stack)@.push(i),
            colors@[i as int] == 1,
            entry_colors[i as int] == 0,
            entry_colors == old(colors)@,
            deps.deep_view() == dep_strings(db.rec_at(i as int)),
            0 <= d <= deps@.len(),
            forall|v: int| 0 <= v < colors@.len() && #[trigger] colors@[v] == 0 ==> entry_colors[v]
                == 0,
            forall|v: int|
                0 <= v < colors@.len() && v != i as int ==> ((#[trigger] colors@[v] == 1) <==> (
                entry_colors[v] == 1)),
            forall|v: int| 0 <= v < colors@.len() && #[trigger] entry_colors[v] == 2 ==> colors@[v]
                == 2,
            forall|k: int| 0 <= k < old(output)@.len() ==> #[trigger] output@[k] == old(output)@[k],
            output@.len() >= old(output)@.len(),
            forall|dd: int, j: int|
                0 <= dd < d && #[trigger] db.resolves_to(dep_name(deps.deep_view()[dd]), j) && j
                    != i as int ==> colors@[j] == 2,
        decreases deps@.len() - d,
    {
        let dep_string = &deps[d];
        let (name, _constraint) = extract_pkgname_prefix(dep_string.as_str());
        proof {
            assert(dep_string@ == deps.deep_view()[d as int]);
            assert(name@ == dep_name(deps.deep_view()[d as int]));
        }
        let resolved = db.resolve_name(name);
        match resolved {
            None => {
                proof {
                    assert(forall|j: int| !db.resolves_to(name@, j));
                    assert(forall|j2: int|
                        db.resolves_to(name@, j2) && j2 != i as int ==> colors@[j2] == 2);
                }
            },
            Some(j) => {
                proof {
                    assert(db.resolves_to(name@, j as int));
                    assert(forall|j2: int| db.resolves_to(name@, j2) ==> j2 == j as int) by {
                        assert forall|j2: int| db.resolves_to(name@, j2) implies j2
                            == j as int by {
                            if j2 < j as int {
                                assert(produces(db.rec_at(j2), name@));
                            }
                            if j2 > j as int {
                                assert(produces(db.rec_at(j as int), name@));
                            }
                        }
                    }
                }
                if j != i {
                    proof {
                        assert(db.dep_edge(i as int, j as int)) by {
                            assert(0 <= d < dep_strings(db.rec_at(i as int)).len()
                                && db.resolves_to(
                                dep_name(dep_strings(db.rec_at(i as int))[d as int]),
                                j as int,
                            ));
                        }
                    }
                    let c = colors[j];
                    if c == 0 {
                        proof {
                            lemma_count0_lt(entry_colors, colors@, i as int);
                            assert(stack@.last() == i);
                        }
                        match visit(db, colors, stack, output, j) {
                            Ok(()) => {},
                            Err(names) => {
                                return Err(names);
                            },
                        }
                        proof {
                            assert(colors@[j as int] == 2);
                            assert(forall|j2: int|
                                db.resolves_to(name@, j2) && j2 != i as int ==> colors@[j2] == 2);
                        }
                    } else if c == 1 {
                        proof {
                            assert(stack@.last() == i);
                            assert(stack@.contains(j));
                        }
                        return Err(cycle_error(db, stack, j));
                    } else {
                        proof {
                            assert(colors@[j as int] == 2);
                        }
                    }
                }
                proof {
                    assert(forall|j2: int|
                        db.resolves_to(name@, j2) && j2 != i as int ==> colors@[j2] == 2);
                }
            },
        }
        proof {
            assert(forall|j2: int|
                db.resolves_to(dep_name(deps.deep_view()[d as int]), j2) && j2 != i as int
                    ==> colors@[j2] == 2);
        }
        d = d + 1;
    }
    let ghost loop_stack = stack@;
    let ghost loop_output = output@;
    let _popped = stack.pop();
    proof {
        assert(stack@ =~= old(stack)@);
    }
    let ghost loop_colors = colors@;
    colors.set(i, 2);
    output.push(i);
    proof {
        assert(forall|k: int| 0 <= k < old(output)@.len() ==> output@[k] == old(output)@[k]);
        assert(!loop_output.contains(i)) by {
            if loop_output.contains(i) {
                let k = choose|k: int| 0 <= k < loop_output.len() && loop_output[k] == i;
                assert(loop_colors[loop_output[k] as int] == 2);
            }
        }
        assert(output@.no_duplicates()) by {
            assert(forall|k: int| 0 <= k < loop_output.len() ==> output@[k] == loop_output[k]);
            assert(output@[output@.len() - 1] == i);
        }
        // every edge out of `i` leads to a finished entry
        assert forall|b: int| #[trigger] db.dep_edge(i as int, b) implies loop_colors[b] == 2 by {
            let dd = choose|dd: int|
                0 <= dd < dep_strings(db.rec_at(i as int)).len() && db.resolves_to(
                    dep_name(dep_strings(db.rec_at(i as int))[dd]),
                    b,
                );
            assert(db.resolves_to(dep_name(deps.deep_view()[dd]), b));
            assert(b != i as int);
        }
        assert(dfs_inv(*db, colors@, stack@, output@)) by {
            assert(colors@[i as int] == 2);
            assert(forall|v: int|
                0 <= v < colors@.len() && v != i as int ==> colors@[v] == loop_colors[v]);
            assert forall|v: int| 0 <= v < colors@.len() && #[trigger] colors@[v]
                == 2 implies output@.contains(v as usize) by {
                if v == i as int {
                    assert(output@[output@.len() - 1] == i);
                    assert(output@.contains(i));
                } else {
                    assert(loop_colors[v] == 2);
                    let k = choose|k: int| 0 <= k < loop_output.len() && loop_output[k] == v as usize;
                    assert(output@[k] == v as usize);
                    assert(output@.contains(v as usize));
                }
            }
            assert forall|a: int, b: int|
                0 <= a < colors@.len() && colors@[a] == 2 && #[trigger] db.dep_edge(
                    a,
                    b,
                ) implies colors@[b] == 2 by {
                if a == i as int {
                    assert(loop_colors[b] == 2);
                } else {
                    assert(loop_colors[a] == 2);
                    assert(loop_colors[b] == 2);
                }
            }
            assert forall|p2: int, q2: int|
                0 <= p2 < output@.len() && 0 <= q2 < output@.len() && #[trigger] db.dep_edge(
                    output@[p2] as int,
                    output@[q2] as int,
                ) implies q2 < p2 by {
                if q2 == output@.len() - 1 && p2 < output@.len() - 1 {
                    assert(output@[q2] == i);
                    assert(loop_colors[output@[p2] as int] == 2);
                    assert(loop_colors[i as int] == 2);
                    assert(false);
                }
            }
            assert forall|v: int| 0 <= v < colors@.len() && #[trigger] colors@[v]
                == 1 implies stack@.contains(v as usize) by {
                assert(v != i as int);
                assert(loop_colors[v] == 1);
                assert(loop_stack.contains(v as usize));
                let k = choose|k: int| 0 <= k < loop_stack.len() && loop_stack[k] == v as usize;
                assert(k < loop_stack.len() - 1) by {
                    if k == loop_stack.len() - 1 {
                        assert(loop_stack[k] == i);
                    }
                }
                assert(stack@[k] == v as usize);
                assert(stack@.contains(v as usize));
            }
            assert(forall|k: int|
                0 <= k < stack@.len() ==> (#[trigger] stack@[k] as int) < db.n()
                    && colors@[stack@[k] as int] == 1) by {
                assert(forall|k: int| 0 <= k < stack@.len() ==> stack@[k] == loop_stack[k]);
                assert(forall|k: int|
                    0 <= k < stack@.len() ==> loop_colors[#[trigger] stack@[k] as int] == 1);
                assert(forall|k: int|
                    0 <= k < stack@.len() ==> (#[trigger] stack@[k]) != i);
            }
            assert(forall|k: int|
                #![trigger stack@[k]]
                0 <= k < stack@.len() - 1 ==> db.dep_edge(stack@[k] as int, stack@[k + 1] as int))
                by {
                assert(forall|k: int|
                    0 <= k < loop_stack.len() - 1 ==> db.dep_edge(
                        #[trigger] loop_stack[k] as int,
                        loop_stack[k + 1] as int,
                    ));
                assert(forall|k: int| 0 <= k < stack@.len() ==> stack@[k] == loop_stack[k]);
            }
        }
    }
    Ok(())
}


/// A dependency of an entry on one of its own names is ignored: no entry ever
/// has an edge to itself.
pub proof fn lemma_self_dependency_no_edge(db: SimpleDatabase, i: int)
    ensures
        !db.dep_edge(i, i),
{
}

/// A dependency name that no database entry produces resolves to nothing and
/// so imposes no edge: it is deferred to the external provider.
pub proof fn lemma_external_name_no_edge(db: SimpleDatabase, name: Seq<char>)
    requires
        forall|j: int| 0 <= j < db.n() ==> !produces(db.rec_at(j), name),
    ensures
        forall|j: int| !db.resolves_to(name, j),
{
    assert forall|j: int| !db.resolves_to(name, j) by {
        if db.resolves_to(name, j) {
            assert(produces(db.rec_at(j), name));
        }
    }
}

/// The position of `v` in `ord`.
spec fn pos_of(ord: Seq<int>, v: int) -> int {
    choose|m: int| 0 <= m < ord.len() && ord[m] == v
}

proof fn lemma_pos_of(ord: Seq<int>, v: int)
    requires
        ord.contains(v),
    ensures
        0 <= pos_of(ord, v) < ord.len(),
        ord[pos_of(ord, v)] == v,
{
    let m = choose|m: int| 0 <= m < ord.len() && ord[m] == v;
    assert(ord[pos_of(ord, v)] == v);
}

proof fn lemma_cycle_chain(db: SimpleDatabase, ord: Seq<int>, idxs: Seq<int>, k: int)
    requires
        db.is_valid_build_order(ord),
        db.is_cycle(idxs),
        1 <= k < idxs.len(),
    ensures
        pos_of(ord, idxs[k]) <= pos_of(ord, idxs[0]) - k,
    decreases k,
{
    let len = idxs.len() as int;
    assert(db.dep_edge(idxs[k - 1], idxs[(k - 1 + 1) % len]));
    assert((k - 1 + 1) % len == k) by (nonlinear_arith)
        requires
            1 <= k < len,
    ;
    assert(db.dep_edge(idxs[k - 1], idxs[k]));
    assert(ord.contains(idxs[k - 1]) && ord.contains(idxs[k]));
    lemma_pos_of(ord, idxs[k - 1]);
    lemma_pos_of(ord, idxs[k]);
    let p = pos_of(ord, idxs[k - 1]);
    let q = pos_of(ord, idxs[k]);
    assert(db.dep_edge(ord[p], ord[q]));
    assert(q < p);
    if k > 1 {
        lemma_cycle_chain(db, ord, idxs, k - 1);
    }
}

/// No valid build order exists for a database whose dependency graph has a
/// cycle: along the cycle each entry must stand strictly earlier than the
/// previous one, which is impossible. Hence a cyclic database always makes
/// `build_order` fail.
pub proof fn lemma_order_excludes_cycles(db: SimpleDatabase, ord: Seq<int>, idxs: Seq<int>)
    requires
        db.is_valid_build_order(ord),
    ensures
        !db.is_cycle(idxs),
{
    if db.is_cycle(idxs) {
        let len = idxs.len() as int;
        lemma_cycle_chain(db, ord, idxs, len - 1);
        assert(db.dep_edge(idxs[len - 1], idxs[(len - 1 + 1) % len]));
        assert((len - 1 + 1) % len == 0) by (nonlinear_arith)
            requires
                len >= 2,
        ;
        assert(db.dep_edge(idxs[len - 1], idxs[0]));
        assert(ord.contains(idxs[len - 1]) && ord.contains(idxs[0]));
        lemma_pos_of(ord, idxs[len - 1]);
        lemma_pos_of(ord, idxs[0]);
        let p = pos_of(ord, idxs[len - 1]);
        let q = pos_of(ord, idxs[0]);
        assert(db.dep_edge(ord[p], ord[q]));
        assert(q < p);
    }
}

} // verus!
