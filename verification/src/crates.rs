//! The workspace-local package dependency graph.
//!
//! The graph maps each workspace package name to the ordered, deduplicated
//! list of its workspace-local dependencies. A name absent from the graph is
//! unknown, and every query about it answers `None`; a known package with no
//! dependents or dependencies answers an empty list instead.

use vstd::prelude::*;

verus! {

use crate::cargo::CargoMetadata;
use crate::strutil::{str_eq, str_views, distinct_views, contains_string, clone_strings};

/// The package dependency graph: an association list from package name to
/// dependency names, with pairwise-distinct keys.
#[derive(Debug)]
pub struct Crates {
    crates: Vec<(String, Vec<String>)>,
}

/// The key views of an entry list.
pub open spec fn entry_keys(entries: Seq<(String, Vec<String>)>) -> Seq<Seq<char>> {
    entries.map_values(|e: (String, Vec<String>)| e.0@)
}

/// First-match lookup of `k` in an entry list.
pub open spec fn lookup(entries: Seq<(String, Vec<String>)>, k: Seq<char>) -> Option<
    Seq<Seq<char>>,
>
    decreases entries.len(),
{
    if entries.len() == 0 {
        None
    } else if entries[0].0@ == k {
        Some(str_views(entries[0].1@))
    } else {
        lookup(entries.drop_first(), k)
    }
}

/// A found key names some entry; a missing key names none.
pub proof fn lemma_lookup_index(entries: Seq<(String, Vec<String>)>, k: Seq<char>)
    ensures
        match lookup(entries, k) {
            Some(ds) => exists|j: int|
                0 <= j < entries.len() && (#[trigger] entries[j]).0@ == k && ds == str_views(
                    entries[j].1@,
                ),
            None => forall|j: int| 0 <= j < entries.len() ==> (#[trigger] entries[j]).0@ != k,
        },
    decreases entries.len(),
{
    if entries.len() > 0 && entries[0].0@ != k {
        lemma_lookup_index(entries.drop_first(), k);
        match lookup(entries, k) {
            Some(ds) => {
                let j = choose|j: int|
                    0 <= j < entries.drop_first().len() && (#[trigger] entries.drop_first()[j]).0@
                        == k && ds == str_views(entries.drop_first()[j].1@);
                assert(entries[j + 1] == entries.drop_first()[j]);
            },
            None => {
                assert forall|j: int| 0 <= j < entries.len() implies (#[trigger] entries[j]).0@
                    != k by {
                    if j > 0 {
                        assert(entries.drop_first()[j - 1] == entries[j]);
                    }
                }
            },
        }
    }
}

/// With distinct keys, looking up an entry's own key answers that entry.
pub proof fn lemma_lookup_at(entries: Seq<(String, Vec<String>)>, j: int)
    requires
        forall|a: int, b: int|
            0 <= a < b < entries.len() ==> (#[trigger] entries[a]).0@ != (#[trigger] entries[b]).0@,
        0 <= j < entries.len(),
    ensures
        lookup(entries, entries[j].0@) == Some(str_views(entries[j].1@)),
    decreases j,
{
    if j > 0 {
        assert(entries[0].0@ != entries[j].0@);
        assert forall|a: int, b: int|
            0 <= a < b < entries.drop_first().len() implies (#[trigger] entries.drop_first()[a]).0@
            != (#[trigger] entries.drop_first()[b]).0@ by {
            assert(entries.drop_first()[a] == entries[a + 1]);
            assert(entries.drop_first()[b] == entries[b + 1]);
        }
        assert(entries.drop_first()[j - 1] == entries[j]);
        lemma_lookup_at(entries.drop_first(), j - 1);
    }
}

/// Appending an entry changes only lookups that found nothing before.
pub proof fn lemma_lookup_push(
    entries: Seq<(String, Vec<String>)>,
    e: (String, Vec<String>),
    k: Seq<char>,
)
    ensures
        lookup(entries.push(e), k) == if lookup(entries, k) is Some {
            lookup(entries, k)
        } else if e.0@ == k {
            Some(str_views(e.1@))
        } else {
            None
        },
    decreases entries.len(),
{
    if entries.len() == 0 {
        assert(entries.push(e)[0] == e);
        assert(entries.push(e).drop_first() =~= Seq::<(String, Vec<String>)>::empty());
        assert(lookup(entries, k) is None);
        if e.0@ == k {
            assert(lookup(entries.push(e), k) == Some(str_views(e.1@)));
        } else {
            assert(lookup(entries.push(e), k) == lookup(
                Seq::<(String, Vec<String>)>::empty(),
                k,
            ));
        }
    } else {
        assert(entries.push(e)[0] == entries[0]);
        assert(entries.push(e).drop_first() =~= entries.drop_first().push(e));
        lemma_lookup_push(entries.drop_first(), e, k);
    }
}

impl Crates {
    /// The entry list behind the graph.
    pub closed spec fn entries(self) -> Seq<(String, Vec<String>)> {
        self.crates@
    }

    /// The package names the graph knows, in entry order.
    pub closed spec fn keys(self) -> Seq<Seq<char>> {
        entry_keys(self.crates@)
    }

    /// Keys are pairwise distinct; every constructor establishes this.
    pub closed spec fn wf(self) -> bool {
        forall|a: int, b: int|
            0 <= a < b < self.crates@.len() ==> (#[trigger] self.crates@[a]).0@ != (
            #[trigger] self.crates@[b]).0@
    }

    /// Whether the graph knows the package `k`.
    pub open spec fn contains_name(self, k: Seq<char>) -> bool {
        self.keys().contains(k)
    }

    /// The dependency lists of `k`, when known.
    pub closed spec fn deps_of(self, k: Seq<char>) -> Option<Seq<Seq<char>>> {
        lookup(self.crates@, k)
    }

    /// Package `a` declares a direct dependency on `b`.
    pub closed spec fn dep_edge(self, a: Seq<char>, b: Seq<char>) -> bool {
        match lookup(self.crates@, a) {
            Some(ds) => ds.contains(b),
            None => false,
        }
    }

    /// An edge holds exactly when the source's dependency list holds the
    /// target.
    pub proof fn lemma_dep_edge_deps(self, a: Seq<char>, b: Seq<char>)
        ensures
            self.dep_edge(a, b) <==> (self.deps_of(a) is Some && self.deps_of(a)->Some_0.contains(
                b,
            )),
    {
    }

    /// Distinct entries carry distinct names.
    pub proof fn lemma_keys_distinct(self, a: int, b: int)
        requires
            self.wf(),
            0 <= a < b < self.keys().len(),
        ensures
            self.keys()[a] != self.keys()[b],
    {
        assert(self.keys()[a] == self.crates@[a].0@);
        assert(self.keys()[b] == self.crates@[b].0@);
    }

    /// A found name is a key, and a key is found.
    pub proof fn lemma_contains_lookup(self, k: Seq<char>)
        ensures
            self.contains_name(k) <==> self.deps_of(k) is Some,
    {
        lemma_lookup_index(self.crates@, k);
        if self.contains_name(k) {
            let j = choose|j: int| 0 <= j < self.keys().len() && self.keys()[j] == k;
            assert(self.crates@[j].0@ == k);
            if lookup(self.crates@, k) is None {
                assert(false);
            }
        } else {
            if lookup(self.crates@, k) is Some {
                let j = choose|j: int|
                    0 <= j < self.crates@.len() && (#[trigger] self.crates@[j]).0@ == k;
                assert(self.keys()[j] == k);
                assert(false);
            }
        }
    }

    /// Whether the graph knows the package named `name`.
    fn contains_name_exec(&self, name: &str) -> (r: bool)
        ensures
            r == self.contains_name(name@),
    {
        let mut i: usize = 0;
        while i < self.crates.len()
            invariant
                0 <= i <= self.crates@.len(),
                forall|k: int| 0 <= k < i ==> (#[trigger] self.crates@[k]).0@ != name@,
            decreases self.crates@.len() - i,
        {
            if str_eq(self.crates[i].0.as_str(), name) {
                assert(self.keys()[i as int] == name@);
                return true;
            }
            i += 1;
        }
        assert forall|k: int| 0 <= k < self.keys().len() implies self.keys()[k] != name@ by {
            assert(self.keys()[k] == self.crates@[k].0@);
        }
        false
    }

    /// The direct dependencies of `crate_name`, or `None` for an unknown
    /// package.
    pub fn get_dependencies(&self, crate_name: &str) -> (r: Option<&Vec<String>>)
        ensures
            match r {
                Some(v) => self.deps_of(crate_name@) == Some(str_views(v@)),
                None => self.deps_of(crate_name@) is None,
            },
            r is Some <==> self.contains_name(crate_name@),
    {
        proof {
            self.lemma_contains_lookup(crate_name@);
        }
        let ghost es = self.crates@;
        let mut i: usize = 0;
        proof {
            assert(es.skip(0) =~= es);
        }
        while i < self.crates.len()
            invariant
                es == self.crates@,
                0 <= i <= es.len(),
                lookup(es, crate_name@) == lookup(es.skip(i as int), crate_name@),
            decreases es.len() - i,
        {
            proof {
                assert(es.skip(i as int)[0] == es[i as int]);
                assert(es.skip(i as int).drop_first() =~= es.skip(i + 1));
            }
            if str_eq(self.crates[i].0.as_str(), crate_name) {
                proof {
                    self.lemma_contains_lookup(crate_name@);
                }
                return Some(&self.crates[i].1);
            }
            i += 1;
        }
        proof {
            assert(es.skip(es.len() as int) =~= Seq::<(String, Vec<String>)>::empty());
            self.lemma_contains_lookup(crate_name@);
        }
        None
    }

    /// The packages that directly depend on `crate_name`, or `None` for an
    /// unknown package. A known package on which nothing depends answers an
    /// empty, known, list.
    pub fn get_dependents(&self, crate_name: &str) -> (r: Option<Vec<String>>)
        requires
            self.wf(),
        ensures
            match r {
                Some(v) => self.contains_name(crate_name@) && distinct_views(v@) && forall|
                    p: Seq<char>,
                |
                    #[trigger] str_views(v@).contains(p) <==> self.dep_edge(p, crate_name@),
                None => !self.contains_name(crate_name@),
            },
    {
        if !self.contains_name_exec(crate_name) {
            return None;
        }
        let ghost es = self.crates@;
        let mut out: Vec<String> = Vec::new();
        let mut i: usize = 0;
        while i < self.crates.len()
            invariant
                self.wf(),
                es == self.crates@,
                0 <= i <= es.len(),
                forall|p: Seq<char>|
                    #[trigger] str_views(out@).contains(p) <==> exists|j: int|
                        0 <= j < i && (#[trigger] es[j]).0@ == p && str_views(es[j].1@).contains(
                            crate_name@,
                        ),
                distinct_views(out@),
            decreases es.len() - i,
        {
            if contains_string(&self.crates[i].1, crate_name) {
                let ghost before = out@;
                proof {
                    if str_views(before).contains(es[i as int].0@) {
                        let j = choose|j: int|
                            0 <= j < i && (#[trigger] es[j]).0@ == es[i as int].0@ && str_views(
                                es[j].1@,
                            ).contains(crate_name@);
                        assert(false);
                    }
                }
                out.push(self.crates[i].0.clone());
                proof {
                    assert(str_views(out@) =~= str_views(before).push(es[i as int].0@));
                    assert forall|p: Seq<char>| #[trigger]
                        str_views(out@).contains(p) implies exists|j: int|
                        0 <= j < i + 1 && (#[trigger] es[j]).0@ == p && str_views(
                            es[j].1@,
                        ).contains(crate_name@) by {
                        let m = choose|m: int|
                            0 <= m < str_views(out@).len() && str_views(out@)[m] == p;
                        if m < before.len() {
                            assert(str_views(before)[m] == p);
                            assert(str_views(before).contains(p));
                        } else {
                            assert(es[i as int].0@ == p);
                        }
                    }
                    assert forall|p: Seq<char>|
                        (exists|j: int|
                            0 <= j < i + 1 && (#[trigger] es[j]).0@ == p && str_views(
                                es[j].1@,
                            ).contains(crate_name@)) implies #[trigger] str_views(
                        out@,
                    ).contains(p) by {
                        let j = choose|j: int|
                            0 <= j < i + 1 && (#[trigger] es[j]).0@ == p && str_views(
                                es[j].1@,
                            ).contains(crate_name@);
                        if j < i {
                            assert(str_views(before).contains(p));
                            let m = choose|m: int|
                                0 <= m < str_views(before).len() && str_views(before)[m] == p;
                            assert(str_views(out@)[m] == p);
                        } else {
                            assert(str_views(out@)[before.len() as int] == p);
                        }
                    }
                    assert forall|a: int, b: int|
                        0 <= a < b < out@.len() implies (#[trigger] out@[a])@ != (
                    #[trigger] out@[b])@ by {
                        if b == before.len() {
                            assert(str_views(before)[a] == before[a]@);
                            assert(str_views(before).contains(before[a]@));
                        }
                    }
                }
            }
            i += 1;
        }
        proof {
            assert forall|p: Seq<char>| #[trigger]
                str_views(out@).contains(p) implies self.dep_edge(p, crate_name@) by {
                let j = choose|j: int|
                    0 <= j < es.len() && (#[trigger] es[j]).0@ == p && str_views(es[j].1@).contains(
                        crate_name@,
                    );
                lemma_lookup_at(es, j);
            }
            assert forall|p: Seq<char>| self.dep_edge(p, crate_name@) implies #[trigger] str_views(
                out@,
            ).contains(p) by {
                lemma_lookup_index(es, p);
                let j = choose|j: int|
                    0 <= j < es.len() && (#[trigger] es[j]).0@ == p && lookup(es, p) == Some(
                        str_views(es[j].1@),
                    );
            }
        }
        Some(out)
    }

    /// The number of packages the graph knows.
    pub fn len(&self) -> (r: usize)
        ensures
            r == self.keys().len(),
    {
        self.crates.len()
    }

    /// Every package name the graph knows, in entry order.
    pub fn get_all_crate_names(&self) -> (r: Vec<String>)
        ensures
            str_views(r@) == self.keys(),
    {
        let mut out: Vec<String> = Vec::new();
        let mut i: usize = 0;
        while i < self.crates.len()
            invariant
                0 <= i <= self.crates@.len(),
                str_views(out@) =~= self.keys().take(i as int),
            decreases self.crates@.len() - i,
        {
            let ghost before = out@;
            out.push(self.crates[i].0.clone());
            proof {
                assert(str_views(out@) =~= str_views(before).push(self.crates@[i as int].0@));
                assert(self.keys()[i as int] == self.crates@[i as int].0@);
                assert(str_views(out@) =~= self.keys().take(i + 1));
            }
            i += 1;
        }
        proof {
            assert(self.keys().take(self.keys().len() as int) =~= self.keys());
        }
        out
    }

    /// A graph built from explicit entries; on a repeated key the first
    /// entry wins.
    pub fn from_entries(entries: Vec<(String, Vec<String>)>) -> (r: Crates)
        ensures
            r.wf(),
            forall|k: Seq<char>| #[trigger] r.deps_of(k) == lookup(entries@, k),
    {
        let mut out = Crates { crates: Vec::new() };
        let mut i: usize = 0;
        proof {
            assert(entries@.take(0) =~= Seq::<(String, Vec<String>)>::empty());
        }
        while i < entries.len()
            invariant
                0 <= i <= entries@.len(),
                out.wf(),
                forall|k: Seq<char>| #[trigger]
                    lookup(out.crates@, k) == lookup(entries@.take(i as int), k),
            decreases entries@.len() - i,
        {
            let e = &entries[i];
            let known = out.contains_name_exec(e.0.as_str());
            proof {
                out.lemma_contains_lookup(e.0@);
            }
            if !known {
                let ghost before = out.crates@;
                let deps_copy = clone_strings(&e.1);
                out.crates.push((e.0.clone(), deps_copy));
                proof {
                    assert forall|a: int, b: int|
                        0 <= a < b < out.crates@.len() implies (#[trigger] out.crates@[a]).0@ != (
                    #[trigger] out.crates@[b]).0@ by {
                        if b == before.len() {
                            assert(entry_keys(before)[a] == before[a].0@);
                            lemma_lookup_index(before, before[a].0@);
                            if before[a].0@ == out.crates@[b].0@ {
                                assert(lookup(before, before[a].0@) is None);
                                assert(false);
                            }
                        }
                    }
                    assert forall|k: Seq<char>| #[trigger]
                        lookup(out.crates@, k) == lookup(entries@.take(i + 1), k) by {
                        lemma_lookup_push(before, out.crates@.last(), k);
                        assert(out.crates@ =~= before.push(out.crates@.last()));
                        assert(out.crates@.last().0@ == entries@[i as int].0@);
                        assert(str_views(out.crates@.last().1@) =~= str_views(
                            entries@[i as int].1@,
                        ));
                        assert(entries@.take(i + 1) =~= entries@.take(i as int).push(
                            entries@[i as int],
                        ));
                        lemma_lookup_push(entries@.take(i as int), entries@[i as int], k);
                    }
                }
            } else {
                proof {
                    assert forall|k: Seq<char>| #[trigger]
                        lookup(out.crates@, k) == lookup(entries@.take(i + 1), k) by {
                        assert(entries@.take(i + 1) =~= entries@.take(i as int).push(
                            entries@[i as int],
                        ));
                        lemma_lookup_push(entries@.take(i as int), entries@[i as int], k);
                    }
                }
            }
            i += 1;
        }
        proof {
            assert(entries@.take(entries@.len() as int) =~= entries@);
        }
        out
    }
}

} // verus!

verus! {

use vstd::set::axiom_set_remove_len;
use vstd::set::axiom_set_difference_finite;
use vstd::seq_lib::seq_to_set_is_finite;

impl Crates {
    /// One traversal step: a dependency edge forwards, or backwards when
    /// walking dependents.
    pub open spec fn step(self, a: Seq<char>, b: Seq<char>, rev: bool) -> bool {
        if rev {
            self.dep_edge(b, a)
        } else {
            self.dep_edge(a, b)
        }
    }

    /// `b` can be reached from `a` along at most `n` traversal steps, with
    /// at least one step taken.
    pub open spec fn reaches(self, a: Seq<char>, b: Seq<char>, n: nat, rev: bool) -> bool
        decreases n,
    {
        if n == 0 {
            false
        } else {
            self.step(a, b, rev) || exists|c: Seq<char>|
                #[trigger] self.step(a, c, rev) && self.reaches(c, b, (n - 1) as nat, rev)
        }
    }

    /// `b` lies in the transitive closure of the traversal relation from
    /// `a`; `a` itself only through a cycle back to it.
    pub open spec fn reachable(self, a: Seq<char>, b: Seq<char>, rev: bool) -> bool {
        exists|n: nat| self.reaches(a, b, n, rev)
    }

    /// A bound on the step count can always be raised.
    pub proof fn lemma_reaches_mono(self, a: Seq<char>, b: Seq<char>, n: nat, m: nat, rev: bool)
        requires
            self.reaches(a, b, n, rev),
            n <= m,
        ensures
            self.reaches(a, b, m, rev),
        decreases n,
    {
        if self.step(a, b, rev) {
            assert(m > 0);
        } else {
            let c = choose|c: Seq<char>|
                #[trigger] self.step(a, c, rev) && self.reaches(c, b, (n - 1) as nat, rev);
            self.lemma_reaches_mono(c, b, (n - 1) as nat, (m - 1) as nat, rev);
        }
    }

    /// A single step reaches within one step.
    pub proof fn lemma_step_reaches(self, a: Seq<char>, b: Seq<char>, rev: bool)
        requires
            self.step(a, b, rev),
        ensures
            self.reaches(a, b, 1, rev),
    {
    }

    /// A reachable node's successor is reachable with one more step.
    pub proof fn lemma_reaches_extend(
        self,
        a: Seq<char>,
        c: Seq<char>,
        b: Seq<char>,
        n: nat,
        rev: bool,
    )
        requires
            self.reaches(a, c, n, rev),
            self.step(c, b, rev),
        ensures
            self.reaches(a, b, (n + 1) as nat, rev),
        decreases n,
    {
        if self.step(a, c, rev) {
            self.lemma_step_reaches(c, b, rev);
            self.lemma_reaches_mono(c, b, 1, n, rev);
            assert(self.step(a, c, rev) && self.reaches(c, b, n, rev));
        } else {
            let d = choose|d: Seq<char>|
                #[trigger] self.step(a, d, rev) && self.reaches(d, c, (n - 1) as nat, rev);
            self.lemma_reaches_extend(d, c, b, (n - 1) as nat, rev);
            assert(self.step(a, d, rev) && self.reaches(d, b, n, rev));
        }
    }

    /// Anything reachable from `start` lies in a set that holds the
    /// successors of `start` and of each of its own elements.
    pub proof fn lemma_closure_complete(
        self,
        start: Seq<char>,
        acc: Set<Seq<char>>,
        b: Seq<char>,
        n: nat,
        rev: bool,
    )
        requires
            forall|x: Seq<char>, y: Seq<char>|
                (x == start || acc.contains(x)) && #[trigger] self.step(x, y, rev)
                    ==> acc.contains(y),
            self.reaches(start, b, n, rev),
        ensures
            acc.contains(b),
        decreases n,
    {
        if self.step(start, b, rev) {
        } else {
            let c = choose|c: Seq<char>|
                #[trigger] self.step(start, c, rev) && self.reaches(c, b, (n - 1) as nat, rev);
            assert(acc.contains(c));
            assert forall|x: Seq<char>, y: Seq<char>|
                (x == c || acc.contains(x)) && #[trigger] self.step(x, y, rev) implies acc.contains(
                y,
            ) by {
                assert(x == start || acc.contains(x));
            }
            self.lemma_closure_complete(c, acc, b, (n - 1) as nat, rev);
        }
    }

    /// An edge starts at a known package.
    pub proof fn lemma_edge_source_known(self, a: Seq<char>, b: Seq<char>)
        requires
            self.dep_edge(a, b),
        ensures
            self.contains_name(a),
    {
        self.lemma_contains_lookup(a);
    }

    /// The direct traversal neighbours of `name`: its dependency list
    /// forwards, its dependents backwards; `None` for an unknown package.
    fn neighbors(&self, name: &str, rev: bool) -> (r: Option<Vec<String>>)
        requires
            self.wf(),
        ensures
            match r {
                Some(v) => self.contains_name(name@) && forall|b: Seq<char>|
                    #[trigger] str_views(v@).contains(b) <==> self.step(name@, b, rev),
                None => !self.contains_name(name@),
            },
    {
        if rev {
            self.get_dependents(name)
        } else {
            match self.get_dependencies(name) {
                Some(v) => {
                    proof {
                        self.lemma_contains_lookup(name@);
                    }
                    Some(clone_strings(v))
                },
                None => {
                    proof {
                        self.lemma_contains_lookup(name@);
                    }
                    None
                },
            }
        }
    }
}

/// Record `s` as discovered: append it to `all` and to `to_visit`, unless
/// `all` already holds it.
fn push_new(all: &mut Vec<String>, to_visit: &mut Vec<String>, s: &String)
    ensures
        forall|p: Seq<char>|
            #[trigger] str_views(final(all)@).contains(p) <==> (str_views(old(all)@).contains(p)
                || p == s@),
        forall|p: Seq<char>|
            #[trigger] str_views(final(to_visit)@).contains(p) <==> (str_views(
                old(to_visit)@,
            ).contains(p) || (p == s@ && !str_views(old(all)@).contains(p))),
        distinct_views(old(all)@) ==> distinct_views(final(all)@),
    decreases 0int,
{
    let ghost all0 = all@;
    let ghost tv0 = to_visit@;
    if contains_string(all, s.as_str()) {
        return ;
    }
    all.push(s.clone());
    to_visit.push(s.clone());
    proof {
        assert(str_views(all@) =~= str_views(all0).push(s@));
        assert(str_views(to_visit@) =~= str_views(tv0).push(s@));
        assert forall|p: Seq<char>| #[trigger]
            str_views(all@).contains(p) implies (str_views(all0).contains(p) || p == s@) by {
            let k = choose|k: int| 0 <= k < str_views(all@).len() && str_views(all@)[k] == p;
            if k < all0.len() {
                assert(str_views(all0)[k] == p);
            }
        }
        assert forall|p: Seq<char>| (str_views(all0).contains(p) || p == s@) implies #[trigger]
            str_views(all@).contains(p) by {
            if str_views(all0).contains(p) {
                let k = choose|k: int| 0 <= k < str_views(all0).len() && str_views(all0)[k] == p;
                assert(str_views(all@)[k] == p);
            } else {
                assert(str_views(all@)[all0.len() as int] == s@);
            }
        }
        assert forall|p: Seq<char>| #[trigger]
            str_views(to_visit@).contains(p) implies (str_views(tv0).contains(p) || (p == s@
                && !str_views(all0).contains(p))) by {
            let k = choose|k: int|
                0 <= k < str_views(to_visit@).len() && str_views(to_visit@)[k] == p;
            if k < tv0.len() {
                assert(str_views(tv0)[k] == p);
            }
        }
        assert forall|p: Seq<char>|
            (str_views(tv0).contains(p) || (p == s@ && !str_views(all0).contains(p)))
                implies #[trigger] str_views(to_visit@).contains(p) by {
            if str_views(tv0).contains(p) {
                let k = choose|k: int| 0 <= k < str_views(tv0).len() && str_views(tv0)[k] == p;
                assert(str_views(to_visit@)[k] == p);
            } else {
                assert(str_views(to_visit@)[tv0.len() as int] == s@);
            }
        }
        if distinct_views(all0) {
            assert forall|a: int, b: int|
                0 <= a < b < all@.len() implies (#[trigger] all@[a])@ != (#[trigger] all@[b])@ by {
                if b == all0.len() {
                    assert(str_views(all0)[a] == all0[a]@);
                    assert(str_views(all0).contains(all0[a]@));
                }
            }
        }
    }
}

} // verus!

verus! {

impl Crates {
    /// The deduplicated transitive closure of the traversal relation from
    /// `crate_name`, by worklist; `None` for an unknown package.
    fn transitive_closure(&self, crate_name: &str, rev: bool) -> (r: Option<Vec<String>>)
        requires
            self.wf(),
        ensures
            match r {
                Some(v) => self.contains_name(crate_name@) && distinct_views(v@) && forall|
                    b: Seq<char>,
                |
                    #[trigger] str_views(v@).contains(b) <==> self.reachable(crate_name@, b, rev),
                None => !self.contains_name(crate_name@),
            },
    {
        if !self.contains_name_exec(crate_name) {
            return None;
        }
        let ghost start = crate_name@;
        let mut all: Vec<String> = Vec::new();
        let mut visited: Vec<String> = Vec::new();
        let mut to_visit: Vec<String> = Vec::new();
        to_visit.push(crate_name.to_owned());
        proof {
            assert(str_views(to_visit@)[0] == start);
        }
        while to_visit.len() > 0
            invariant
                self.wf(),
                self.contains_name(start),
                distinct_views(all@),
                forall|b: Seq<char>|
                    #[trigger] str_views(all@).contains(b) ==> self.reachable(start, b, rev),
                forall|b: Seq<char>|
                    #[trigger] str_views(to_visit@).contains(b) ==> b == start || str_views(
                        all@,
                    ).contains(b),
                str_views(visited@).contains(start) || str_views(to_visit@).contains(start),
                forall|b: Seq<char>|
                    #[trigger] str_views(all@).contains(b) ==> str_views(visited@).contains(b)
                        || str_views(to_visit@).contains(b),
                forall|x: Seq<char>, y: Seq<char>|
                    str_views(visited@).contains(x) && #[trigger] self.step(x, y, rev)
                        ==> str_views(all@).contains(y),
                rev ==> forall|b: Seq<char>|
                    #[trigger] str_views(to_visit@).contains(b) ==> self.contains_name(b),
            decreases
                    self.keys().to_set().difference(str_views(visited@).to_set()).len(),
                    to_visit@.len(),
        {
            let ghost tv0 = to_visit@;
            let ghost v0 = visited@;
            let ghost all0 = all@;
            let cur = to_visit.pop().unwrap();
            let ghost curv = cur@;
            proof {
                assert(str_views(tv0)[tv0.len() - 1] == curv);
                assert(str_views(tv0).contains(curv));
                assert(to_visit@ =~= tv0.drop_last());
                assert forall|b: Seq<char>| #[trigger]
                    str_views(to_visit@).contains(b) implies str_views(tv0).contains(b) by {
                    let k = choose|k: int|
                        0 <= k < str_views(to_visit@).len() && str_views(to_visit@)[k] == b;
                    assert(str_views(tv0)[k] == b);
                }
                assert forall|b: Seq<char>|
                    str_views(tv0).contains(b) && b != curv implies #[trigger] str_views(
                    to_visit@,
                ).contains(b) by {
                    let k = choose|k: int|
                        0 <= k < str_views(tv0).len() && str_views(tv0)[k] == b;
                    assert(k < tv0.len() - 1);
                    assert(str_views(to_visit@)[k] == b);
                }
                seq_to_set_is_finite(self.keys());
                seq_to_set_is_finite(str_views(v0));
                axiom_set_difference_finite(self.keys().to_set(), str_views(v0).to_set());
            }
            if contains_string(&visited, cur.as_str()) {
                // already expanded: only the worklist shrinks
            } else {
                let maybe_ns = self.neighbors(cur.as_str(), rev);
                match maybe_ns {
                    Some(ns) => {
                        let mut j: usize = 0;
                        while j < ns.len()
                            invariant
                                self.wf(),
                                self.contains_name(start),
                                self.contains_name(curv),
                                curv == start || str_views(all@).contains(curv),
                                forall|b: Seq<char>|
                                    #[trigger] str_views(ns@).contains(b) <==> self.step(
                                        curv,
                                        b,
                                        rev,
                                    ),
                                0 <= j <= ns@.len(),
                                distinct_views(all@),
                                forall|b: Seq<char>|
                                    #[trigger] str_views(all@).contains(b) ==> self.reachable(
                                        start,
                                        b,
                                        rev,
                                    ),
                                forall|b: Seq<char>|
                                    #[trigger] str_views(to_visit@).contains(b) ==> b == start
                                        || str_views(all@).contains(b),
                                str_views(visited@).contains(start) || str_views(
                                    to_visit@,
                                ).contains(start) || curv == start,
                                forall|b: Seq<char>|
                                    #[trigger] str_views(all@).contains(b) ==> str_views(
                                        visited@,
                                    ).contains(b) || str_views(to_visit@).contains(b) || b == curv,
                                forall|x: Seq<char>, y: Seq<char>|
                                    str_views(visited@).contains(x) && #[trigger] self.step(
                                        x,
                                        y,
                                        rev,
                                    ) ==> str_views(all@).contains(y),
                                forall|k: int|
                                    0 <= k < j ==> str_views(all@).contains(
                                        #[trigger] str_views(ns@)[k],
                                    ),
                                rev ==> forall|b: Seq<char>|
                                    #[trigger] str_views(to_visit@).contains(b)
                                        ==> self.contains_name(b),
                                visited@ == v0,
                            decreases ns@.len() - j,
                        {
                            let ghost all_b = all@;
                            let ghost tv_b = to_visit@;
                            proof {
                                assert(str_views(ns@)[j as int] == ns@[j as int]@);
                                assert(str_views(ns@).contains(ns@[j as int]@));
                                assert(self.step(curv, ns@[j as int]@, rev));
                                if curv == start {
                                    self.lemma_step_reaches(curv, ns@[j as int]@, rev);
                                } else {
                                    let n = choose|n: nat| self.reaches(start, curv, n, rev);
                                    self.lemma_reaches_extend(start, curv, ns@[j as int]@, n, rev);
                                }
                                if rev {
                                    assert(self.dep_edge(ns@[j as int]@, curv));
                                    self.lemma_edge_source_known(ns@[j as int]@, curv);
                                }
                            }
                            push_new(&mut all, &mut to_visit, &ns[j]);
                            j += 1;
                        }
                        proof {
                            assert forall|y: Seq<char>|
                                #[trigger] self.step(curv, y, rev) implies str_views(
                                all@,
                            ).contains(y) by {
                                assert(str_views(ns@).contains(y));
                                let k = choose|k: int|
                                    0 <= k < str_views(ns@).len() && str_views(ns@)[k] == y;
                                assert(str_views(all@).contains(str_views(ns@)[k]));
                            }
                        }
                    },
                    None => {
                        proof {
                            if rev {
                                assert(str_views(tv0).contains(curv));
                                assert(false);
                            }
                            assert forall|y: Seq<char>| #[trigger]
                                self.step(curv, y, rev) implies str_views(all@).contains(y) by {
                                self.lemma_contains_lookup(curv);
                            }
                        }
                    },
                }
                let ghost v_before = visited@;
                visited.push(cur);
                proof {
                    assert(str_views(visited@) =~= str_views(v_before).push(curv));
                    assert forall|b: Seq<char>| #[trigger]
                        str_views(visited@).contains(b) implies (str_views(v_before).contains(b)
                        || b == curv) by {
                        let k = choose|k: int|
                            0 <= k < str_views(visited@).len() && str_views(visited@)[k] == b;
                        if k < v_before.len() {
                            assert(str_views(v_before)[k] == b);
                        }
                    }
                    assert forall|b: Seq<char>|
                        (str_views(v_before).contains(b) || b == curv) implies #[trigger]
                        str_views(visited@).contains(b) by {
                        if str_views(v_before).contains(b) {
                            let k = choose|k: int|
                                0 <= k < str_views(v_before).len() && str_views(v_before)[k] == b;
                            assert(str_views(visited@)[k] == b);
                        } else {
                            assert(str_views(visited@)[v_before.len() as int] == curv);
                        }
                    }
                    // the new visited node was unvisited; when it is a key the
                    // key measure strictly drops
                    let kset = self.keys().to_set();
                    let vset0 = str_views(v0).to_set();
                    let vset1 = str_views(visited@).to_set();
                    seq_to_set_is_finite(self.keys());
                    seq_to_set_is_finite(str_views(v0));
                    seq_to_set_is_finite(str_views(visited@));
                    axiom_set_difference_finite(kset, vset0);
                    axiom_set_difference_finite(kset, vset1);
                    assert(vset1 =~= vset0.insert(curv));
                    if self.contains_name(curv) {
                        assert(kset.contains(curv));
                        assert(!vset0.contains(curv));
                        assert(kset.difference(vset1) =~= kset.difference(vset0).remove(curv));
                        axiom_set_remove_len(kset.difference(vset0), curv);
                        assert(kset.difference(vset0).contains(curv));
                        assert(kset.difference(vset1).len() < kset.difference(vset0).len());
                    } else {
                        assert(kset.difference(vset1) =~= kset.difference(vset0));
                    }
                }
            }
        }
        proof {
            assert(str_views(to_visit@).len() == 0);
            assert forall|b: Seq<char>|
                self.reachable(start, b, rev) implies #[trigger] str_views(all@).contains(b) by {
                let n = choose|n: nat| self.reaches(start, b, n, rev);
                let acc = str_views(all@).to_set();
                assert forall|x: Seq<char>, y: Seq<char>|
                    (x == start || acc.contains(x)) && #[trigger] self.step(x, y, rev)
                        implies acc.contains(y) by {
                    assert(str_views(visited@).contains(x));
                }
                self.lemma_closure_complete(start, acc, b, n, rev);
            }
        }
        Some(all)
    }

    /// Every package the given one depends on, directly or through other
    /// packages, without duplicates; `None` for an unknown package. The
    /// package itself appears only when a dependency cycle leads back to it.
    pub fn get_dependencies_transitive(&self, crate_name: &str) -> (r: Option<Vec<String>>)
        requires
            self.wf(),
        ensures
            match r {
                Some(v) => self.contains_name(crate_name@) && distinct_views(v@) && forall|
                    b: Seq<char>,
                |
                    #[trigger] str_views(v@).contains(b) <==> self.reachable(crate_name@, b, false),
                None => !self.contains_name(crate_name@),
            },
    {
        self.transitive_closure(crate_name, false)
    }

    /// Every package that depends on the given one, directly or through
    /// other packages, without duplicates; `None` for an unknown package.
    /// The package itself appears only when a dependency cycle leads back to
    /// it.
    pub fn get_dependents_transitive(&self, crate_name: &str) -> (r: Option<Vec<String>>)
        requires
            self.wf(),
        ensures
            match r {
                Some(v) => self.contains_name(crate_name@) && distinct_views(v@) && forall|
                    b: Seq<char>,
                |
                    #[trigger] str_views(v@).contains(b) <==> self.reachable(crate_name@, b, true),
                None => !self.contains_name(crate_name@),
            },
    {
        self.transitive_closure(crate_name, true)
    }
}

} // verus!

verus! {

use crate::cargo::CargoCrate;
use crate::strutil::push_unique;

/// A package named `k` without an external-source marker exists in
/// `packages`.
pub open spec fn meta_has_pkg(packages: Seq<CargoCrate>, k: Seq<char>) -> bool {
    exists|j: int|
        0 <= j < packages.len() && (#[trigger] packages[j]).source is None && packages[j].name@
            == k
}

/// Entry `l` of workspace package `j` declares a workspace-candidate
/// dependency on `b` while the package is named `a`.
pub open spec fn dep_entry_ok(
    packages: Seq<CargoCrate>,
    j: int,
    l: int,
    a: Seq<char>,
    b: Seq<char>,
) -> bool {
    0 <= j < packages.len() && packages[j].source is None && packages[j].name@ == a && 0 <= l
        < packages[j].dependencies@.len() && packages[j].dependencies@[l].source is None
        && packages[j].dependencies@[l].name@ == b
}

/// Some workspace package named `a` declares a dependency on `b` without an
/// external-source marker.
pub open spec fn meta_has_dep(packages: Seq<CargoCrate>, a: Seq<char>, b: Seq<char>) -> bool {
    exists|j: int, l: int| #[trigger] dep_entry_ok(packages, j, l, a, b)
}

/// `meta_has_dep` restricted to declaration positions before `(j, l)` in
/// package-then-dependency order.
pub open spec fn meta_dep_upto(
    packages: Seq<CargoCrate>,
    a: Seq<char>,
    b: Seq<char>,
    j: int,
    l: int,
) -> bool {
    exists|j2: int, l2: int|
        #[trigger] dep_entry_ok(packages, j2, l2, a, b) && (j2 < j || (j2 == j && l2 < l))
}

/// One package's dependency entries from position `l` on, folded into
/// `acc`: a dependency without an external-source marker whose name is
/// itself a workspace package is appended unless already present.
pub open spec fn dep_list_pkg(
    ps: Seq<CargoCrate>,
    j: int,
    l: int,
    acc: Seq<Seq<char>>,
) -> Seq<Seq<char>>
    decreases ps[j].dependencies@.len() - l,
{
    if 0 <= j < ps.len() && 0 <= l < ps[j].dependencies@.len() {
        let d = ps[j].dependencies@[l];
        let acc2 = if d.source is None && meta_has_pkg(ps, d.name@) && !acc.contains(d.name@) {
            acc.push(d.name@)
        } else {
            acc
        };
        dep_list_pkg(ps, j, l + 1, acc2)
    } else {
        acc
    }
}

/// The packages from position `j` on folded into `acc`: every workspace
/// package named `a` contributes its dependency entries in order.
pub open spec fn dep_list_pkgs(
    ps: Seq<CargoCrate>,
    a: Seq<char>,
    j: int,
    acc: Seq<Seq<char>>,
) -> Seq<Seq<char>>
    decreases ps.len() - j,
{
    if 0 <= j < ps.len() {
        let acc2 = if ps[j].source is None && ps[j].name@ == a {
            dep_list_pkg(ps, j, 0, acc)
        } else {
            acc
        };
        dep_list_pkgs(ps, a, j + 1, acc2)
    } else {
        acc
    }
}

/// The dependency list stored for package `a`: its workspace-local
/// dependencies in first-occurrence order with duplicates suppressed,
/// merged over every package of that name.
pub open spec fn deps_list_spec(ps: Seq<CargoCrate>, a: Seq<char>) -> Seq<Seq<char>> {
    dep_list_pkgs(ps, a, 0, Seq::<Seq<char>>::empty())
}

/// The dependency graph of the workspace packages in `metadata`: one key
/// per workspace package, and under it every declared dependency that is
/// itself a workspace package, deduplicated. Packages and dependencies with
/// an external-source marker are dropped.
pub fn parse(metadata: &CargoMetadata) -> (r: Crates)
    ensures
        r.wf(),
        forall|k: Seq<char>| #[trigger]
            r.contains_name(k) <==> meta_has_pkg(metadata.packages@, k),
        forall|a: Seq<char>, b: Seq<char>| #[trigger]
            r.dep_edge(a, b) <==> (meta_has_pkg(metadata.packages@, a) && meta_has_pkg(
                metadata.packages@,
                b,
            ) && meta_has_dep(metadata.packages@, a, b)),
        forall|a: Seq<char>| #[trigger]
            r.contains_name(a) ==> r.deps_of(a) == Some(deps_list_spec(metadata.packages@, a)),
{
    let ghost ps = metadata.packages@;
    // first pass: the distinct names of the workspace packages
    let mut names: Vec<String> = Vec::new();
    let mut i: usize = 0;
    while i < metadata.packages.len()
        invariant
            ps == metadata.packages@,
            0 <= i <= ps.len(),
            distinct_views(names@),
            forall|k: Seq<char>|
                #[trigger] str_views(names@).contains(k) <==> exists|j: int|
                    0 <= j < i && (#[trigger] ps[j]).source is None && ps[j].name@ == k,
        decreases ps.len() - i,
    {
        let ghost names0 = names@;
        if metadata.packages[i].source.is_none() {
            push_unique(&mut names, metadata.packages[i].name.clone());
        }
        proof {
            assert forall|k: Seq<char>| #[trigger]
                str_views(names@).contains(k) implies exists|j: int|
                0 <= j < i + 1 && (#[trigger] ps[j]).source is None && ps[j].name@ == k by {
                if str_views(names0).contains(k) {
                    let j = choose|j: int|
                        0 <= j < i && (#[trigger] ps[j]).source is None && ps[j].name@ == k;
                    assert(0 <= j < i + 1 && ps[j].source is None && ps[j].name@ == k);
                } else {
                    assert(ps[i as int].source is None && ps[i as int].name@ == k);
                }
            }
            assert forall|k: Seq<char>|
                (exists|j: int| 0 <= j < i + 1 && (#[trigger] ps[j]).source is None && ps[j].name@
                    == k) implies #[trigger] str_views(names@).contains(k) by {
                let j = choose|j: int|
                    0 <= j < i + 1 && (#[trigger] ps[j]).source is None && ps[j].name@ == k;
                if j < i {
                    assert(str_views(names0).contains(k));
                }
            }
        }
        i += 1;
    }
    // second pass: per package name, the merged, deduplicated list of its
    // workspace-local dependencies
    let mut entries: Vec<(String, Vec<String>)> = Vec::new();
    let mut e: usize = 0;
    while e < names.len()
        invariant
            ps == metadata.packages@,
            distinct_views(names@),
            forall|k: Seq<char>| #[trigger] str_views(names@).contains(k) <==> meta_has_pkg(ps, k),
            0 <= e <= names@.len(),
            entries@.len() == e,
            forall|x: int| 0 <= x < e ==> (#[trigger] entries@[x]).0@ == names@[x]@,
            forall|x: int|
                0 <= x < e ==> forall|b: Seq<char>|
                    #[trigger] str_views((#[trigger] entries@[x]).1@).contains(b) <==> (
                    meta_has_dep(ps, names@[x]@, b) && str_views(names@).contains(b)),
            forall|x: int|
                0 <= x < e ==> str_views((#[trigger] entries@[x]).1@) == deps_list_spec(
                    ps,
                    names@[x]@,
                ),
        decreases names@.len() - e,
    {
        let ghost key = names@[e as int]@;
        let mut deps: Vec<String> = Vec::new();
        let mut j: usize = 0;
        proof {
            assert(str_views(deps@) =~= Seq::<Seq<char>>::empty());
        }
        while j < metadata.packages.len()
            invariant
                ps == metadata.packages@,
                key == names@[e as int]@,
                0 <= e < names@.len(),
                distinct_views(names@),
                forall|k: Seq<char>|
                    #[trigger] str_views(names@).contains(k) <==> meta_has_pkg(ps, k),
                0 <= j <= ps.len(),
                distinct_views(deps@),
                forall|b: Seq<char>|
                    #[trigger] str_views(deps@).contains(b) <==> (meta_dep_upto(
                        ps,
                        key,
                        b,
                        j as int,
                        0,
                    ) && str_views(names@).contains(b)),
                dep_list_pkgs(ps, key, j as int, str_views(deps@)) == deps_list_spec(ps, key),
            decreases ps.len() - j,
        {
            let pkg = &metadata.packages[j];
            if pkg.source.is_none() && str_eq(pkg.name.as_str(), names[e].as_str()) {
                proof {
                    assert(dep_list_pkgs(ps, key, j as int, str_views(deps@)) == dep_list_pkgs(
                        ps,
                        key,
                        j + 1,
                        dep_list_pkg(ps, j as int, 0, str_views(deps@)),
                    ));
                }
                let mut l: usize = 0;
                while l < pkg.dependencies.len()
                    invariant
                        ps == metadata.packages@,
                        key == names@[e as int]@,
                        0 <= e < names@.len(),
                        distinct_views(names@),
                        forall|k: Seq<char>|
                            #[trigger] str_views(names@).contains(k) <==> meta_has_pkg(ps, k),
                        0 <= j < ps.len(),
                        pkg == &metadata.packages[j as int],
                        ps[j as int].source is None,
                        ps[j as int].name@ == key,
                        0 <= l <= ps[j as int].dependencies@.len(),
                        distinct_views(deps@),
                        forall|b: Seq<char>|
                            #[trigger] str_views(deps@).contains(b) <==> ((meta_dep_upto(
                                ps,
                                key,
                                b,
                                j as int,
                                0,
                            ) || meta_dep_upto(ps, key, b, j as int, l as int)) && str_views(
                                names@,
                            ).contains(b)),
                        dep_list_pkgs(
                            ps,
                            key,
                            j + 1,
                            dep_list_pkg(ps, j as int, l as int, str_views(deps@)),
                        ) == deps_list_spec(ps, key),
                    decreases ps[j as int].dependencies@.len() - l,
                {
                    let ghost deps0 = deps@;
                    let ghost accv = str_views(deps@);
                    let d = &pkg.dependencies[l];
                    if d.source.is_none() && contains_string(&names, d.name.as_str()) {
                        push_unique(&mut deps, d.name.clone());
                        proof {
                            assert(dep_entry_ok(ps, j as int, l as int, key, d.name@));
                        }
                    }
                    proof {
                        assert(ps[j as int].dependencies@[l as int] == pkg.dependencies@[l as int]);
                        assert(dep_list_pkg(ps, j as int, l as int, accv) == dep_list_pkg(
                            ps,
                            j as int,
                            l + 1,
                            str_views(deps@),
                        ));
                        assert forall|b: Seq<char>| #[trigger]
                            str_views(deps@).contains(b) implies ((meta_dep_upto(
                            ps,
                            key,
                            b,
                            j as int,
                            0,
                        ) || meta_dep_upto(ps, key, b, j as int, l + 1)) && str_views(
                            names@,
                        ).contains(b)) by {
                            if str_views(deps0).contains(b) {
                                if meta_dep_upto(ps, key, b, j as int, l as int) {
                                    let (j2, l2) = choose|j2: int, l2: int|
                                        #[trigger] dep_entry_ok(ps, j2, l2, key, b) && (j2
                                            < j as int || (j2 == j as int && l2 < l as int));
                                    assert(dep_entry_ok(ps, j2, l2, key, b) && (j2 < j as int || (
                                    j2 == j as int && l2 < l + 1)));
                                }
                            } else {
                                assert(b == ps[j as int].dependencies@[l as int].name@);
                                assert(dep_entry_ok(ps, j as int, l as int, key, b));
                                assert(meta_dep_upto(ps, key, b, j as int, l + 1));
                            }
                        }
                        assert forall|b: Seq<char>|
                            ((meta_dep_upto(ps, key, b, j as int, 0) || meta_dep_upto(
                                ps,
                                key,
                                b,
                                j as int,
                                l + 1,
                            )) && str_views(names@).contains(b)) implies #[trigger] str_views(
                            deps@,
                        ).contains(b) by {
                            if meta_dep_upto(ps, key, b, j as int, l + 1) && !meta_dep_upto(
                                ps,
                                key,
                                b,
                                j as int,
                                0,
                            ) {
                                let (j2, l2) = choose|j2: int, l2: int|
                                    #[trigger] dep_entry_ok(ps, j2, l2, key, b) && (j2 < j as int
                                        || (j2 == j as int && l2 < l + 1));
                                if j2 == j as int && l2 == l as int {
                                    assert(str_views(deps@).contains(b));
                                } else {
                                    assert(dep_entry_ok(ps, j2, l2, key, b) && (j2 < j as int || (
                                    j2 == j as int && l2 < l as int)));
                                    assert(str_views(deps0).contains(b));
                                }
                            } else if meta_dep_upto(ps, key, b, j as int, 0) {
                                assert(str_views(deps0).contains(b));
                            }
                        }
                    }
                    l += 1;
                }
                proof {
                    assert(dep_list_pkg(
                        ps,
                        j as int,
                        ps[j as int].dependencies@.len() as int,
                        str_views(deps@),
                    ) == str_views(deps@));
                    assert(dep_list_pkgs(ps, key, j + 1, str_views(deps@)) == deps_list_spec(
                        ps,
                        key,
                    ));
                    assert forall|b: Seq<char>| #[trigger]
                        str_views(deps@).contains(b) implies (meta_dep_upto(ps, key, b, j + 1, 0)
                        && str_views(names@).contains(b)) by {
                        if meta_dep_upto(ps, key, b, j as int, 0) {
                            let (j2, l2) = choose|j2: int, l2: int|
                                #[trigger] dep_entry_ok(ps, j2, l2, key, b) && (j2 < j as int || (
                                j2 == j as int && l2 < 0));
                            assert(dep_entry_ok(ps, j2, l2, key, b) && (j2 < j + 1 || (j2 == j + 1
                                && l2 < 0)));
                        } else {
                            let lmax = ps[j as int].dependencies@.len() as int;
                            let (j2, l2) = choose|j2: int, l2: int|
                                #[trigger] dep_entry_ok(ps, j2, l2, key, b) && (j2 < j as int || (
                                j2 == j as int && l2 < lmax));
                            assert(dep_entry_ok(ps, j2, l2, key, b) && j2 < j + 1);
                        }
                    }
                    assert forall|b: Seq<char>|
                        (meta_dep_upto(ps, key, b, j + 1, 0) && str_views(names@).contains(b))
                        implies #[trigger] str_views(deps@).contains(b) by {
                        let (j2, l2) = choose|j2: int, l2: int|
                            #[trigger] dep_entry_ok(ps, j2, l2, key, b) && (j2 < j + 1 || (j2 == j
                                + 1 && l2 < 0));
                        if j2 < j as int {
                            assert(dep_entry_ok(ps, j2, l2, key, b) && (j2 < j as int || (j2
                                == j as int && l2 < 0)));
                            assert(meta_dep_upto(ps, key, b, j as int, 0));
                        } else {
                            assert(j2 == j as int);
                            assert(l2 < ps[j as int].dependencies@.len() as int);
                            assert(dep_entry_ok(ps, j2, l2, key, b) && (j2 < j as int || (j2
                                == j as int && l2 < ps[j as int].dependencies@.len() as int)));
                            assert(meta_dep_upto(
                                ps,
                                key,
                                b,
                                j as int,
                                ps[j as int].dependencies@.len() as int,
                            ));
                        }
                    }
                }
            } else {
                proof {
                    assert(!(ps[j as int].source is None && ps[j as int].name@ == key));
                    assert(dep_list_pkgs(ps, key, j as int, str_views(deps@)) == dep_list_pkgs(
                        ps,
                        key,
                        j + 1,
                        str_views(deps@),
                    ));
                    assert forall|b: Seq<char>| #[trigger]
                        str_views(deps@).contains(b) implies (meta_dep_upto(ps, key, b, j + 1, 0)
                        && str_views(names@).contains(b)) by {
                        let (j2, l2) = choose|j2: int, l2: int|
                            #[trigger] dep_entry_ok(ps, j2, l2, key, b) && (j2 < j as int || (j2
                                == j as int && l2 < 0));
                        assert(dep_entry_ok(ps, j2, l2, key, b) && (j2 < j + 1 || (j2 == j + 1 && l2
                            < 0)));
                    }
                    assert forall|b: Seq<char>|
                        (meta_dep_upto(ps, key, b, j + 1, 0) && str_views(names@).contains(b))
                        implies #[trigger] str_views(deps@).contains(b) by {
                        let (j2, l2) = choose|j2: int, l2: int|
                            #[trigger] dep_entry_ok(ps, j2, l2, key, b) && (j2 < j + 1 || (j2 == j
                                + 1 && l2 < 0));
                        assert(j2 != j as int);
                        assert(dep_entry_ok(ps, j2, l2, key, b) && (j2 < j as int || (j2
                            == j as int && l2 < 0)));
                    }
                }
            }
            j += 1;
        }
        proof {
            assert(dep_list_pkgs(ps, key, ps.len() as int, str_views(deps@)) == str_views(
                deps@,
            ));
        }
        let ghost entries0 = entries@;
        entries.push((names[e].clone(), deps));
        proof {
            assert(entries@[e as int].0@ == names@[e as int]@);
            assert(str_views(entries@[e as int].1@) == deps_list_spec(ps, names@[e as int]@));
            assert forall|x: int|
                0 <= x < e + 1 implies str_views((#[trigger] entries@[x]).1@) == deps_list_spec(
                ps,
                names@[x]@,
            ) by {
                if x < e {
                    assert(entries0[x] == entries@[x]);
                }
            }
            assert forall|b: Seq<char>| #[trigger]
                str_views(entries@[e as int].1@).contains(b) implies (meta_has_dep(ps, key, b)
                && str_views(names@).contains(b)) by {
                let (j2, l2) = choose|j2: int, l2: int|
                    #[trigger] dep_entry_ok(ps, j2, l2, key, b) && (j2 < ps.len() as int || (j2
                        == ps.len() as int && l2 < 0));
            }
            assert forall|b: Seq<char>|
                (meta_has_dep(ps, key, b) && str_views(names@).contains(b)) implies #[trigger]
                str_views(entries@[e as int].1@).contains(b) by {
                let (j2, l2) = choose|j2: int, l2: int| #[trigger] dep_entry_ok(ps, j2, l2, key, b);
                assert(dep_entry_ok(ps, j2, l2, key, b) && (j2 < ps.len() as int || (j2
                    == ps.len() as int && l2 < 0)));
                assert(meta_dep_upto(ps, key, b, ps.len() as int, 0));
            }
            assert forall|x: int| 0 <= x < e + 1 implies (#[trigger] entries@[x]).0@
                == names@[x]@ by {
                if x < e {
                    assert(entries0[x] == entries@[x]);
                }
            }
        }
        e += 1;
    }
    let r = Crates { crates: entries };
    proof {
        assert forall|a2: int, b2: int|
            0 <= a2 < b2 < r.crates@.len() implies (#[trigger] r.crates@[a2]).0@ != (
        #[trigger] r.crates@[b2]).0@ by {
            assert(names@[a2]@ != names@[b2]@);
        }
        assert forall|k: Seq<char>| #[trigger]
            r.contains_name(k) <==> meta_has_pkg(ps, k) by {
            if r.contains_name(k) {
                let x = choose|x: int| 0 <= x < r.keys().len() && r.keys()[x] == k;
                assert(r.crates@[x].0@ == k);
                assert(str_views(names@)[x] == names@[x]@);
                assert(str_views(names@).contains(k));
            }
            if meta_has_pkg(ps, k) {
                assert(str_views(names@).contains(k));
                let x = choose|x: int| 0 <= x < str_views(names@).len() && str_views(names@)[x] == k;
                assert(r.crates@[x].0@ == names@[x]@);
                assert(r.keys()[x] == k);
            }
        }
        assert forall|a: Seq<char>| #[trigger]
            r.contains_name(a) implies r.deps_of(a) == Some(deps_list_spec(ps, a)) by {
            let x = choose|x: int| 0 <= x < r.keys().len() && r.keys()[x] == a;
            assert(r.crates@[x].0@ == a);
            assert(names@[x]@ == a);
            lemma_lookup_at(r.crates@, x);
            assert(str_views(r.crates@[x].1@) == deps_list_spec(ps, names@[x]@));
        }
        assert forall|a: Seq<char>, b: Seq<char>| #[trigger]
            r.dep_edge(a, b) <==> (meta_has_pkg(ps, a) && meta_has_pkg(ps, b) && meta_has_dep(
            ps,
            a,
            b,
        )) by {
            lemma_lookup_index(r.crates@, a);
            if r.dep_edge(a, b) {
                let x = choose|x: int|
                    0 <= x < r.crates@.len() && (#[trigger] r.crates@[x]).0@ == a && lookup(
                        r.crates@,
                        a,
                    ) == Some(str_views(r.crates@[x].1@));
                assert(str_views(names@)[x] == names@[x]@);
                assert(str_views(names@).contains(a));
                assert(str_views(r.crates@[x].1@).contains(b));
            }
            if meta_has_pkg(ps, a) && meta_has_pkg(ps, b) && meta_has_dep(ps, a, b) {
                assert(str_views(names@).contains(a));
                let x = choose|x: int| 0 <= x < str_views(names@).len() && str_views(names@)[x] == a;
                assert(r.crates@[x].0@ == a);
                lemma_lookup_at(r.crates@, x);
                assert(str_views(names@).contains(b));
                assert(str_views(r.crates@[x].1@).contains(b));
            }
        }
    }
    r
}

} // verus!
