//! The impact classifier: which packages a version-control diff touches.
//!
//! From a baseline snapshot, a current snapshot and a diff it derives three
//! package sets: Modified (directly touched), Affected (Modified plus all
//! transitive dependents) and Required (Affected plus all transitive
//! dependencies). A trip-wire pattern match overrides everything and marks
//! the whole workspace.

use vstd::prelude::*;

verus! {

use crate::strutil::{str_views, distinct_views, push_unique, contains_string, clone_strings};
use crate::files::{FileNode, FileTreeView, crates_containing, tree_paths};
use crate::crates::Crates;
use crate::config::MainConfig;
use crate::git::GitDiff;
use crate::globs::{any_glob_match, matches_any_pattern};

/// The three package sets of one impact run.
#[derive(Debug)]
pub struct Impact {
    pub modified: Vec<String>,
    pub affected: Vec<String>,
    pub required: Vec<String>,
}

/// One analyzed workspace state: the file tree and the package graph.
#[derive(Debug)]
pub struct WorkspaceTree {
    pub files: FileNode,
    pub crates: Crates,
}

/// A trip-wire pattern matches some changed or deleted path.
pub open spec fn trip_fired(
    patterns: Seq<Seq<char>>,
    changed: Seq<Seq<char>>,
    deleted: Seq<Seq<char>>,
) -> bool {
    (exists|i: int| 0 <= i < deleted.len() && any_glob_match(patterns, #[trigger] deleted[i]))
        || (exists|i: int| 0 <= i < changed.len() && any_glob_match(patterns, #[trigger] changed[i]))
}

/// The package `name` owns a deleted path in the baseline tree, a changed
/// path in the current tree, or a path new to the current tree.
pub open spec fn spec_modified(
    base: FileTreeView,
    cur: FileTreeView,
    changed: Seq<Seq<char>>,
    deleted: Seq<Seq<char>>,
    name: Seq<char>,
) -> bool {
    (exists|i: int|
        0 <= i < deleted.len() && crates_containing(base, #[trigger] deleted[i], None).contains(
            name,
        )) || (exists|i: int|
        0 <= i < changed.len() && crates_containing(cur, #[trigger] changed[i], None).contains(
            name,
        )) || (exists|p: Seq<char>|
        tree_paths(cur).contains(p) && !tree_paths(base).contains(p) && #[trigger] crates_containing(
            cur,
            p,
            None,
        ).contains(name))
}

/// `name` is modified, or transitively depends on a modified package known
/// to the current graph.
pub open spec fn spec_affected(
    g: Crates,
    base: FileTreeView,
    cur: FileTreeView,
    changed: Seq<Seq<char>>,
    deleted: Seq<Seq<char>>,
    name: Seq<char>,
) -> bool {
    spec_modified(base, cur, changed, deleted, name) || exists|m: Seq<char>|
        #[trigger] spec_modified(base, cur, changed, deleted, m) && g.contains_name(m)
            && g.reachable(m, name, true)
}

/// `name` is affected, or is a transitive dependency of an affected package
/// known to the current graph.
pub open spec fn spec_required(
    g: Crates,
    base: FileTreeView,
    cur: FileTreeView,
    changed: Seq<Seq<char>>,
    deleted: Seq<Seq<char>>,
    name: Seq<char>,
) -> bool {
    spec_affected(g, base, cur, changed, deleted, name) || exists|a: Seq<char>|
        #[trigger] spec_affected(g, base, cur, changed, deleted, a) && g.contains_name(a)
            && g.reachable(a, name, false)
}

/// Append every name of `src` that `dst` does not hold yet.
fn merge_names(dst: &mut Vec<String>, src: &Vec<String>)
    ensures
        forall|p: Seq<char>|
            #[trigger] str_views(final(dst)@).contains(p) <==> (str_views(old(dst)@).contains(p)
                || str_views(src@).contains(p)),
        distinct_views(old(dst)@) ==> distinct_views(final(dst)@),
{
    let ghost dst0 = dst@;
    let mut j: usize = 0;
    while j < src.len()
        invariant
            0 <= j <= src@.len(),
            forall|p: Seq<char>|
                #[trigger] str_views(dst@).contains(p) <==> (str_views(dst0).contains(p) || exists|
                    k: int,
                |
                    0 <= k < j && (#[trigger] src@[k])@ == p),
            distinct_views(dst0) ==> distinct_views(dst@),
        decreases src@.len() - j,
    {
        push_unique(dst, src[j].clone());
        proof {
            assert forall|p: Seq<char>| #[trigger]
                str_views(dst@).contains(p) implies (str_views(dst0).contains(p) || exists|k: int|
                0 <= k < j + 1 && (#[trigger] src@[k])@ == p) by {
                if p == src@[j as int]@ {
                    assert(0 <= j < j + 1 && src@[j as int]@ == p);
                }
            }
        }
        j += 1;
    }
    proof {
        assert forall|p: Seq<char>|
            (str_views(dst@).contains(p) <==> (str_views(dst0).contains(p) || str_views(
                src@,
            ).contains(p))) by {
            if str_views(src@).contains(p) {
                let k = choose|k: int| 0 <= k < str_views(src@).len() && str_views(src@)[k] == p;
                assert(src@[k]@ == p);
            }
            if exists|k: int| 0 <= k < src@.len() && (#[trigger] src@[k])@ == p {
                let k = choose|k: int| 0 <= k < src@.len() && (#[trigger] src@[k])@ == p;
                assert(str_views(src@)[k] == p);
            }
        }
    }
}

/// Classify the impact of `git_diff` between two snapshots.
///
/// The first result is the Impact; the second lists the changed or deleted
/// paths that matched a trip-wire pattern. When any path matched, all three
/// sets name the whole current workspace. Otherwise Modified holds the
/// owners of deleted paths (looked up in the baseline tree), of changed
/// paths (looked up in the current tree) and of paths new to the current
/// tree; Affected adds every transitive dependent, Required every
/// transitive dependency, both via the current graph. Modified is always a
/// subset of Affected, and Affected of Required.
pub fn get_impacted_crates(
    baseline_tree: &WorkspaceTree,
    current_tree: &WorkspaceTree,
    git_diff: &GitDiff,
    config: &MainConfig,
) -> (r: (Impact, Vec<String>))
    requires
        current_tree.crates.wf(),
    ensures
        ({
            let base = baseline_tree.files@;
            let cur = current_tree.files@;
            let ch = str_views(git_diff.changed@);
            let del = str_views(git_diff.deleted@);
            let tw = str_views(config.trip_wire_patterns@);
            let g = current_tree.crates;
            &&& distinct_views(r.0.modified@)
            &&& distinct_views(r.0.affected@)
            &&& distinct_views(r.0.required@)
            &&& (str_views(r.1@).len() > 0 <==> trip_fired(tw, ch, del))
            &&& (trip_fired(tw, ch, del) ==> forall|n: Seq<char>|
                (#[trigger] str_views(r.0.modified@).contains(n) <==> g.contains_name(n))
                    && (#[trigger] str_views(r.0.affected@).contains(n) <==> g.contains_name(n))
                    && (#[trigger] str_views(r.0.required@).contains(n) <==> g.contains_name(n)))
            &&& (!trip_fired(tw, ch, del) ==> forall|n: Seq<char>|
                (#[trigger] str_views(r.0.modified@).contains(n) <==> spec_modified(
                    base,
                    cur,
                    ch,
                    del,
                    n,
                )) && (#[trigger] str_views(r.0.affected@).contains(n) <==> spec_affected(
                    g,
                    base,
                    cur,
                    ch,
                    del,
                    n,
                )) && (#[trigger] str_views(r.0.required@).contains(n) <==> spec_required(
                    g,
                    base,
                    cur,
                    ch,
                    del,
                    n,
                )))
            &&& forall|n: Seq<char>|
                #[trigger] str_views(r.0.modified@).contains(n) ==> str_views(
                    r.0.affected@,
                ).contains(n)
            &&& forall|n: Seq<char>|
                #[trigger] str_views(r.0.affected@).contains(n) ==> str_views(
                    r.0.required@,
                ).contains(n)
        }),
{
    let ghost base = baseline_tree.files@;
    let ghost cur = current_tree.files@;
    let ghost ch = str_views(git_diff.changed@);
    let ghost del = str_views(git_diff.deleted@);
    let ghost tw = str_views(config.trip_wire_patterns@);
    let g = &current_tree.crates;

    // trip wire: collect every changed or deleted path a pattern matches
    let mut tripped: Vec<String> = Vec::new();
    let mut i: usize = 0;
    while i < git_diff.deleted.len()
        invariant
            del == str_views(git_diff.deleted@),
            tw == str_views(config.trip_wire_patterns@),
            0 <= i <= del.len(),
            str_views(tripped@).len() > 0 <==> exists|k: int|
                0 <= k < i && any_glob_match(tw, #[trigger] del[k]),
        decreases del.len() - i,
    {
        if matches_any_pattern(&config.trip_wire_patterns, git_diff.deleted[i].as_str()) {
            let ghost t0 = tripped@;
            tripped.push(git_diff.deleted[i].clone());
            proof {
                assert(del[i as int] == git_diff.deleted@[i as int]@);
                assert(any_glob_match(tw, del[i as int]));
                assert(str_views(tripped@).len() == t0.len() + 1);
            }
        } else {
            assert(del[i as int] == git_diff.deleted@[i as int]@);
        }
        i += 1;
    }
    let mut i: usize = 0;
    while i < git_diff.changed.len()
        invariant
            ch == str_views(git_diff.changed@),
            del == str_views(git_diff.deleted@),
            tw == str_views(config.trip_wire_patterns@),
            0 <= i <= ch.len(),
            str_views(tripped@).len() > 0 <==> (exists|k: int|
                0 <= k < del.len() && any_glob_match(tw, #[trigger] del[k])) || (exists|k: int|
                0 <= k < i && any_glob_match(tw, #[trigger] ch[k])),
        decreases ch.len() - i,
    {
        if matches_any_pattern(&config.trip_wire_patterns, git_diff.changed[i].as_str()) {
            let ghost t0 = tripped@;
            tripped.push(git_diff.changed[i].clone());
            proof {
                assert(ch[i as int] == git_diff.changed@[i as int]@);
                assert(any_glob_match(tw, ch[i as int]));
                assert(str_views(tripped@).len() == t0.len() + 1);
            }
        } else {
            assert(ch[i as int] == git_diff.changed@[i as int]@);
        }
        i += 1;
    }
    if tripped.len() > 0 {
        let all_names = g.get_all_crate_names();
        proof {
            assert(str_views(tripped@).len() > 0);
            assert(trip_fired(tw, ch, del));
            assert forall|a: int, b: int|
                0 <= a < b < all_names@.len() implies (#[trigger] all_names@[a])@ != (
            #[trigger] all_names@[b])@ by {
                assert(str_views(all_names@)[a] == all_names@[a]@);
                assert(str_views(all_names@)[b] == all_names@[b]@);
                g.lemma_keys_distinct(a, b);
            }
            assert forall|n: Seq<char>|
                #[trigger] str_views(all_names@).contains(n) <==> g.contains_name(n) by {}
        }
        let affected = clone_strings(&all_names);
        let required = clone_strings(&all_names);
        let impact = Impact { modified: all_names, affected, required };
        return (impact, tripped);
    }
    assert(!trip_fired(tw, ch, del));

    // Modified: owners of deleted paths in the baseline tree
    let mut modified: Vec<String> = Vec::new();
    let mut i: usize = 0;
    while i < git_diff.deleted.len()
        invariant
            base == baseline_tree.files@,
            del == str_views(git_diff.deleted@),
            0 <= i <= del.len(),
            distinct_views(modified@),
            forall|n: Seq<char>|
                #[trigger] str_views(modified@).contains(n) <==> exists|k: int|
                    0 <= k < i && crates_containing(base, #[trigger] del[k], None).contains(n),
        decreases del.len() - i,
    {
        assert(del[i as int] == git_diff.deleted@[i as int]@);
        let owners = baseline_tree.files.find_crates_containing_file(
            git_diff.deleted[i].as_str(),
        );
        merge_names(&mut modified, &owners);
        proof {
            assert forall|n: Seq<char>| #[trigger]
                str_views(modified@).contains(n) implies exists|k: int|
                0 <= k < i + 1 && crates_containing(base, #[trigger] del[k], None).contains(n) by {
                if str_views(owners@).contains(n) {
                    assert(crates_containing(base, del[i as int], None).contains(n));
                }
            }
        }
        i += 1;
    }
    // Modified: owners of changed paths in the current tree
    let mut i: usize = 0;
    while i < git_diff.changed.len()
        invariant
            base == baseline_tree.files@,
            cur == current_tree.files@,
            ch == str_views(git_diff.changed@),
            del == str_views(git_diff.deleted@),
            0 <= i <= ch.len(),
            distinct_views(modified@),
            forall|n: Seq<char>|
                #[trigger] str_views(modified@).contains(n) <==> (exists|k: int|
                    0 <= k < del.len() && crates_containing(base, #[trigger] del[k], None).contains(
                        n,
                    )) || (exists|k: int|
                    0 <= k < i && crates_containing(cur, #[trigger] ch[k], None).contains(n)),
        decreases ch.len() - i,
    {
        assert(ch[i as int] == git_diff.changed@[i as int]@);
        let owners = current_tree.files.find_crates_containing_file(git_diff.changed[i].as_str());
        merge_names(&mut modified, &owners);
        proof {
            assert forall|n: Seq<char>| #[trigger]
                str_views(modified@).contains(n) implies (exists|k: int|
                0 <= k < del.len() && crates_containing(base, #[trigger] del[k], None).contains(n))
                || (exists|k: int|
                0 <= k < i + 1 && crates_containing(cur, #[trigger] ch[k], None).contains(n)) by {
                if str_views(owners@).contains(n) {
                    assert(crates_containing(cur, ch[i as int], None).contains(n));
                }
            }
        }
        i += 1;
    }
    // Modified: owners of paths new to the current tree
    let base_distinct = baseline_tree.files.distinct();
    let cur_distinct = current_tree.files.distinct();
    let mut i: usize = 0;
    while i < cur_distinct.len()
        invariant
            base == baseline_tree.files@,
            cur == current_tree.files@,
            ch == str_views(git_diff.changed@),
            del == str_views(git_diff.deleted@),
            0 <= i <= cur_distinct@.len(),
            forall|p: Seq<char>|
                #[trigger] str_views(base_distinct@).contains(p) <==> tree_paths(base).contains(p),
            forall|p: Seq<char>|
                #[trigger] str_views(cur_distinct@).contains(p) <==> tree_paths(cur).contains(p),
            distinct_views(modified@),
            forall|n: Seq<char>|
                #[trigger] str_views(modified@).contains(n) <==> (exists|k: int|
                    0 <= k < del.len() && crates_containing(base, #[trigger] del[k], None).contains(
                        n,
                    )) || (exists|k: int|
                    0 <= k < ch.len() && crates_containing(cur, #[trigger] ch[k], None).contains(n))
                    || (exists|k: int|
                    0 <= k < i && tree_paths(cur).contains(#[trigger] str_views(cur_distinct@)[k])
                        && !tree_paths(base).contains(str_views(cur_distinct@)[k])
                        && crates_containing(cur, str_views(cur_distinct@)[k], None).contains(n)),
        decreases cur_distinct@.len() - i,
    {
        let ghost pk = str_views(cur_distinct@)[i as int];
        assert(pk == cur_distinct@[i as int]@);
        if !contains_string(&base_distinct, cur_distinct[i].as_str()) {
            proof {
                assert(str_views(cur_distinct@).contains(pk));
                assert(tree_paths(cur).contains(pk));
                assert(!tree_paths(base).contains(pk));
            }
            let owners = current_tree.files.find_crates_containing_file(cur_distinct[i].as_str());
            merge_names(&mut modified, &owners);
            proof {
                assert forall|n: Seq<char>| #[trigger]
                    str_views(modified@).contains(n) implies (exists|k: int|
                    0 <= k < del.len() && crates_containing(base, #[trigger] del[k], None).contains(
                        n,
                    )) || (exists|k: int|
                    0 <= k < ch.len() && crates_containing(cur, #[trigger] ch[k], None).contains(n))
                    || (exists|k: int|
                    0 <= k < i + 1 && tree_paths(cur).contains(
                        #[trigger] str_views(cur_distinct@)[k],
                    ) && !tree_paths(base).contains(str_views(cur_distinct@)[k])
                        && crates_containing(cur, str_views(cur_distinct@)[k], None).contains(
                        n,
                    )) by {
                    if str_views(owners@).contains(n) {
                        assert(tree_paths(cur).contains(str_views(cur_distinct@)[i as int])
                            && !tree_paths(base).contains(str_views(cur_distinct@)[i as int])
                            && crates_containing(
                            cur,
                            str_views(cur_distinct@)[i as int],
                            None,
                        ).contains(n));
                    }
                }
            }
        }
        i += 1;
    }
    proof {
        assert forall|n: Seq<char>| #[trigger]
            str_views(modified@).contains(n) <==> spec_modified(base, cur, ch, del, n) by {
            if str_views(modified@).contains(n) {
                if exists|k: int|
                    0 <= k < cur_distinct@.len() && tree_paths(cur).contains(
                        #[trigger] str_views(cur_distinct@)[k],
                    ) && !tree_paths(base).contains(str_views(cur_distinct@)[k])
                        && crates_containing(cur, str_views(cur_distinct@)[k], None).contains(n) {
                    let k = choose|k: int|
                        0 <= k < cur_distinct@.len() && tree_paths(cur).contains(
                            #[trigger] str_views(cur_distinct@)[k],
                        ) && !tree_paths(base).contains(str_views(cur_distinct@)[k])
                            && crates_containing(cur, str_views(cur_distinct@)[k], None).contains(
                            n,
                        );
                    let p = str_views(cur_distinct@)[k];
                    assert(tree_paths(cur).contains(p) && !tree_paths(base).contains(p)
                        && crates_containing(cur, p, None).contains(n));
                }
            }
            if spec_modified(base, cur, ch, del, n) && !str_views(modified@).contains(n) {
                if exists|p: Seq<char>|
                    tree_paths(cur).contains(p) && !tree_paths(base).contains(p)
                        && #[trigger] crates_containing(cur, p, None).contains(n) {
                    let p = choose|p: Seq<char>|
                        tree_paths(cur).contains(p) && !tree_paths(base).contains(p)
                            && #[trigger] crates_containing(cur, p, None).contains(n);
                    assert(str_views(cur_distinct@).contains(p));
                    let k = choose|k: int|
                        0 <= k < str_views(cur_distinct@).len() && str_views(cur_distinct@)[k]
                            == p;
                    assert(tree_paths(cur).contains(#[trigger] str_views(cur_distinct@)[k])
                        && !tree_paths(base).contains(str_views(cur_distinct@)[k])
                        && crates_containing(cur, str_views(cur_distinct@)[k], None).contains(n));
                    assert(false);
                }
            }
        }
    }

    // Affected: Modified plus all transitive dependents via the current graph
    let mut affected = clone_strings(&modified);
    let ghost modv = str_views(modified@);
    let mut i: usize = 0;
    proof {
        assert(str_views(affected@) =~= modv);
    }
    while i < modified.len()
        invariant
            current_tree.crates.wf(),
            g == &current_tree.crates,
            modv == str_views(modified@),
            forall|n: Seq<char>|
                #[trigger] modv.contains(n) <==> spec_modified(base, cur, ch, del, n),
            distinct_views(modified@),
            0 <= i <= modified@.len(),
            distinct_views(affected@),
            forall|n: Seq<char>|
                #[trigger] str_views(affected@).contains(n) <==> (modv.contains(n) || exists|
                    k: int,
                |
                    0 <= k < i && g.contains_name((#[trigger] modified@[k])@) && g.reachable(
                        modified@[k]@,
                        n,
                        true,
                    )),
        decreases modified@.len() - i,
    {
        let ghost mk = modified@[i as int]@;
        match g.get_dependents_transitive(modified[i].as_str()) {
            Some(ds) => {
                merge_names(&mut affected, &ds);
                proof {
                    assert forall|n: Seq<char>| #[trigger]
                        str_views(affected@).contains(n) implies (modv.contains(n) || exists|
                        k: int,
                    |
                        0 <= k < i + 1 && g.contains_name((#[trigger] modified@[k])@)
                            && g.reachable(modified@[k]@, n, true)) by {
                        if str_views(ds@).contains(n) {
                            assert(g.contains_name(modified@[i as int]@) && g.reachable(
                                modified@[i as int]@,
                                n,
                                true,
                            ));
                        }
                    }
                }
            },
            None => {
                proof {
                    assert forall|n: Seq<char>| #[trigger]
                        str_views(affected@).contains(n) implies (modv.contains(n) || exists|
                        k: int,
                    |
                        0 <= k < i + 1 && g.contains_name((#[trigger] modified@[k])@)
                            && g.reachable(modified@[k]@, n, true)) by {}
                }
            },
        }
        i += 1;
    }
    proof {
        assert forall|n: Seq<char>| #[trigger]
            str_views(affected@).contains(n) <==> spec_affected(*g, base, cur, ch, del, n) by {
            if str_views(affected@).contains(n) && !modv.contains(n) {
                let k = choose|k: int|
                    0 <= k < modified@.len() && g.contains_name((#[trigger] modified@[k])@)
                        && g.reachable(modified@[k]@, n, true);
                assert(str_views(modified@)[k] == modified@[k]@);
                assert(modv.contains(modified@[k]@));
                assert(spec_modified(base, cur, ch, del, modified@[k]@) && g.contains_name(
                    modified@[k]@,
                ) && g.reachable(modified@[k]@, n, true));
            }
            if spec_affected(*g, base, cur, ch, del, n) && !spec_modified(base, cur, ch, del, n) {
                let m = choose|m: Seq<char>|
                    #[trigger] spec_modified(base, cur, ch, del, m) && g.contains_name(m)
                        && g.reachable(m, n, true);
                assert(modv.contains(m));
                let k = choose|k: int| 0 <= k < modv.len() && modv[k] == m;
                assert(modified@[k]@ == m);
                assert(g.contains_name((modified@[k])@) && g.reachable(modified@[k]@, n, true));
            }
        }
    }

    // Required: Affected plus all transitive dependencies via the current graph
    let mut required = clone_strings(&affected);
    let ghost affv = str_views(affected@);
    let mut i: usize = 0;
    proof {
        assert(str_views(required@) =~= affv);
    }
    while i < affected.len()
        invariant
            current_tree.crates.wf(),
            g == &current_tree.crates,
            affv == str_views(affected@),
            forall|n: Seq<char>|
                #[trigger] affv.contains(n) <==> spec_affected(*g, base, cur, ch, del, n),
            distinct_views(affected@),
            0 <= i <= affected@.len(),
            distinct_views(required@),
            forall|n: Seq<char>|
                #[trigger] str_views(required@).contains(n) <==> (affv.contains(n) || exists|
                    k: int,
                |
                    0 <= k < i && g.contains_name((#[trigger] affected@[k])@) && g.reachable(
                        affected@[k]@,
                        n,
                        false,
                    )),
        decreases affected@.len() - i,
    {
        match g.get_dependencies_transitive(affected[i].as_str()) {
            Some(ds) => {
                merge_names(&mut required, &ds);
                proof {
                    assert forall|n: Seq<char>| #[trigger]
                        str_views(required@).contains(n) implies (affv.contains(n) || exists|
                        k: int,
                    |
                        0 <= k < i + 1 && g.contains_name((#[trigger] affected@[k])@)
                            && g.reachable(affected@[k]@, n, false)) by {
                        if str_views(ds@).contains(n) {
                            assert(g.contains_name(affected@[i as int]@) && g.reachable(
                                affected@[i as int]@,
                                n,
                                false,
                            ));
                        }
                    }
                }
            },
            None => {
                proof {
                    assert forall|n: Seq<char>| #[trigger]
                        str_views(required@).contains(n) implies (affv.contains(n) || exists|
                        k: int,
                    |
                        0 <= k < i + 1 && g.contains_name((#[trigger] affected@[k])@)
                            && g.reachable(affected@[k]@, n, false)) by {}
                }
            },
        }
        i += 1;
    }
    proof {
        assert forall|n: Seq<char>| #[trigger]
            str_views(required@).contains(n) <==> spec_required(*g, base, cur, ch, del, n) by {
            if str_views(required@).contains(n) && !affv.contains(n) {
                let k = choose|k: int|
                    0 <= k < affected@.len() && g.contains_name((#[trigger] affected@[k])@)
                        && g.reachable(affected@[k]@, n, false);
                assert(str_views(affected@)[k] == affected@[k]@);
                assert(affv.contains(affected@[k]@));
                assert(spec_affected(*g, base, cur, ch, del, affected@[k]@) && g.contains_name(
                    affected@[k]@,
                ) && g.reachable(affected@[k]@, n, false));
            }
            if spec_required(*g, base, cur, ch, del, n) && !spec_affected(*g, base, cur, ch, del, n) {
                let a = choose|a: Seq<char>|
                    #[trigger] spec_affected(*g, base, cur, ch, del, a) && g.contains_name(a)
                        && g.reachable(a, n, false);
                assert(affv.contains(a));
                let k = choose|k: int| 0 <= k < affv.len() && affv[k] == a;
                assert(affected@[k]@ == a);
                assert(g.contains_name((affected@[k])@) && g.reachable(affected@[k]@, n, false));
            }
        }
    }
    (Impact { modified, affected, required }, tripped)
}

} // verus!
