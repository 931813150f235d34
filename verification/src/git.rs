//! Version-control diff data: the lists of changed and deleted paths.

use vstd::prelude::*;

verus! {

use vstd::string::StrSliceExecFns;
use crate::strutil::{str_views, path_has_prefix, strip_prefix_spec, has_path_prefix,
    strip_path_prefix};

/// A version-control diff: paths that exist on disk and changed, and paths
/// that no longer exist. All are workspace-relative.
#[derive(Debug)]
pub struct GitDiff {
    pub changed: Vec<String>,
    pub deleted: Vec<String>,
}

/// The remote branch a diff is taken against: one configured by the user,
/// or a detected main branch.
#[derive(Debug)]
pub enum GitBranch {
    /// A branch named in the configuration.
    Feature(String),
    /// A detected or default main branch.
    Main(String),
}

impl GitBranch {
    /// The branch name, whichever way it was chosen.
    pub open spec fn name_view(self) -> Seq<char> {
        match self {
            GitBranch::Feature(b) => b@,
            GitBranch::Main(b) => b@,
        }
    }

    /// The branch name as a string slice.
    pub fn as_str(&self) -> (r: &str)
        ensures
            r@ == self.name_view(),
    {
        match self {
            GitBranch::Feature(b) => b.as_str(),
            GitBranch::Main(b) => b.as_str(),
        }
    }
}

/// The diff entries selected by existence flag `want`, rebased against the
/// workspace root; paths outside the workspace are dropped.
pub open spec fn diff_part(
    paths: Seq<Seq<char>>,
    flags: Seq<bool>,
    want: bool,
    ws: Seq<char>,
) -> Seq<Seq<char>>
    decreases paths.len(),
{
    if paths.len() == 0 {
        Seq::<Seq<char>>::empty()
    } else {
        let rest = diff_part(paths.drop_first(), flags.drop_first(), want, ws);
        if flags[0] == want && path_has_prefix(paths[0], ws) {
            seq![strip_prefix_spec(paths[0], ws)] + rest
        } else {
            rest
        }
    }
}

pub proof fn lemma_diff_part_push(
    paths: Seq<Seq<char>>,
    flags: Seq<bool>,
    p: Seq<char>,
    f: bool,
    want: bool,
    ws: Seq<char>,
)
    requires
        paths.len() == flags.len(),
    ensures
        diff_part(paths.push(p), flags.push(f), want, ws) == if f == want && path_has_prefix(
            p,
            ws,
        ) {
            diff_part(paths, flags, want, ws).push(strip_prefix_spec(p, ws))
        } else {
            diff_part(paths, flags, want, ws)
        },
    decreases paths.len(),
{
    if paths.len() == 0 {
        assert(paths.push(p)[0] == p);
        assert(flags.push(f)[0] == f);
        assert(paths.push(p).drop_first() =~= Seq::<Seq<char>>::empty());
        assert(flags.push(f).drop_first() =~= Seq::<bool>::empty());
        assert(diff_part(Seq::<Seq<char>>::empty(), Seq::<bool>::empty(), want, ws)
            =~= Seq::<Seq<char>>::empty());
        assert(diff_part(paths, flags, want, ws) =~= Seq::<Seq<char>>::empty());
        if f == want && path_has_prefix(p, ws) {
            assert(diff_part(paths.push(p), flags.push(f), want, ws) =~= diff_part(
                paths,
                flags,
                want,
                ws,
            ).push(strip_prefix_spec(p, ws)));
        }
    } else {
        assert(paths.push(p)[0] == paths[0]);
        assert(flags.push(f)[0] == flags[0]);
        assert(paths.push(p).drop_first() =~= paths.drop_first().push(p));
        assert(flags.push(f).drop_first() =~= flags.drop_first().push(f));
        lemma_diff_part_push(paths.drop_first(), flags.drop_first(), p, f, want, ws);
        if flags[0] == want && path_has_prefix(paths[0], ws) {
            if f == want && path_has_prefix(p, ws) {
                assert(diff_part(paths.push(p), flags.push(f), want, ws) =~= diff_part(
                    paths,
                    flags,
                    want,
                    ws,
                ).push(strip_prefix_spec(p, ws)));
            }
        }
    }
}

/// Partition normalized candidate paths into the changed and deleted lists
/// of a diff: entry `i` is changed when `exists_flags[i]` holds and deleted
/// otherwise, and either way it is rebased against `workspace`; a path not
/// under `workspace` is dropped.
pub fn split_diff(all_paths: &Vec<String>, exists_flags: &Vec<bool>, workspace: &str) -> (r:
    GitDiff)
    requires
        all_paths@.len() == exists_flags@.len(),
    ensures
        str_views(r.changed@) == diff_part(
            str_views(all_paths@),
            exists_flags@,
            true,
            workspace@,
        ),
        str_views(r.deleted@) == diff_part(
            str_views(all_paths@),
            exists_flags@,
            false,
            workspace@,
        ),
{
    let ghost pv = str_views(all_paths@);
    let ghost fv = exists_flags@;
    let mut changed: Vec<String> = Vec::new();
    let mut deleted: Vec<String> = Vec::new();
    let mut i: usize = 0;
    proof {
        assert(pv.take(0) =~= Seq::<Seq<char>>::empty());
        assert(fv.take(0) =~= Seq::<bool>::empty());
        assert(str_views(changed@) =~= Seq::<Seq<char>>::empty());
        assert(str_views(deleted@) =~= Seq::<Seq<char>>::empty());
    }
    while i < all_paths.len()
        invariant
            pv == str_views(all_paths@),
            fv == exists_flags@,
            pv.len() == fv.len(),
            0 <= i <= pv.len(),
            str_views(changed@) == diff_part(pv.take(i as int), fv.take(i as int), true, workspace@),
            str_views(deleted@) == diff_part(
                pv.take(i as int),
                fv.take(i as int),
                false,
                workspace@,
            ),
        decreases pv.len() - i,
    {
        let ghost chv = str_views(changed@);
        let ghost dev = str_views(deleted@);
        proof {
            assert(pv.take(i + 1) =~= pv.take(i as int).push(pv[i as int]));
            assert(fv.take(i + 1) =~= fv.take(i as int).push(fv[i as int]));
            lemma_diff_part_push(
                pv.take(i as int),
                fv.take(i as int),
                pv[i as int],
                fv[i as int],
                true,
                workspace@,
            );
            lemma_diff_part_push(
                pv.take(i as int),
                fv.take(i as int),
                pv[i as int],
                fv[i as int],
                false,
                workspace@,
            );
            assert(pv[i as int] == all_paths@[i as int]@);
        }
        let p = &all_paths[i];
        if has_path_prefix(p.as_str(), workspace) {
            let rebased = strip_path_prefix(p.as_str(), workspace);
            if exists_flags[i] {
                changed.push(rebased);
                proof {
                    assert(str_views(changed@) =~= chv.push(strip_prefix_spec(
                        pv[i as int],
                        workspace@,
                    )));
                }
            } else {
                deleted.push(rebased);
                proof {
                    assert(str_views(deleted@) =~= dev.push(strip_prefix_spec(
                        pv[i as int],
                        workspace@,
                    )));
                }
            }
        }
        i += 1;
    }
    proof {
        assert(pv.take(pv.len() as int) =~= pv);
        assert(fv.take(fv.len() as int) =~= fv);
    }
    GitDiff { changed, deleted }
}

} // verus!

verus! {

use crate::strutil::{trim_spec, trim_str, path_join_spec, normalize_spec, path_join,
    normalize_path};

/// The candidate paths of a diff: each non-blank output line, trimmed,
/// joined under the workspace root and normalized, in order.
pub open spec fn diff_candidates_spec(lines: Seq<Seq<char>>, ws: Seq<char>) -> Seq<Seq<char>>
    decreases lines.len(),
{
    if lines.len() == 0 {
        Seq::<Seq<char>>::empty()
    } else {
        let rest = diff_candidates_spec(lines.drop_first(), ws);
        let t = trim_spec(lines[0]);
        if t.len() == 0 {
            rest
        } else {
            seq![normalize_spec(path_join_spec(ws, t))] + rest
        }
    }
}

/// Turn the diff command's output lines into candidate paths: blank lines
/// are dropped, the rest are trimmed, rooted at the workspace and
/// normalized.
pub fn diff_candidate_paths(lines: &Vec<String>, workspace: &str) -> (r: Vec<String>)
    ensures
        str_views(r@) == diff_candidates_spec(str_views(lines@), workspace@),
{
    let ghost lv = str_views(lines@);
    let mut out: Vec<String> = Vec::new();
    let mut i: usize = 0;
    proof {
        assert(lv.skip(0) =~= lv);
        assert(str_views(out@) =~= Seq::<Seq<char>>::empty());
    }
    while i < lines.len()
        invariant
            lv == str_views(lines@),
            0 <= i <= lv.len(),
            str_views(out@) + diff_candidates_spec(lv.skip(i as int), workspace@)
                == diff_candidates_spec(lv, workspace@),
        decreases lv.len() - i,
    {
        proof {
            assert(lv.skip(i as int)[0] == lv[i as int]);
            assert(lv.skip(i as int).drop_first() =~= lv.skip(i + 1));
            assert(lv[i as int] == lines@[i as int]@);
        }
        let ghost outv = str_views(out@);
        let t = trim_str(lines[i].as_str());
        if t.as_str().unicode_len() > 0 {
            let joined = path_join(workspace, t.as_str());
            let cand = normalize_path(joined.as_str());
            let ghost cv = cand@;
            out.push(cand);
            proof {
                assert(str_views(out@) =~= outv.push(cv));
                assert(outv + (seq![cv] + diff_candidates_spec(lv.skip(i + 1), workspace@))
                    =~= outv.push(cv) + diff_candidates_spec(lv.skip(i + 1), workspace@));
            }
        }
        i += 1;
    }
    proof {
        assert(lv.skip(lv.len() as int) =~= Seq::<Seq<char>>::empty());
        assert(diff_candidates_spec(Seq::<Seq<char>>::empty(), workspace@)
            =~= Seq::<Seq<char>>::empty());
        assert(str_views(out@) + Seq::<Seq<char>>::empty() =~= str_views(out@));
    }
    out
}

/// The index of the first candidate main branch a remote listing found, if
/// any.
pub fn choose_main_branch(found: &Vec<bool>) -> (r: Option<usize>)
    ensures
        match r {
            Some(i) => i < found@.len() && found@[i as int] && forall|j: int|
                0 <= j < i ==> !found@[j],
            None => forall|j: int| 0 <= j < found@.len() ==> !found@[j],
        },
{
    let mut i: usize = 0;
    while i < found.len()
        invariant
            0 <= i <= found@.len(),
            forall|j: int| 0 <= j < i ==> !found@[j],
        decreases found@.len() - i,
    {
        if found[i] {
            return Some(i);
        }
        i += 1;
    }
    None
}

} // verus!
