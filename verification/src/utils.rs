//! Path resolution against the file-system model, and the classification of
//! files the analysis does not account for.

use vstd::prelude::*;

verus! {

use crate::strutil::{str_views, parent_spec, path_join_spec, normalize_spec, parent_of,
    path_join, normalize_path, contains_string, file_name_spec, file_name_of};
use crate::fsmodel::FsSnapshot;
use crate::globs::{any_glob_match, matches_any_pattern};

/// Where a relative reference from `base` lands: the normalized join of
/// `base`'s directory and `rel`, accepted only when it exists; references
/// from a baseless path resolve to nothing.
pub open spec fn resolve_spec(base: Seq<char>, rel: Seq<char>, fs: FsSnapshot) -> Option<
    Seq<char>,
> {
    if base.len() == 0 || base == seq!['/'] {
        None
    } else {
        let cand = normalize_spec(path_join_spec(parent_spec(base), rel));
        if fs.path_exists(cand) {
            Some(cand)
        } else {
            None
        }
    }
}

/// Resolve `relative_path` against the directory of `base`; the result
/// must exist in the snapshot.
pub fn resolve(base: &str, relative_path: &str, fs: &FsSnapshot) -> (r: Option<String>)
    ensures
        match r {
            Some(p) => resolve_spec(base@, relative_path@, *fs) == Some(p@),
            None => resolve_spec(base@, relative_path@, *fs) is None,
        },
{
    proof {
        reveal_strlit("/");
        assert("/"@ =~= seq!['/']);
    }
    let blen = base.unicode_len();
    if blen == 0 {
        return None;
    }
    if blen == 1 && base.get_char(0) == '/' {
        assert(base@ =~= seq!['/']);
        return None;
    }
    assert(base@ != seq!['/']) by {
        if base@ == seq!['/'] {
            assert(base@.len() == 1);
        }
    }
    let dir = parent_of(base);
    let joined = path_join(dir.as_str(), relative_path);
    let cand = normalize_path(joined.as_str());
    if fs.exists_path(cand.as_str()) {
        Some(cand)
    } else {
        None
    }
}

/// Where a workspace-relative reference lands: the normalized join of the
/// workspace root and `rel`, accepted only when it exists.
pub open spec fn resolve_workspace_spec(ws: Seq<char>, rel: Seq<char>, fs: FsSnapshot) -> Option<
    Seq<char>,
> {
    let cand = normalize_spec(path_join_spec(ws, rel));
    if fs.path_exists(cand) {
        Some(cand)
    } else {
        None
    }
}

/// Resolve `relative_path` against the workspace root itself.
pub fn resolve_workspace_relative(workspace: &str, relative_path: &str, fs: &FsSnapshot) -> (r:
    Option<String>)
    ensures
        match r {
            Some(p) => resolve_workspace_spec(workspace@, relative_path@, *fs) == Some(p@),
            None => resolve_workspace_spec(workspace@, relative_path@, *fs) is None,
        },
{
    let joined = path_join(workspace, relative_path);
    let cand = normalize_path(joined.as_str());
    if fs.exists_path(cand.as_str()) {
        Some(cand)
    } else {
        None
    }
}

/// The inclusion targets that resolve from `base`, in order.
pub open spec fn resolved_includes_spec(
    base: Seq<char>,
    incs: Seq<Seq<char>>,
    fs: FsSnapshot,
) -> Seq<Seq<char>>
    decreases incs.len(),
{
    if incs.len() == 0 {
        Seq::<Seq<char>>::empty()
    } else {
        let rest = resolved_includes_spec(base, incs.drop_first(), fs);
        match resolve_spec(base, incs[0], fs) {
            Some(p) => seq![p] + rest,
            None => rest,
        }
    }
}

/// The inclusion targets that do not resolve from `base`, in order.
pub open spec fn unresolved_includes_spec(
    base: Seq<char>,
    incs: Seq<Seq<char>>,
    fs: FsSnapshot,
) -> Seq<Seq<char>>
    decreases incs.len(),
{
    if incs.len() == 0 {
        Seq::<Seq<char>>::empty()
    } else {
        let rest = unresolved_includes_spec(base, incs.drop_first(), fs);
        match resolve_spec(base, incs[0], fs) {
            Some(p) => rest,
            None => seq![incs[0]] + rest,
        }
    }
}

pub proof fn lemma_includes_push(base: Seq<char>, incs: Seq<Seq<char>>, x: Seq<char>, fs: FsSnapshot)
    ensures
        resolved_includes_spec(base, incs.push(x), fs) == match resolve_spec(base, x, fs) {
            Some(p) => resolved_includes_spec(base, incs, fs).push(p),
            None => resolved_includes_spec(base, incs, fs),
        },
        unresolved_includes_spec(base, incs.push(x), fs) == match resolve_spec(base, x, fs) {
            Some(p) => unresolved_includes_spec(base, incs, fs),
            None => unresolved_includes_spec(base, incs, fs).push(x),
        },
    decreases incs.len(),
{
    if incs.len() == 0 {
        assert(incs.push(x)[0] == x);
        assert(incs.push(x).drop_first() =~= Seq::<Seq<char>>::empty());
        assert(resolved_includes_spec(base, Seq::<Seq<char>>::empty(), fs)
            =~= Seq::<Seq<char>>::empty());
        assert(unresolved_includes_spec(base, Seq::<Seq<char>>::empty(), fs)
            =~= Seq::<Seq<char>>::empty());
        match resolve_spec(base, x, fs) {
            Some(p) => {
                assert(resolved_includes_spec(base, incs.push(x), fs) =~= resolved_includes_spec(
                    base,
                    incs,
                    fs,
                ).push(p));
                assert(unresolved_includes_spec(base, incs.push(x), fs)
                    =~= unresolved_includes_spec(base, incs, fs));
            },
            None => {
                assert(unresolved_includes_spec(base, incs.push(x), fs)
                    =~= unresolved_includes_spec(base, incs, fs).push(x));
            },
        }
    } else {
        assert(incs.push(x)[0] == incs[0]);
        assert(incs.push(x).drop_first() =~= incs.drop_first().push(x));
        lemma_includes_push(base, incs.drop_first(), x, fs);
        match resolve_spec(base, x, fs) {
            Some(p) => {
                assert(resolved_includes_spec(base, incs.push(x), fs) =~= resolved_includes_spec(
                    base,
                    incs,
                    fs,
                ).push(p));
                assert(unresolved_includes_spec(base, incs.push(x), fs)
                    =~= unresolved_includes_spec(base, incs, fs));
            },
            None => {
                assert(resolved_includes_spec(base, incs.push(x), fs) =~= resolved_includes_spec(
                    base,
                    incs,
                    fs,
                ));
                assert(unresolved_includes_spec(base, incs.push(x), fs)
                    =~= unresolved_includes_spec(base, incs, fs).push(x));
            },
        }
    }
}

/// Resolve each inclusion target against the directory of `base`. The
/// first result lists the targets that resolved; the second lists, as a
/// diagnostic, the targets that did not.
pub fn resolve_includes(base: &str, includes: &Vec<String>, fs: &FsSnapshot) -> (r: (
    Vec<String>,
    Vec<String>,
))
    ensures
        str_views(r.0@) == resolved_includes_spec(base@, str_views(includes@), *fs),
        str_views(r.1@) == unresolved_includes_spec(base@, str_views(includes@), *fs),
{
    let ghost iv = str_views(includes@);
    let mut resolved: Vec<String> = Vec::new();
    let mut unresolved: Vec<String> = Vec::new();
    let mut i: usize = 0;
    proof {
        assert(iv.take(0) =~= Seq::<Seq<char>>::empty());
        assert(str_views(resolved@) =~= resolved_includes_spec(base@, iv.take(0), *fs));
        assert(str_views(unresolved@) =~= unresolved_includes_spec(base@, iv.take(0), *fs));
    }
    while i < includes.len()
        invariant
            iv == str_views(includes@),
            0 <= i <= iv.len(),
            str_views(resolved@) == resolved_includes_spec(base@, iv.take(i as int), *fs),
            str_views(unresolved@) == unresolved_includes_spec(base@, iv.take(i as int), *fs),
        decreases iv.len() - i,
    {
        proof {
            assert(iv.take(i + 1) =~= iv.take(i as int).push(iv[i as int]));
            lemma_includes_push(base@, iv.take(i as int), iv[i as int], *fs);
            assert(iv[i as int] == includes@[i as int]@);
        }
        let ghost rv = str_views(resolved@);
        let ghost uv = str_views(unresolved@);
        match resolve(base, includes[i].as_str(), fs) {
            Some(p) => {
                let ghost pv = p@;
                resolved.push(p);
                proof {
                    assert(str_views(resolved@) =~= rv.push(pv));
                }
            },
            None => {
                unresolved.push(includes[i].clone());
                proof {
                    assert(str_views(unresolved@) =~= uv.push(iv[i as int]));
                }
            },
        }
        i += 1;
    }
    proof {
        assert(iv.take(iv.len() as int) =~= iv);
    }
    (resolved, unresolved)
}

/// The classification of the files the analysis does not account for.
#[derive(Debug)]
pub struct UnrelatedFiles {
    /// Matched by no rule at all: a caution signal.
    pub unaccounted: Vec<String>,
    /// Matched by a trip-wire pattern; a change there rebuilds everything.
    pub trip_wire: Vec<String>,
    /// Filtered out by an exclusion pattern on the file name.
    pub filtered: Vec<String>,
}

/// A candidate whose file name an exclusion pattern matches.
pub open spec fn class_filtered(p: Seq<char>, ex_pats: Seq<Seq<char>>) -> bool {
    any_glob_match(ex_pats, file_name_spec(p))
}

/// A candidate that the file tree already accounts for.
pub open spec fn class_known(p: Seq<char>, known: Seq<Seq<char>>) -> bool {
    known.contains(p)
}

/// Classify every walked file that the current file tree does not hold.
/// `candidates` are workspace-relative paths of walked files, `known` the
/// distinct paths of the current tree. A known file is never reported; of
/// the rest, a file whose name matches an exclusion pattern is filtered,
/// one matching a trip-wire pattern is reported separately, and the others
/// are unaccounted.
pub fn classify_unrelated(
    candidates: &Vec<String>,
    known: &Vec<String>,
    exclude_patterns: &Vec<String>,
    trip_wire_patterns: &Vec<String>,
) -> (r: UnrelatedFiles)
    ensures
        ({
            let cv = str_views(candidates@);
            let kv = str_views(known@);
            let ev = str_views(exclude_patterns@);
            let tv = str_views(trip_wire_patterns@);
            &&& str_views(r.filtered@) == cv.filter(
                |p: Seq<char>| !class_known(p, kv) && class_filtered(p, ev),
            )
            &&& str_views(r.trip_wire@) == cv.filter(
                |p: Seq<char>| !class_filtered(p, ev) && !class_known(p, kv) && any_glob_match(
                    tv,
                    p,
                ),
            )
            &&& str_views(r.unaccounted@) == cv.filter(
                |p: Seq<char>| !class_filtered(p, ev) && !class_known(p, kv) && !any_glob_match(
                    tv,
                    p,
                ),
            )
        }),
{
    let ghost cv = str_views(candidates@);
    let ghost kv = str_views(known@);
    let ghost ev = str_views(exclude_patterns@);
    let ghost tv = str_views(trip_wire_patterns@);
    let ghost pred_f = |p: Seq<char>| !class_known(p, kv) && class_filtered(p, ev);
    let ghost pred_t = |p: Seq<char>|
        !class_filtered(p, ev) && !class_known(p, kv) && any_glob_match(tv, p);
    let ghost pred_u = |p: Seq<char>|
        !class_filtered(p, ev) && !class_known(p, kv) && !any_glob_match(tv, p);
    let mut filtered: Vec<String> = Vec::new();
    let mut trip_wire: Vec<String> = Vec::new();
    let mut unaccounted: Vec<String> = Vec::new();
    let mut i: usize = 0;
    proof {
        reveal(Seq::filter);
        assert(cv.take(0) =~= Seq::<Seq<char>>::empty());
        assert(str_views(filtered@) =~= cv.take(0).filter(pred_f));
        assert(str_views(trip_wire@) =~= cv.take(0).filter(pred_t));
        assert(str_views(unaccounted@) =~= cv.take(0).filter(pred_u));
    }
    while i < candidates.len()
        invariant
            cv == str_views(candidates@),
            kv == str_views(known@),
            ev == str_views(exclude_patterns@),
            tv == str_views(trip_wire_patterns@),
            pred_f == (|p: Seq<char>| !class_known(p, kv) && class_filtered(p, ev)),
            pred_t == (|p: Seq<char>|
                !class_filtered(p, ev) && !class_known(p, kv) && any_glob_match(tv, p)),
            pred_u == (|p: Seq<char>|
                !class_filtered(p, ev) && !class_known(p, kv) && !any_glob_match(tv, p)),
            0 <= i <= cv.len(),
            str_views(filtered@) == cv.take(i as int).filter(pred_f),
            str_views(trip_wire@) == cv.take(i as int).filter(pred_t),
            str_views(unaccounted@) == cv.take(i as int).filter(pred_u),
        decreases cv.len() - i,
    {
        proof {
            reveal(Seq::filter);
            assert(cv.take(i + 1).drop_last() =~= cv.take(i as int));
            assert(cv.take(i + 1).last() == cv[i as int]);
            assert(cv[i as int] == candidates@[i as int]@);
        }
        let p = &candidates[i];
        let name = file_name_of(p.as_str());
        let ghost fv0 = str_views(filtered@);
        let ghost tv0 = str_views(trip_wire@);
        let ghost uv0 = str_views(unaccounted@);
        if contains_string(known, p.as_str()) {
            // already a compilation input: no report
        } else if matches_any_pattern(exclude_patterns, name.as_str()) {
            filtered.push(p.clone());
            proof {
                assert(str_views(filtered@) =~= fv0.push(cv[i as int]));
            }
        } else if matches_any_pattern(trip_wire_patterns, p.as_str()) {
            trip_wire.push(p.clone());
            proof {
                assert(str_views(trip_wire@) =~= tv0.push(cv[i as int]));
            }
        } else {
            unaccounted.push(p.clone());
            proof {
                assert(str_views(unaccounted@) =~= uv0.push(cv[i as int]));
            }
        }
        i += 1;
    }
    proof {
        assert(cv.take(cv.len() as int) =~= cv);
    }
    UnrelatedFiles { unaccounted, trip_wire, filtered }
}

} // verus!
