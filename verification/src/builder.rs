//! The recursive builder of the per-package file dependency tree.
//!
//! Starting from each build target the builder parses the file's recorded
//! syntax shape, resolves its module declarations, path overrides,
//! inclusion directives and file references against the file-system model,
//! and recurses into resolved modules. One visited set shared across the
//! whole snapshot bounds the recursion on cyclic module graphs and keeps a
//! file shared by several targets from being expanded twice.

use vstd::prelude::*;

verus! {

use vstd::string::StrSliceExecFns;
use vstd::string::StringExecFns;
use crate::strutil::{
    str_views, parent_spec, file_name_spec, stem_of_name_spec, path_join_spec, parent_of,
    file_name_of, stem_of_name, path_join, contains_string, str_eq,
};
use crate::files::{FileNode, FileKind, FileTreeView};
use crate::fsmodel::{FsSnapshot, SourceModel, lookup_ast};
use crate::analyzer::{FactsView, collect_nodes, empty_facts, collect_facts};
use crate::config::{MainConfig, ParserConfig, ParserConfigView, crate_config_spec};

use crate::cargo::{CargoMetadata, CargoCrate};

/// The view of an optional workspace root.
pub open spec fn ws_view(o: Option<&String>) -> Option<Seq<char>> {
    match o {
        Some(w) => Some(w@),
        None => None,
    }
}

/// The files a single module name resolves to under `base`: the
/// directory-style module file, else the sibling file, else every source
/// file directly inside a directory of that name.
pub open spec fn resolve_one_mod(fs: FsSnapshot, base: Seq<char>, m: Seq<char>) -> Seq<Seq<char>> {
    let dir = path_join_spec(base, m);
    let mod_rs = path_join_spec(dir, "mod.rs"@);
    let direct = dir + ".rs"@;
    if fs.path_exists(mod_rs) {
        seq![mod_rs]
    } else if fs.path_exists(direct) {
        seq![direct]
    } else if fs.has_dir(dir) {
        str_views(fs.files@).filter(
            |f: Seq<char>| parent_spec(f) == dir && crate::strutil::ext_of_name_spec(
                file_name_spec(f),
            ) == Some("rs"@),
        )
    } else {
        Seq::<Seq<char>>::empty()
    }
}

/// The files a list of module names resolves to, in order.
pub open spec fn resolve_mods_spec(fs: FsSnapshot, base: Seq<char>, mods: Seq<Seq<char>>) -> Seq<
    Seq<char>,
>
    decreases mods.len(),
{
    if mods.len() == 0 {
        Seq::<Seq<char>>::empty()
    } else {
        resolve_one_mod(fs, base, mods[0]) + resolve_mods_spec(fs, base, mods.drop_first())
    }
}

/// The files the module name `m` resolves to under `base`.
fn resolve_one_mod_exec(fs: &FsSnapshot, base: &str, m: &str) -> (r: Vec<String>)
    ensures
        str_views(r@) == resolve_one_mod(*fs, base@, m@),
{
    proof {
        reveal_strlit("mod.rs");
        reveal_strlit(".rs");
        reveal_strlit("rs");
    }
    let dir = path_join(base, m);
    let mod_rs = path_join(dir.as_str(), "mod.rs");
    let mut direct = dir.clone();
    direct.append(".rs");
    if fs.exists_path(mod_rs.as_str()) {
        let mut r: Vec<String> = Vec::new();
        r.push(mod_rs);
        proof {
            assert(str_views(r@) =~= seq![path_join_spec(path_join_spec(base@, m@), "mod.rs"@)]);
        }
        return r;
    }
    if fs.exists_path(direct.as_str()) {
        let mut r: Vec<String> = Vec::new();
        r.push(direct);
        proof {
            assert(str_views(r@) =~= seq![path_join_spec(base@, m@) + ".rs"@]);
        }
        return r;
    }
    if fs.is_dir(dir.as_str()) {
        return fs.files_in_dir_with_ext(dir.as_str(), "rs");
    }
    let r: Vec<String> = Vec::new();
    assert(str_views(r@) =~= Seq::<Seq<char>>::empty());
    r
}

/// The files the module names `mods` resolve to under `base`, in order.
pub fn resolve_mod_files(fs: &FsSnapshot, base: &str, mods: &Vec<String>) -> (r: Vec<String>)
    ensures
        str_views(r@) == resolve_mods_spec(*fs, base@, str_views(mods@)),
{
    let ghost mv = str_views(mods@);
    let mut out: Vec<String> = Vec::new();
    let mut i: usize = 0;
    proof {
        assert(mv.skip(0) =~= mv);
        assert(str_views(out@) =~= Seq::<Seq<char>>::empty());
    }
    while i < mods.len()
        invariant
            mv == str_views(mods@),
            0 <= i <= mv.len(),
            str_views(out@) + resolve_mods_spec(*fs, base@, mv.skip(i as int)) == resolve_mods_spec(
                *fs,
                base@,
                mv,
            ),
        decreases mv.len() - i,
    {
        proof {
            assert(mv.skip(i as int)[0] == mv[i as int]);
            assert(mv.skip(i as int).drop_first() =~= mv.skip(i + 1));
            assert(mv[i as int] == mods@[i as int]@);
        }
        let mut sub = resolve_one_mod_exec(fs, base, mods[i].as_str());
        let ghost outv = str_views(out@);
        let ghost subv = str_views(sub@);
        let mut j: usize = 0;
        while j < sub.len()
            invariant
                subv == str_views(sub@),
                0 <= j <= subv.len(),
                str_views(out@) =~= outv + subv.take(j as int),
            decreases subv.len() - j,
        {
            let ghost before = str_views(out@);
            out.push(sub[j].clone());
            proof {
                assert(str_views(out@) =~= before.push(subv[j as int]));
                assert(outv + subv.take(j + 1) =~= (outv + subv.take(j as int)).push(
                    subv[j as int],
                ));
            }
            j += 1;
        }
        proof {
            assert(subv.take(subv.len() as int) =~= subv);
            assert(outv + subv + resolve_mods_spec(*fs, base@, mv.skip(i + 1)) =~= outv + (subv
                + resolve_mods_spec(*fs, base@, mv.skip(i + 1))));
        }
        i += 1;
    }
    proof {
        assert(mv.skip(mv.len() as int) =~= Seq::<Seq<char>>::empty());
        assert(resolve_mods_spec(*fs, base@, Seq::<Seq<char>>::empty())
            =~= Seq::<Seq<char>>::empty());
        assert(str_views(out@) + Seq::<Seq<char>>::empty() =~= str_views(out@));
    }
    out
}

/// `base` extended by each path component in turn.
pub open spec fn join_all(base: Seq<char>, comps: Seq<Seq<char>>) -> Seq<char>
    decreases comps.len(),
{
    if comps.len() == 0 {
        base
    } else {
        join_all(path_join_spec(base, comps[0]), comps.drop_first())
    }
}

/// `base` extended by each component of `comps` in turn.
fn join_all_exec(base: &str, comps: &Vec<String>) -> (r: String)
    ensures
        r@ == join_all(base@, str_views(comps@)),
{
    let ghost cv = str_views(comps@);
    let mut cur: String = base.to_owned();
    let mut i: usize = 0;
    proof {
        assert(cv.skip(0) =~= cv);
    }
    while i < comps.len()
        invariant
            cv == str_views(comps@),
            0 <= i <= cv.len(),
            join_all(base@, cv) == join_all(cur@, cv.skip(i as int)),
        decreases cv.len() - i,
    {
        proof {
            assert(cv.skip(i as int)[0] == cv[i as int]);
            assert(cv.skip(i as int).drop_first() =~= cv.skip(i + 1));
            assert(cv[i as int] == comps@[i as int]@);
        }
        cur = path_join(cur.as_str(), comps[i].as_str());
        i += 1;
    }
    proof {
        assert(cv.skip(cv.len() as int) =~= Seq::<Seq<char>>::empty());
    }
    cur
}

} // verus!

verus! {

/// A discovered child: its path, its tag, and whether the builder recurses
/// into it as a module.
pub open spec fn cands_view(v: Seq<(String, FileKind, bool)>) -> Seq<(Seq<char>, FileKind, bool)> {
    v.map_values(|e: (String, FileKind, bool)| (e.0@, e.1, e.2))
}

/// Tag each path with a kind and a recursion flag.
pub open spec fn tag_cands(ps: Seq<Seq<char>>, kind: FileKind, recurse: bool) -> Seq<
    (Seq<char>, FileKind, bool),
> {
    ps.map_values(|p: Seq<char>| (p, kind, recurse))
}

/// The module files of the nested module declarations, in order: each name
/// is resolved under its enclosing module path rooted at `actual`.
pub open spec fn nested_cands_spec(
    fs: FsSnapshot,
    actual: Seq<char>,
    nested: Seq<(Seq<Seq<char>>, Seq<char>)>,
) -> Seq<Seq<char>>
    decreases nested.len(),
{
    if nested.len() == 0 {
        Seq::<Seq<char>>::empty()
    } else {
        resolve_one_mod(fs, join_all(actual, nested[0].0), nested[0].1) + nested_cands_spec(
            fs,
            actual,
            nested.drop_first(),
        )
    }
}

/// The override targets that exist, in order, resolved against the
/// declaring file's directory.
pub open spec fn override_cands_spec(
    fs: FsSnapshot,
    path: Seq<char>,
    mod_paths: Seq<(Seq<char>, Seq<char>)>,
) -> Seq<Seq<char>>
    decreases mod_paths.len(),
{
    if mod_paths.len() == 0 {
        Seq::<Seq<char>>::empty()
    } else {
        let rest = override_cands_spec(fs, path, mod_paths.drop_first());
        match crate::utils::resolve_spec(path, mod_paths[0].1, fs) {
            Some(p) => seq![p] + rest,
            None => rest,
        }
    }
}

/// The inclusion or file-reference targets that resolve, in order:
/// against the declaring file's directory first, then against the
/// workspace root as a fallback.
pub open spec fn ref_cands_spec(
    fs: FsSnapshot,
    path: Seq<char>,
    ws: Option<Seq<char>>,
    refs: Seq<Seq<char>>,
) -> Seq<Seq<char>>
    decreases refs.len(),
{
    if refs.len() == 0 {
        Seq::<Seq<char>>::empty()
    } else {
        let rest = ref_cands_spec(fs, path, ws, refs.drop_first());
        match ref_resolve_spec(fs, path, ws, refs[0]) {
            Some(p) => seq![p] + rest,
            None => rest,
        }
    }
}

/// Where one referenced file lands: beside the declaring file, or under
/// the workspace root as a fallback.
pub open spec fn ref_resolve_spec(
    fs: FsSnapshot,
    path: Seq<char>,
    ws: Option<Seq<char>>,
    fr: Seq<char>,
) -> Option<Seq<char>> {
    match crate::utils::resolve_spec(path, fr, fs) {
        Some(p) => Some(p),
        None => match ws {
            Some(w) => crate::utils::resolve_workspace_spec(w, fr, fs),
            None => None,
        },
    }
}

/// The base directory for resolving a file's own modules: a sibling
/// directory named like the file's stem takes precedence over the file's
/// directory.
pub open spec fn actual_base_spec(fs: FsSnapshot, path: Seq<char>) -> Seq<char> {
    let base_dir = parent_spec(path);
    let maybe = path_join_spec(base_dir, stem_of_name_spec(file_name_spec(path)));
    if fs.has_dir(maybe) {
        maybe
    } else {
        base_dir
    }
}

/// Every child candidate of one analyzed file, in resolution order:
/// modules, nested modules, path overrides, inclusions, file references.
pub open spec fn candidates_spec(
    model: SourceModel,
    cfg: ParserConfigView,
    facts: FactsView,
    path: Seq<char>,
    ws: Option<Seq<char>>,
) -> Seq<(Seq<char>, FileKind, bool)> {
    let fs = model.fs;
    let actual = actual_base_spec(fs, path);
    let mods_part = if cfg.mods {
        tag_cands(resolve_mods_spec(fs, actual, facts.mods), FileKind::Module, true) + tag_cands(
            nested_cands_spec(fs, actual, facts.nested_mods),
            FileKind::Module,
            true,
        ) + tag_cands(override_cands_spec(fs, path, facts.mod_paths), FileKind::ModulePath, false)
    } else {
        Seq::<(Seq<char>, FileKind, bool)>::empty()
    };
    mods_part + tag_cands(
        ref_cands_spec(fs, path, ws, facts.includes),
        FileKind::MacroInclude,
        false,
    ) + tag_cands(ref_cands_spec(fs, path, ws, facts.file_refs), FileKind::FileReference, false)
}

} // verus!

verus! {

use vstd::seq_lib::seq_to_set_is_finite;
use vstd::set::axiom_set_difference_finite;
use vstd::set::axiom_set_remove_len;
use vstd::set_lib::lemma_len_subset;

/// A childless tree node of unset kind.
pub open spec fn leaf_spec(path: Seq<char>) -> FileTreeView {
    FileTreeView { path, kind: FileKind::Unset, children: Seq::<FileTreeView>::empty() }
}

/// The set of file paths the model knows.
pub open spec fn file_set(model: SourceModel) -> Set<Seq<char>> {
    str_views(model.fs.files@).to_set()
}

/// How many known files the visited set has not reached yet: the builder's
/// termination measure.
pub open spec fn unvisited_measure(model: SourceModel, v: Set<Seq<char>>) -> nat {
    file_set(model).difference(v).len()
}

/// The tree rooted at `path` and the visited set after expanding it: a
/// visited path yields a childless node at once; otherwise the path is
/// marked visited, its recorded syntax shape is folded into facts, and
/// each resolved candidate is attached in order, recursing into modules.
pub open spec fn bfn_spec(
    model: SourceModel,
    cfg: ParserConfigView,
    ws: Option<Seq<char>>,
    path: Seq<char>,
    v: Set<Seq<char>>,
) -> (FileTreeView, Set<Seq<char>>)
    decreases unvisited_measure(model, v), 0int, 0int,
{
    if v.contains(path) {
        (leaf_spec(path), v)
    } else {
        let v1 = v.insert(path);
        if model.fs.has_file(path) && lookup_ast(model.parsed@, path) is Some && path.len() > 0
            && path != seq!['/'] {
            let nodes = lookup_ast(model.parsed@, path)->Some_0;
            let facts = collect_nodes(cfg, nodes, Seq::<Seq<char>>::empty(), empty_facts());
            let cands = candidates_spec(model, cfg, facts, path, ws);
            proof {
                seq_to_set_is_finite(str_views(model.fs.files@));
                axiom_set_difference_finite(file_set(model), v);
                assert(file_set(model).difference(v1) =~= file_set(model).difference(v).remove(
                    path,
                ));
                axiom_set_remove_len(file_set(model).difference(v), path);
                assert(file_set(model).contains(path));
                assert(file_set(model).difference(v).contains(path));
            }
            fold_children_spec(model, cfg, ws, cands, leaf_spec(path), v1)
        } else {
            (leaf_spec(path), v1)
        }
    }
}

/// Attach each candidate in order: a module candidate is expanded
/// recursively under the running visited set, any other becomes a
/// childless node; every child carries its candidate's kind and enters by
/// deduplicating insertion.
pub open spec fn fold_children_spec(
    model: SourceModel,
    cfg: ParserConfigView,
    ws: Option<Seq<char>>,
    cands: Seq<(Seq<char>, FileKind, bool)>,
    node: FileTreeView,
    v: Set<Seq<char>>,
) -> (FileTreeView, Set<Seq<char>>)
    decreases unvisited_measure(model, v), 1int, cands.len(),
{
    if cands.len() == 0 {
        (node, v)
    } else {
        let (p, kind, recurse) = cands[0];
        let (cn, vc) = if recurse {
            bfn_spec(model, cfg, ws, p, v)
        } else {
            (leaf_spec(p), v)
        };
        let v2 = v.union(vc);
        let child = FileTreeView { path: cn.path, kind, children: cn.children };
        proof {
            seq_to_set_is_finite(str_views(model.fs.files@));
            axiom_set_difference_finite(file_set(model), v);
            axiom_set_difference_finite(file_set(model), v2);
            assert(file_set(model).difference(v2).subset_of(file_set(model).difference(v)));
            lemma_len_subset(file_set(model).difference(v2), file_set(model).difference(v));
        }
        fold_children_spec(
            model,
            cfg,
            ws,
            cands.drop_first(),
            crate::files::add_child_spec(node, child),
            v2,
        )
    }
}

/// Expansion only grows the visited set.
pub proof fn lemma_bfn_visited_grows(
    model: SourceModel,
    cfg: ParserConfigView,
    ws: Option<Seq<char>>,
    path: Seq<char>,
    v: Set<Seq<char>>,
)
    ensures
        v.subset_of(bfn_spec(model, cfg, ws, path, v).1),
    decreases unvisited_measure(model, v), 0int, 0int,
{
    if !v.contains(path) {
        let v1 = v.insert(path);
        if model.fs.has_file(path) && lookup_ast(model.parsed@, path) is Some && path.len() > 0
            && path != seq!['/'] {
            let nodes = lookup_ast(model.parsed@, path)->Some_0;
            let facts = collect_nodes(cfg, nodes, Seq::<Seq<char>>::empty(), empty_facts());
            let cands = candidates_spec(model, cfg, facts, path, ws);
            seq_to_set_is_finite(str_views(model.fs.files@));
            axiom_set_difference_finite(file_set(model), v);
            assert(file_set(model).difference(v1) =~= file_set(model).difference(v).remove(path));
            axiom_set_remove_len(file_set(model).difference(v), path);
            assert(file_set(model).difference(v).contains(path));
            lemma_fold_visited_grows(model, cfg, ws, cands, leaf_spec(path), v1);
        }
    }
}

/// Folding candidates only grows the visited set.
pub proof fn lemma_fold_visited_grows(
    model: SourceModel,
    cfg: ParserConfigView,
    ws: Option<Seq<char>>,
    cands: Seq<(Seq<char>, FileKind, bool)>,
    node: FileTreeView,
    v: Set<Seq<char>>,
)
    ensures
        v.subset_of(fold_children_spec(model, cfg, ws, cands, node, v).1),
    decreases unvisited_measure(model, v), 1int, cands.len(),
{
    if cands.len() > 0 {
        let (p, kind, recurse) = cands[0];
        let (cn, vc) = if recurse {
            bfn_spec(model, cfg, ws, p, v)
        } else {
            (leaf_spec(p), v)
        };
        let v2 = v.union(vc);
        let child = FileTreeView { path: cn.path, kind, children: cn.children };
        seq_to_set_is_finite(str_views(model.fs.files@));
        axiom_set_difference_finite(file_set(model), v);
        axiom_set_difference_finite(file_set(model), v2);
        assert(file_set(model).difference(v2).subset_of(file_set(model).difference(v)));
        lemma_len_subset(file_set(model).difference(v2), file_set(model).difference(v));
        lemma_fold_visited_grows(
            model,
            cfg,
            ws,
            cands.drop_first(),
            crate::files::add_child_spec(node, child),
            v2,
        );
    }
}

} // verus!

verus! {

use crate::analyzer::SourceFacts;
use crate::utils::{resolve, resolve_workspace_relative};

/// Append each path of `ps` tagged with `kind` and `recurse`.
fn push_tagged(out: &mut Vec<(String, FileKind, bool)>, ps: Vec<String>, kind: FileKind, recurse: bool)
    ensures
        cands_view(final(out)@) == cands_view(old(out)@) + tag_cands(
            str_views(ps@),
            kind,
            recurse,
        ),
{
    let ghost out0 = cands_view(out@);
    let ghost pv = str_views(ps@);
    let mut j: usize = 0;
    proof {
        assert(cands_view(out@) =~= out0 + tag_cands(pv.take(0), kind, recurse));
    }
    let mut ps = ps;
    while j < ps.len()
        invariant
            pv == str_views(ps@),
            0 <= j <= pv.len(),
            cands_view(out@) == out0 + tag_cands(pv.take(j as int), kind, recurse),
        decreases pv.len() - j,
    {
        let ghost before = cands_view(out@);
        out.push((ps[j].clone(), kind, recurse));
        proof {
            assert(cands_view(out@) =~= before.push((pv[j as int], kind, recurse)));
            assert(pv[j as int] == ps@[j as int]@);
            assert(out0 + tag_cands(pv.take(j + 1), kind, recurse) =~= (out0 + tag_cands(
                pv.take(j as int),
                kind,
                recurse,
            )).push((pv[j as int], kind, recurse)));
        }
        j += 1;
    }
    proof {
        assert(pv.take(pv.len() as int) =~= pv);
    }
}

/// The module files of the nested module declarations.
fn nested_cands_exec(fs: &FsSnapshot, actual: &str, nested: &Vec<(Vec<String>, String)>) -> (r:
    Vec<String>)
    ensures
        str_views(r@) == nested_cands_spec(*fs, actual@, crate::analyzer::nested_views(nested@)),
{
    let ghost nv = crate::analyzer::nested_views(nested@);
    let mut out: Vec<String> = Vec::new();
    let mut i: usize = 0;
    proof {
        assert(nv.skip(0) =~= nv);
        assert(str_views(out@) =~= Seq::<Seq<char>>::empty());
    }
    while i < nested.len()
        invariant
            nv == crate::analyzer::nested_views(nested@),
            0 <= i <= nv.len(),
            str_views(out@) + nested_cands_spec(*fs, actual@, nv.skip(i as int))
                == nested_cands_spec(*fs, actual@, nv),
        decreases nv.len() - i,
    {
        proof {
            assert(nv.skip(i as int)[0] == nv[i as int]);
            assert(nv.skip(i as int).drop_first() =~= nv.skip(i + 1));
            assert(nv[i as int] == (str_views(nested@[i as int].0@), nested@[i as int].1@));
        }
        let dir = join_all_exec(actual, &nested[i].0);
        let sub = resolve_one_mod_exec(fs, dir.as_str(), nested[i].1.as_str());
        let ghost outv = str_views(out@);
        let ghost subv = str_views(sub@);
        let mut j: usize = 0;
        while j < sub.len()
            invariant
                subv == str_views(sub@),
                0 <= j <= subv.len(),
                str_views(out@) =~= outv + subv.take(j as int),
            decreases subv.len() - j,
        {
            let ghost before = str_views(out@);
            out.push(sub[j].clone());
            proof {
                assert(str_views(out@) =~= before.push(subv[j as int]));
                assert(outv + subv.take(j + 1) =~= (outv + subv.take(j as int)).push(
                    subv[j as int],
                ));
            }
            j += 1;
        }
        proof {
            assert(subv.take(subv.len() as int) =~= subv);
            assert(outv + subv + nested_cands_spec(*fs, actual@, nv.skip(i + 1)) =~= outv + (subv
                + nested_cands_spec(*fs, actual@, nv.skip(i + 1))));
        }
        i += 1;
    }
    proof {
        assert(nv.skip(nv.len() as int) =~= Seq::<(Seq<Seq<char>>, Seq<char>)>::empty());
        assert(nested_cands_spec(*fs, actual@, Seq::<(Seq<Seq<char>>, Seq<char>)>::empty())
            =~= Seq::<Seq<char>>::empty());
        assert(str_views(out@) + Seq::<Seq<char>>::empty() =~= str_views(out@));
    }
    out
}

/// The override targets that exist.
fn override_cands_exec(fs: &FsSnapshot, path: &str, mod_paths: &Vec<(String, String)>) -> (r:
    Vec<String>)
    ensures
        str_views(r@) == override_cands_spec(*fs, path@, crate::analyzer::pair_views(mod_paths@)),
{
    let ghost mv = crate::analyzer::pair_views(mod_paths@);
    let mut out: Vec<String> = Vec::new();
    let mut i: usize = 0;
    proof {
        assert(mv.skip(0) =~= mv);
        assert(str_views(out@) =~= Seq::<Seq<char>>::empty());
    }
    while i < mod_paths.len()
        invariant
            mv == crate::analyzer::pair_views(mod_paths@),
            0 <= i <= mv.len(),
            str_views(out@) + override_cands_spec(*fs, path@, mv.skip(i as int))
                == override_cands_spec(*fs, path@, mv),
        decreases mv.len() - i,
    {
        proof {
            assert(mv.skip(i as int)[0] == mv[i as int]);
            assert(mv.skip(i as int).drop_first() =~= mv.skip(i + 1));
            assert(mv[i as int] == (mod_paths@[i as int].0@, mod_paths@[i as int].1@));
        }
        let ghost outv = str_views(out@);
        match resolve(path, mod_paths[i].1.as_str(), fs) {
            Some(p) => {
                let ghost pvv = p@;
                out.push(p);
                proof {
                    assert(str_views(out@) =~= outv.push(pvv));
                    assert(outv + (seq![pvv] + override_cands_spec(*fs, path@, mv.skip(i + 1)))
                        =~= outv.push(pvv) + override_cands_spec(*fs, path@, mv.skip(i + 1)));
                }
            },
            None => {},
        }
        i += 1;
    }
    proof {
        assert(mv.skip(mv.len() as int) =~= Seq::<(Seq<char>, Seq<char>)>::empty());
        assert(override_cands_spec(*fs, path@, Seq::<(Seq<char>, Seq<char>)>::empty())
            =~= Seq::<Seq<char>>::empty());
        assert(str_views(out@) + Seq::<Seq<char>>::empty() =~= str_views(out@));
    }
    out
}

/// The inclusion or file-reference targets that resolve.
fn ref_cands_exec(fs: &FsSnapshot, path: &str, ws: Option<&String>, refs: &Vec<String>) -> (r:
    Vec<String>)
    ensures
        str_views(r@) == ref_cands_spec(*fs, path@, ws_view(ws), str_views(refs@)),
{
    let ghost rv = str_views(refs@);
    let ghost wsv = ws_view(ws);
    let mut out: Vec<String> = Vec::new();
    let mut i: usize = 0;
    proof {
        assert(rv.skip(0) =~= rv);
        assert(str_views(out@) =~= Seq::<Seq<char>>::empty());
    }
    while i < refs.len()
        invariant
            rv == str_views(refs@),
            wsv == ws_view(ws),
            0 <= i <= rv.len(),
            str_views(out@) + ref_cands_spec(*fs, path@, wsv, rv.skip(i as int)) == ref_cands_spec(
                *fs,
                path@,
                wsv,
                rv,
            ),
        decreases rv.len() - i,
    {
        proof {
            assert(rv.skip(i as int)[0] == rv[i as int]);
            assert(rv.skip(i as int).drop_first() =~= rv.skip(i + 1));
            assert(rv[i as int] == refs@[i as int]@);
        }
        let ghost outv = str_views(out@);
        let first = resolve(path, refs[i].as_str(), fs);
        let resolved: Option<String> = match first {
            Some(p) => Some(p),
            None => match ws {
                Some(w) => resolve_workspace_relative(w.as_str(), refs[i].as_str(), fs),
                None => None,
            },
        };
        match resolved {
            Some(p) => {
                proof {
                    assert(ref_resolve_spec(*fs, path@, wsv, rv[i as int]) == Some(p@));
                }
                let ghost pvv = p@;
                out.push(p);
                proof {
                    assert(str_views(out@) =~= outv.push(pvv));
                    assert(outv + (seq![pvv] + ref_cands_spec(*fs, path@, wsv, rv.skip(i + 1)))
                        =~= outv.push(pvv) + ref_cands_spec(*fs, path@, wsv, rv.skip(i + 1)));
                }
            },
            None => {
                proof {
                    assert(ref_resolve_spec(*fs, path@, wsv, rv[i as int]) is None);
                }
            },
        }
        i += 1;
    }
    proof {
        assert(rv.skip(rv.len() as int) =~= Seq::<Seq<char>>::empty());
        assert(ref_cands_spec(*fs, path@, wsv, Seq::<Seq<char>>::empty())
            =~= Seq::<Seq<char>>::empty());
        assert(str_views(out@) + Seq::<Seq<char>>::empty() =~= str_views(out@));
    }
    out
}

/// Every child candidate of one analyzed file, in resolution order.
fn candidates_exec(
    model: &SourceModel,
    cfg: &ParserConfig,
    facts: &SourceFacts,
    path: &str,
    ws: Option<&String>,
) -> (r: Vec<(String, FileKind, bool)>)
    ensures
        cands_view(r@) == candidates_spec(*model, cfg@, facts@, path@, ws_view(ws)),
{
    let fs = &model.fs;
    let base_dir = parent_of(path);
    let name = file_name_of(path);
    let stem = stem_of_name(name.as_str());
    let maybe = path_join(base_dir.as_str(), stem.as_str());
    let actual = if fs.is_dir(maybe.as_str()) {
        maybe
    } else {
        base_dir
    };
    proof {
        assert(actual@ == actual_base_spec(*fs, path@));
    }
    let mut out: Vec<(String, FileKind, bool)> = Vec::new();
    proof {
        assert(cands_view(out@) =~= Seq::<(Seq<char>, FileKind, bool)>::empty());
    }
    if cfg.mods {
        let flat = resolve_mod_files(fs, actual.as_str(), &facts.mods);
        push_tagged(&mut out, flat, FileKind::Module, true);
        let nested = nested_cands_exec(fs, actual.as_str(), &facts.nested_mods);
        push_tagged(&mut out, nested, FileKind::Module, true);
        let overrides = override_cands_exec(fs, path, &facts.mod_paths);
        push_tagged(&mut out, overrides, FileKind::ModulePath, false);
    }
    let incs = ref_cands_exec(fs, path, ws, &facts.includes);
    push_tagged(&mut out, incs, FileKind::MacroInclude, false);
    let refs = ref_cands_exec(fs, path, ws, &facts.file_refs);
    push_tagged(&mut out, refs, FileKind::FileReference, false);
    proof {
        assert(cands_view(out@) =~= candidates_spec(*model, cfg@, facts@, path@, ws_view(ws)));
    }
    out
}

} // verus!

verus! {

use crate::strutil::lemma_views_push_set;

/// Build the dependency tree rooted at `file_path`: parse facts, resolve
/// candidates, recurse into modules. The visited set is shared across the
/// whole snapshot build; a file already visited yields a childless node at
/// once, which bounds the recursion on cyclic module graphs.
pub fn build_file_node(
    model: &SourceModel,
    file_path: &str,
    visited: &mut Vec<String>,
    workspace_root: Option<&String>,
    root_config: &MainConfig,
    crate_name: &str,
) -> (r: FileNode)
    ensures
        ({
            let res = bfn_spec(
                *model,
                crate_config_spec(*root_config, crate_name@),
                ws_view(workspace_root),
                file_path@,
                str_views(old(visited)@).to_set(),
            );
            r@ == res.0 && str_views(final(visited)@).to_set() == res.1
        }),
    decreases unvisited_measure(*model, str_views(visited@).to_set()),
{
    let ghost cfgv = crate_config_spec(*root_config, crate_name@);
    let ghost wsv = ws_view(workspace_root);
    let ghost v0 = str_views(visited@).to_set();
    let mut node = FileNode::new(file_path.to_owned(), FileKind::Unset);
    proof {
        assert(node@ =~= leaf_spec(file_path@));
    }
    if contains_string(visited, file_path) {
        proof {
            assert(v0.contains(file_path@));
        }
        return node;
    }
    proof {
        assert(!v0.contains(file_path@));
    }
    let ghost vpre = visited@;
    visited.push(file_path.to_owned());
    proof {
        assert(str_views(visited@) =~= str_views(vpre).push(file_path@));
        lemma_views_push_set(vpre, visited@, file_path@);
    }
    let ghost v1 = v0.insert(file_path@);
    let config = root_config.crate_config(crate_name);
    if !model.fs.is_file(file_path) {
        return node;
    }
    let nodes_opt = model.nodes_for(file_path);
    match nodes_opt {
        None => {
            return node;
        },
        Some(ast) => {
            proof {
                reveal_strlit("/");
                assert("/"@ =~= seq!['/']);
            }
            if file_path.unicode_len() == 0 {
                return node;
            }
            if str_eq(file_path, "/") {
                return node;
            }
            assert(file_path@ != seq!['/']);
            let facts = collect_facts(ast, &config);
            let cands = candidates_exec(model, &config, &facts, file_path, workspace_root);
            let ghost candsv = cands_view(cands@);
            proof {
                assert(bfn_spec(*model, cfgv, wsv, file_path@, v0) == fold_children_spec(
                    *model,
                    cfgv,
                    wsv,
                    candsv,
                    leaf_spec(file_path@),
                    v1,
                ));
                assert(candsv.skip(0) =~= candsv);
            }
            let mut i: usize = 0;
            while i < cands.len()
                invariant
                    candsv == cands_view(cands@),
                    candsv.len() == cands@.len(),
                    0 <= i <= candsv.len(),
                    cfgv == crate_config_spec(*root_config, crate_name@),
                    wsv == ws_view(workspace_root),
                    config@ == cfgv,
                    v1.subset_of(str_views(visited@).to_set()),
                    file_set(*model).contains(file_path@),
                    v0 == str_views(old(visited)@).to_set(),
                    v1 == v0.insert(file_path@),
                    !v0.contains(file_path@),
                    fold_children_spec(
                        *model,
                        cfgv,
                        wsv,
                        candsv.skip(i as int),
                        node@,
                        str_views(visited@).to_set(),
                    ) == fold_children_spec(*model, cfgv, wsv, candsv, leaf_spec(file_path@), v1),
                decreases candsv.len() - i,
            {
                let ghost vcur = str_views(visited@).to_set();
                proof {
                    assert(candsv.skip(i as int)[0] == candsv[i as int]);
                    assert(candsv.skip(i as int).drop_first() =~= candsv.skip(i + 1));
                    assert(candsv[i as int] == (cands@[i as int].0@, cands@[i as int].1,
                    cands@[i as int].2));
                }
                let recurse = cands[i].2;
                let kind = cands[i].1;
                let child: FileNode = if recurse {
                    proof {
                        seq_to_set_is_finite(str_views(model.fs.files@));
                        axiom_set_difference_finite(file_set(*model), v0);
                        axiom_set_difference_finite(file_set(*model), v1);
                        axiom_set_difference_finite(file_set(*model), vcur);
                        assert(file_set(*model).difference(v1) =~= file_set(*model).difference(
                            v0,
                        ).remove(file_path@));
                        axiom_set_remove_len(file_set(*model).difference(v0), file_path@);
                        assert(file_set(*model).difference(v0).contains(file_path@));
                        assert(file_set(*model).difference(vcur).subset_of(
                            file_set(*model).difference(v1),
                        ));
                        lemma_len_subset(
                            file_set(*model).difference(vcur),
                            file_set(*model).difference(v1),
                        );
                        assert(unvisited_measure(*model, vcur) < unvisited_measure(*model, v0));
                    }
                    let mut c = build_file_node(
                        model,
                        cands[i].0.as_str(),
                        visited,
                        workspace_root,
                        root_config,
                        crate_name,
                    );
                    c.kind = kind;
                    proof {
                        let res = bfn_spec(*model, cfgv, wsv, candsv[i as int].0, vcur);
                        assert(c@ =~= (FileTreeView {
                            path: res.0.path,
                            kind: candsv[i as int].1,
                            children: res.0.children,
                        }));
                        lemma_bfn_visited_grows(*model, cfgv, wsv, candsv[i as int].0, vcur);
                        assert(vcur.union(str_views(visited@).to_set()) =~= str_views(
                            visited@,
                        ).to_set());
                    }
                    c
                } else {
                    let c = FileNode::new(cands[i].0.clone(), kind);
                    proof {
                        assert(c@ =~= (FileTreeView {
                            path: candsv[i as int].0,
                            kind: candsv[i as int].1,
                            children: leaf_spec(candsv[i as int].0).children,
                        }));
                        assert(vcur.union(vcur) =~= vcur);
                    }
                    c
                };
                node.add_child(child);
                i += 1;
            }
            proof {
                assert(candsv.skip(candsv.len() as int) =~= Seq::<(Seq<char>, FileKind,
                bool)>::empty());
            }
            return node;
        },
    }
}

} // verus!

verus! {

use crate::cargo::CargoTarget;
use crate::strutil::sort_lex_spec;
use crate::globs::any_glob_match;

/// Attach each tree in order by deduplicating insertion.
pub open spec fn attach_all(node: FileTreeView, cs: Seq<FileTreeView>) -> FileTreeView
    decreases cs.len(),
{
    if cs.len() == 0 {
        node
    } else {
        attach_all(crate::files::add_child_spec(node, cs[0]), cs.drop_first())
    }
}

/// Attach a childless node of the given kind for each path in order.
pub open spec fn attach_paths(node: FileTreeView, ps: Seq<Seq<char>>, kind: FileKind) -> FileTreeView
    decreases ps.len(),
{
    if ps.len() == 0 {
        node
    } else {
        attach_paths(
            crate::files::add_child_spec(
                node,
                FileTreeView { path: ps[0], kind, children: Seq::<FileTreeView>::empty() },
            ),
            ps.drop_first(),
            kind,
        )
    }
}

/// Each assume pattern rooted at `root` with a recursive wildcard between.
pub open spec fn full_patterns(root: Seq<char>, pats: Seq<Seq<char>>) -> Seq<Seq<char>> {
    pats.map_values(|p: Seq<char>| path_join_spec(path_join_spec(root, "**"@), p))
}

/// The sorted, deduplicated files matching any assume pattern under
/// `root`.
pub open spec fn assume_files_spec(fs: FsSnapshot, root: Seq<char>, pats: Seq<Seq<char>>) -> Seq<
    Seq<char>,
> {
    sort_lex_spec(
        str_views(fs.files@).filter(|f: Seq<char>| any_glob_match(full_patterns(root, pats), f)),
    )
}

/// Expand each build target in order: its entry file's dependency tree
/// hangs under a `Target` node, and the visited set runs through the whole
/// fold.
pub open spec fn targets_fold(
    model: SourceModel,
    cfg: ParserConfigView,
    ws: Option<Seq<char>>,
    targets: Seq<CargoTarget>,
    node: FileTreeView,
    v: Set<Seq<char>>,
) -> (FileTreeView, Set<Seq<char>>)
    decreases unvisited_measure(model, v), 2int, targets.len(),
{
    if targets.len() == 0 {
        (node, v)
    } else {
        let (tree, vc) = bfn_spec(model, cfg, ws, targets[0].src_path@, v);
        let v2 = v.union(vc);
        let tnode = attach_all(
            FileTreeView {
                path: targets[0].src_path@,
                kind: FileKind::Target,
                children: Seq::<FileTreeView>::empty(),
            },
            tree.children,
        );
        proof {
            seq_to_set_is_finite(str_views(model.fs.files@));
            axiom_set_difference_finite(file_set(model), v);
            axiom_set_difference_finite(file_set(model), v2);
            assert(file_set(model).difference(v2).subset_of(file_set(model).difference(v)));
            lemma_len_subset(file_set(model).difference(v2), file_set(model).difference(v));
        }
        targets_fold(
            model,
            cfg,
            ws,
            targets.drop_first(),
            crate::files::add_child_spec(node, tnode),
            v2,
        )
    }
}

/// Expanding targets only grows the visited set.
pub proof fn lemma_targets_fold_grows(
    model: SourceModel,
    cfg: ParserConfigView,
    ws: Option<Seq<char>>,
    targets: Seq<CargoTarget>,
    node: FileTreeView,
    v: Set<Seq<char>>,
)
    ensures
        v.subset_of(targets_fold(model, cfg, ws, targets, node, v).1),
    decreases unvisited_measure(model, v), 2int, targets.len(),
{
    if targets.len() > 0 {
        let (tree, vc) = bfn_spec(model, cfg, ws, targets[0].src_path@, v);
        let v2 = v.union(vc);
        let tnode = attach_all(
            FileTreeView {
                path: targets[0].src_path@,
                kind: FileKind::Target,
                children: Seq::<FileTreeView>::empty(),
            },
            tree.children,
        );
        seq_to_set_is_finite(str_views(model.fs.files@));
        axiom_set_difference_finite(file_set(model), v);
        axiom_set_difference_finite(file_set(model), v2);
        assert(file_set(model).difference(v2).subset_of(file_set(model).difference(v)));
        lemma_len_subset(file_set(model).difference(v2), file_set(model).difference(v));
        lemma_targets_fold_grows(
            model,
            cfg,
            ws,
            targets.drop_first(),
            crate::files::add_child_spec(node, tnode),
            v2,
        );
    }
}

/// One `Crate` child per workspace package: its targets' trees, then its
/// assume-pattern matches, attached under the running visited set.
pub open spec fn crates_fold(
    model: SourceModel,
    config: MainConfig,
    ws: Option<Seq<char>>,
    crates: Seq<CargoCrate>,
    node: FileTreeView,
    v: Set<Seq<char>>,
) -> (FileTreeView, Set<Seq<char>>)
    decreases unvisited_measure(model, v), 3int, crates.len(),
{
    if crates.len() == 0 {
        (node, v)
    } else {
        let c = crates[0];
        let cfg = crate_config_spec(config, c.name@);
        let cnode0 = FileTreeView {
            path: c.manifest_path@,
            kind: FileKind::Crate,
            children: Seq::<FileTreeView>::empty(),
        };
        let (cnode1, v2) = targets_fold(model, cfg, ws, c.targets@, cnode0, v);
        let cnode2 = if cfg.assume_mode && cfg.assume_patterns.len() > 0 && c.manifest_path@.len()
            > 0 && c.manifest_path@ != seq!['/'] {
            attach_paths(
                cnode1,
                assume_files_spec(model.fs, parent_spec(c.manifest_path@), cfg.assume_patterns),
                FileKind::Assume,
            )
        } else {
            cnode1
        };
        let v3 = v.union(v2);
        proof {
            seq_to_set_is_finite(str_views(model.fs.files@));
            axiom_set_difference_finite(file_set(model), v);
            axiom_set_difference_finite(file_set(model), v3);
            assert(file_set(model).difference(v3).subset_of(file_set(model).difference(v)));
            lemma_len_subset(file_set(model).difference(v3), file_set(model).difference(v));
        }
        crates_fold(
            model,
            config,
            ws,
            crates.drop_first(),
            crate::files::add_child_spec(node, cnode2),
            v3,
        )
    }
}

/// The whole workspace tree: a `Workspace` root at the workspace manifest
/// with one fully expanded `Crate` child per package, built under a single
/// visited set.
pub open spec fn build_tree_spec(
    model: SourceModel,
    metadata: CargoMetadata,
    crates: Seq<CargoCrate>,
    config: MainConfig,
) -> FileTreeView {
    let root = FileTreeView {
        path: path_join_spec(metadata.workspace_root@, "Cargo.toml"@),
        kind: FileKind::Workspace,
        children: Seq::<FileTreeView>::empty(),
    };
    crates_fold(
        model,
        config,
        Some(metadata.workspace_root@),
        crates,
        root,
        Set::<Seq<char>>::empty(),
    ).0
}

} // verus!

verus! {

use crate::strutil::sort_dedup as sort_dedup_exec;
use crate::globs::matches_any_pattern;

/// The sorted, deduplicated files matching any assume pattern under
/// `crate_root`.
pub fn find_assume_files(fs: &FsSnapshot, crate_root: &str, patterns: &Vec<String>) -> (r: Vec<
    String,
>)
    ensures
        str_views(r@) == assume_files_spec(*fs, crate_root@, str_views(patterns@)),
{
    proof {
        reveal_strlit("**");
    }
    let ghost pv = str_views(patterns@);
    let star = path_join(crate_root, "**");
    let mut fulls: Vec<String> = Vec::new();
    let mut i: usize = 0;
    proof {
        assert(str_views(fulls@) =~= full_patterns(crate_root@, pv.take(0)));
    }
    while i < patterns.len()
        invariant
            pv == str_views(patterns@),
            star@ == path_join_spec(crate_root@, "**"@),
            0 <= i <= pv.len(),
            str_views(fulls@) == full_patterns(crate_root@, pv.take(i as int)),
        decreases pv.len() - i,
    {
        let ghost before = str_views(fulls@);
        let f = path_join(star.as_str(), patterns[i].as_str());
        fulls.push(f);
        proof {
            assert(pv[i as int] == patterns@[i as int]@);
            assert(str_views(fulls@) =~= before.push(path_join_spec(path_join_spec(
                crate_root@,
                "**"@,
            ), pv[i as int])));
            assert(full_patterns(crate_root@, pv.take(i + 1)) =~= full_patterns(
                crate_root@,
                pv.take(i as int),
            ).push(path_join_spec(path_join_spec(crate_root@, "**"@), pv[i as int])));
        }
        i += 1;
    }
    proof {
        assert(pv.take(pv.len() as int) =~= pv);
    }
    let ghost fullv = full_patterns(crate_root@, pv);
    let ghost pred = |f: Seq<char>| any_glob_match(fullv, f);
    let mut matched: Vec<String> = Vec::new();
    let mut j: usize = 0;
    let ghost fv = str_views(fs.files@);
    proof {
        reveal(Seq::filter);
        assert(fv.take(0) =~= Seq::<Seq<char>>::empty());
        assert(str_views(matched@) =~= fv.take(0).filter(pred));
    }
    while j < fs.files.len()
        invariant
            fv == str_views(fs.files@),
            fullv == str_views(fulls@),
            pred == (|f: Seq<char>| any_glob_match(fullv, f)),
            0 <= j <= fv.len(),
            str_views(matched@) == fv.take(j as int).filter(pred),
        decreases fv.len() - j,
    {
        proof {
            reveal(Seq::filter);
            assert(fv.take(j + 1).drop_last() =~= fv.take(j as int));
            assert(fv.take(j + 1).last() == fv[j as int]);
            assert(fv[j as int] == fs.files@[j as int]@);
        }
        if matches_any_pattern(&fulls, fs.files[j].as_str()) {
            let ghost before = str_views(matched@);
            matched.push(fs.files[j].clone());
            proof {
                assert(str_views(matched@) =~= before.push(fv[j as int]));
            }
        }
        j += 1;
    }
    proof {
        assert(fv.take(fv.len() as int) =~= fv);
    }
    sort_dedup_exec(&matched)
}

/// Build the whole workspace tree from the metadata, the workspace-local
/// packages and the configuration, over one shared visited set.
pub fn build_tree(
    model: &SourceModel,
    metadata: &CargoMetadata,
    crates: &Vec<&CargoCrate>,
    config: &MainConfig,
) -> (r: FileNode)
    ensures
        r@ == build_tree_spec(
            *model,
            *metadata,
            crates@.map_values(|c: &CargoCrate| *c),
            *config,
        ),
{
    proof {
        reveal_strlit("Cargo.toml");
    }
    let ghost cseq = crates@.map_values(|c: &CargoCrate| *c);
    let ghost wsv = Some(metadata.workspace_root@);
    let mut visited: Vec<String> = Vec::new();
    let root_path = path_join(metadata.workspace_root.as_str(), "Cargo.toml");
    let mut root_node = FileNode::new(root_path, FileKind::Workspace);
    proof {
        assert(str_views(visited@).to_set() =~= Set::<Seq<char>>::empty());
        assert(cseq.skip(0) =~= cseq);
    }
    let ghost root0 = root_node@;
    let mut i: usize = 0;
    while i < crates.len()
        invariant
            cseq == crates@.map_values(|c: &CargoCrate| *c),
            cseq.len() == crates@.len(),
            wsv == Some(metadata.workspace_root@),
            0 <= i <= cseq.len(),
            crates_fold(
                *model,
                *config,
                wsv,
                cseq.skip(i as int),
                root_node@,
                str_views(visited@).to_set(),
            ) == crates_fold(*model, *config, wsv, cseq, root0, Set::<Seq<char>>::empty()),
        decreases cseq.len() - i,
    {
        let ghost vstart = str_views(visited@).to_set();
        proof {
            assert(cseq.skip(i as int)[0] == cseq[i as int]);
            assert(cseq.skip(i as int).drop_first() =~= cseq.skip(i + 1));
            assert(cseq[i as int] == *crates@[i as int]);
        }
        let crate_: &CargoCrate = crates[i];
        let ghost cfgv = crate_config_spec(*config, crate_.name@);
        let mut node = FileNode::new(crate_.manifest_path.clone(), FileKind::Crate);
        let ghost cnode0 = node@;
        proof {
            assert(cnode0 =~= (FileTreeView {
                path: cseq[i as int].manifest_path@,
                kind: FileKind::Crate,
                children: Seq::<FileTreeView>::empty(),
            }));
            assert(crate_.targets@.skip(0) =~= crate_.targets@);
        }
        let mut j: usize = 0;
        while j < crate_.targets.len()
            invariant
                cseq == crates@.map_values(|c: &CargoCrate| *c),
                wsv == Some(metadata.workspace_root@),
                0 <= j <= crate_.targets@.len(),
                cfgv == crate_config_spec(*config, crate_.name@),
                targets_fold(
                    *model,
                    cfgv,
                    wsv,
                    crate_.targets@.skip(j as int),
                    node@,
                    str_views(visited@).to_set(),
                ) == targets_fold(*model, cfgv, wsv, crate_.targets@, cnode0, vstart),
            decreases crate_.targets@.len() - j,
        {
            let ghost vloop = str_views(visited@).to_set();
            proof {
                assert(crate_.targets@.skip(j as int)[0] == crate_.targets@[j as int]);
                assert(crate_.targets@.skip(j as int).drop_first() =~= crate_.targets@.skip(j + 1));
            }
            let target = &crate_.targets[j];
            let mut target_node = FileNode::new(target.src_path.clone(), FileKind::Target);
            let source_tree = build_file_node(
                model,
                target.src_path.as_str(),
                &mut visited,
                Some(&metadata.workspace_root),
                config,
                crate_.name.as_str(),
            );
            proof {
                lemma_bfn_visited_grows(*model, cfgv, wsv, target.src_path@, vloop);
                assert(vloop.union(str_views(visited@).to_set()) =~= str_views(
                    visited@,
                ).to_set());
            }
            let ghost tree0 = source_tree@;
            let mut cs = source_tree.children;
            let ghost t0 = target_node@;
            proof {
                assert(crate::files::nodes_view(cs@) == tree0.children);
            }
            while cs.len() > 0
                invariant
                    attach_all(target_node@, crate::files::nodes_view(cs@)) == attach_all(
                        t0,
                        tree0.children,
                    ),
                decreases cs@.len(),
            {
                let ghost oldcs = cs@;
                let child = cs.remove(0);
                proof {
                    assert(cs@ =~= oldcs.drop_first());
                    assert(crate::files::nodes_view(oldcs) == seq![
                        crate::files::node_view(oldcs[0]),
                    ] + crate::files::nodes_view(oldcs.drop_first()));
                    assert(crate::files::nodes_view(oldcs)[0] == child@);
                    assert(crate::files::nodes_view(oldcs).drop_first() =~= crate::files::nodes_view(
                        cs@,
                    ));
                }
                target_node.add_child(child);
            }
            proof {
                assert(crate::files::nodes_view(cs@) =~= Seq::<FileTreeView>::empty());
            }
            node.add_child(target_node);
            j += 1;
        }
        proof {
            assert(crate_.targets@.skip(crate_.targets@.len() as int)
                =~= Seq::<CargoTarget>::empty());
        }
        let ghost cnode1g = node@;
        let ghost v2g = str_views(visited@).to_set();
        proof {
            assert(targets_fold(*model, cfgv, wsv, cseq[i as int].targets@, cnode0, vstart) == (
            cnode1g,
            v2g,
            ));
        }
        let parser_config = config.crate_config(crate_.name.as_str());
        let ghost assume_cond = cfgv.assume_mode && cfgv.assume_patterns.len() > 0
            && cseq[i as int].manifest_path@.len() > 0 && cseq[i as int].manifest_path@ != seq![
            '/',
        ];
        let ghost cnode2g = if assume_cond {
            attach_paths(
                cnode1g,
                assume_files_spec(
                    model.fs,
                    parent_spec(cseq[i as int].manifest_path@),
                    cfgv.assume_patterns,
                ),
                FileKind::Assume,
            )
        } else {
            cnode1g
        };
        if parser_config.assume_mode && parser_config.assume_patterns.len() > 0 {
            proof {
                reveal_strlit("/");
                assert("/"@ =~= seq!['/']);
            }
            let mlen = crate_.manifest_path.as_str().unicode_len();
            let is_root = mlen == 1 && crate_.manifest_path.as_str().get_char(0) == '/';
            if mlen > 0 && !is_root {
                proof {
                    assert(crate_.manifest_path@ != seq!['/']) by {
                        if crate_.manifest_path@ == seq!['/'] {
                            assert(crate_.manifest_path@.len() == 1);
                        }
                    }
                    assert(assume_cond);
                }
                let crate_root = parent_of(crate_.manifest_path.as_str());
                let afiles = find_assume_files(
                    &model.fs,
                    crate_root.as_str(),
                    &parser_config.assume_patterns,
                );
                let ghost av = str_views(afiles@);
                let ghost node_before = node@;
                proof {
                    assert(av.skip(0) =~= av);
                }
                let mut k: usize = 0;
                while k < afiles.len()
                    invariant
                        av == str_views(afiles@),
                        0 <= k <= av.len(),
                        attach_paths(node@, av.skip(k as int), FileKind::Assume) == attach_paths(
                            node_before,
                            av,
                            FileKind::Assume,
                        ),
                    decreases av.len() - k,
                {
                    proof {
                        assert(av.skip(k as int)[0] == av[k as int]);
                        assert(av.skip(k as int).drop_first() =~= av.skip(k + 1));
                        assert(av[k as int] == afiles@[k as int]@);
                    }
                    let assume_node = FileNode::new(afiles[k].clone(), FileKind::Assume);
                    node.add_child(assume_node);
                    k += 1;
                }
                proof {
                    assert(av.skip(av.len() as int) =~= Seq::<Seq<char>>::empty());
                    assert(node@ == attach_paths(cnode1g, av, FileKind::Assume));
                    assert(av == assume_files_spec(
                        model.fs,
                        parent_spec(cseq[i as int].manifest_path@),
                        cfgv.assume_patterns,
                    ));
                    assert(node@ == cnode2g);
                }
            } else {
                proof {
                    if mlen == 0 {
                        assert(cseq[i as int].manifest_path@.len() == 0);
                    } else {
                        assert(crate_.manifest_path@.len() == 1 && crate_.manifest_path@[0]
                            == '/');
                        assert(crate_.manifest_path@ =~= seq!['/']);
                    }
                    assert(!assume_cond);
                    assert(node@ == cnode2g);
                }
            }
        } else {
            proof {
                assert(!assume_cond);
                assert(node@ == cnode2g);
            }
        }
        proof {
            lemma_targets_fold_grows(*model, cfgv, wsv, crate_.targets@, cnode0, vstart);
            assert(vstart.union(str_views(visited@).to_set()) =~= str_views(visited@).to_set());
            assert(crates_fold(*model, *config, wsv, cseq.skip(i as int), root_node@, vstart)
                == crates_fold(
                *model,
                *config,
                wsv,
                cseq.skip(i + 1),
                crate::files::add_child_spec(root_node@, cnode2g),
                str_views(visited@).to_set(),
            ));
        }
        root_node.add_child(node);
        i += 1;
    }
    proof {
        assert(cseq.skip(cseq.len() as int) =~= Seq::<CargoCrate>::empty());
    }
    root_node
}

} // verus!
