//! The per-workspace file dependency tree.
//!
//! A `FileNode` names one file, the way it was discovered (`FileKind`), and
//! the files discovered from it. Children are deduplicated by path on
//! insertion, and a post-build pass rewrites every path to be relative to a
//! chosen root.

use vstd::prelude::*;

verus! {

use vstd::string::StrSliceExecFns;
use vstd::string::StringExecFns;
use crate::strutil::{
    file_name_spec, parent_spec, strip_prefix_spec, path_has_prefix, str_eq, strip_path_prefix,
    file_name_of, parent_of, str_views, distinct_views, push_unique,
};

/// How a file entered the tree.
#[derive(Debug, Clone, Copy, PartialEq, Eq, Structural)]
pub enum FileKind {
    /// Top-level manifest of the workspace.
    Workspace,
    /// A package-level manifest.
    Crate,
    /// A build-target entry point.
    Target,
    /// A file resolved from a module declaration.
    Module,
    /// A file resolved from a module path-override attribute.
    ModulePath,
    /// A file resolved from a literal-inclusion macro.
    MacroInclude,
    /// A file resolved from a heuristic file-reference call.
    FileReference,
    /// A file matched by an assume pattern.
    Assume,
    /// No kind assigned yet; used for fresh nodes.
    Unset,
}

/// The mathematical shape of a file tree: a path, a kind, and child shapes.
#[verifier::ext_equal]
pub ghost struct FileTreeView {
    pub path: Seq<char>,
    pub kind: FileKind,
    pub children: Seq<FileTreeView>,
}

/// One node of the file dependency tree.
#[derive(Debug)]
pub struct FileNode {
    pub path: String,
    pub kind: FileKind,
    pub children: Vec<FileNode>,
}

pub open spec fn node_view(n: FileNode) -> FileTreeView
    decreases n,
{
    FileTreeView { path: n.path@, kind: n.kind, children: nodes_view(n.children@) }
}

pub open spec fn nodes_view(cs: Seq<FileNode>) -> Seq<FileTreeView>
    decreases cs,
{
    if cs.len() == 0 {
        Seq::<FileTreeView>::empty()
    } else {
        seq![node_view(cs[0])] + nodes_view(cs.drop_first())
    }
}

pub broadcast proof fn lemma_nodes_view(cs: Seq<FileNode>)
    ensures
        (#[trigger] nodes_view(cs)).len() == cs.len(),
        forall|i: int| 0 <= i < cs.len() ==> nodes_view(cs)[i] == node_view(cs[i]),
    decreases cs,
{
    if cs.len() > 0 {
        lemma_nodes_view(cs.drop_first());
        assert forall|i: int| 0 <= i < cs.len() implies nodes_view(cs)[i] == node_view(
            cs[i],
        ) by {
            if i > 0 {
                assert(cs.drop_first()[i - 1] == cs[i]);
            }
        }
    }
}

pub proof fn lemma_nodes_view_push(cs: Seq<FileNode>, c: FileNode)
    ensures
        nodes_view(cs.push(c)) == nodes_view(cs).push(node_view(c)),
    decreases cs,
{
    if cs.len() == 0 {
        assert(cs.push(c) =~= seq![c]);
        assert(cs.push(c).drop_first() =~= Seq::<FileNode>::empty());
        assert(nodes_view(Seq::<FileNode>::empty()) == Seq::<FileTreeView>::empty());
        assert(cs.push(c)[0] == c);
        assert(nodes_view(cs.push(c)) == seq![node_view(c)] + Seq::<FileTreeView>::empty());
        assert(nodes_view(cs) == Seq::<FileTreeView>::empty());
        assert(nodes_view(cs.push(c)) =~= nodes_view(cs).push(node_view(c)));
    } else {
        lemma_nodes_view_push(cs.drop_first(), c);
        assert(cs.push(c)[0] == cs[0]);
        assert(cs.push(c).drop_first() =~= cs.drop_first().push(c));
        assert(nodes_view(cs.push(c)) =~= nodes_view(cs).push(node_view(c)));
    }
}

impl View for FileNode {
    type V = FileTreeView;

    open spec fn view(&self) -> FileTreeView {
        node_view(*self)
    }
}

/// Whether some tree in `cs` is rooted at path `p`.
pub open spec fn has_child_path(cs: Seq<FileTreeView>, p: Seq<char>) -> bool {
    exists|k: int| 0 <= k < cs.len() && cs[k].path == p
}

/// The result of inserting `c` as a child of `v`: a no-op when a child with
/// the same path is already present.
pub open spec fn add_child_spec(v: FileTreeView, c: FileTreeView) -> FileTreeView {
    if has_child_path(v.children, c.path) {
        v
    } else {
        FileTreeView { path: v.path, kind: v.kind, children: v.children.push(c) }
    }
}

/// The set of every path in the tree `v`.
pub open spec fn tree_paths(v: FileTreeView) -> Set<Seq<char>>
    decreases v,
{
    seq_tree_paths(v.children).insert(v.path)
}

pub open spec fn seq_tree_paths(cs: Seq<FileTreeView>) -> Set<Seq<char>>
    decreases cs,
{
    if cs.len() == 0 {
        Set::<Seq<char>>::empty()
    } else {
        tree_paths(cs[0]).union(seq_tree_paths(cs.drop_first()))
    }
}

/// The size measure the tree reports: one per node plus one per edge.
pub open spec fn tree_len(v: FileTreeView) -> nat
    decreases v,
{
    1 + seq_tree_len(v.children)
}

pub open spec fn seq_tree_len(cs: Seq<FileTreeView>) -> nat
    decreases cs,
{
    if cs.len() == 0 {
        0
    } else {
        tree_len(cs[0]) + 1 + seq_tree_len(cs.drop_first())
    }
}

/// The tree `v` with every path rebased against `root` by prefix stripping;
/// paths that do not lie under `root` are left unchanged.
pub open spec fn relativize_spec(v: FileTreeView, root: Seq<char>) -> FileTreeView
    decreases v,
{
    FileTreeView {
        path: strip_prefix_spec(v.path, root),
        kind: v.kind,
        children: seq_relativize_spec(v.children, root),
    }
}

pub open spec fn seq_relativize_spec(cs: Seq<FileTreeView>, root: Seq<char>) -> Seq<FileTreeView>
    decreases cs,
{
    if cs.len() == 0 {
        Seq::<FileTreeView>::empty()
    } else {
        seq![relativize_spec(cs[0], root)] + seq_relativize_spec(cs.drop_first(), root)
    }
}

pub broadcast proof fn lemma_seq_relativize(cs: Seq<FileTreeView>, root: Seq<char>)
    ensures
        (#[trigger] seq_relativize_spec(cs, root)).len() == cs.len(),
        forall|i: int|
            0 <= i < cs.len() ==> seq_relativize_spec(cs, root)[i] == relativize_spec(
                cs[i],
                root,
            ),
    decreases cs,
{
    if cs.len() > 0 {
        lemma_seq_relativize(cs.drop_first(), root);
        assert forall|i: int| 0 <= i < cs.len() implies seq_relativize_spec(cs, root)[i]
            == relativize_spec(cs[i], root) by {
            if i > 0 {
                assert(cs.drop_first()[i - 1] == cs[i]);
            }
        }
    }
}

/// `p` holds no doubled separator.
pub open spec fn no_double_slash(p: Seq<char>) -> bool {
    forall|i: int| 0 <= i < p.len() - 1 ==> !(#[trigger] p[i] == '/' && p[i + 1] == '/')
}

/// Every path in the tree holds no doubled separator.
pub open spec fn tree_paths_clean(v: FileTreeView) -> bool
    decreases v,
{
    no_double_slash(v.path) && seq_tree_paths_clean(v.children)
}

pub open spec fn seq_tree_paths_clean(cs: Seq<FileTreeView>) -> bool
    decreases cs,
{
    forall|i: int| 0 <= i < cs.len() ==> tree_paths_clean(#[trigger] cs[i])
}

impl FileNode {
    /// A fresh node with no children.
    pub fn new(path: String, kind: FileKind) -> (r: Self)
        ensures
            r@ == (FileTreeView { path: path@, kind, children: Seq::<FileTreeView>::empty() }),
    {
        let n = FileNode { path, kind, children: Vec::new() };
        assert(nodes_view(n.children@) =~= Seq::<FileTreeView>::empty());
        n
    }

    /// Insert `child`, unless a child with the same path is already present.
    ///
    /// This keeps child paths unique among siblings, whatever the order of
    /// insertions and whatever the kinds of the children involved.
    pub fn add_child(&mut self, child: FileNode)
        ensures
            final(self)@ == add_child_spec(old(self)@, child@),
    {
        let ghost oldview = self@;
        let ghost childview = child@;
        let mut i: usize = 0;
        proof {
            lemma_nodes_view(self.children@);
        }
        while i < self.children.len()
            invariant
                *self == *old(self),
                oldview == self@,
                childview == child@,
                0 <= i <= self.children.len(),
                nodes_view(self.children@).len() == self.children@.len(),
                forall|k: int|
                    0 <= k < self.children@.len() ==> nodes_view(self.children@)[k] == node_view(
                        self.children@[k],
                    ),
                forall|k: int| 0 <= k < i ==> oldview.children[k].path != childview.path,
            decreases self.children.len() - i,
        {
            if str_eq(self.children[i].path.as_str(), child.path.as_str()) {
                assert(oldview.children[i as int].path == childview.path);
                assert(has_child_path(oldview.children, childview.path));
                return ;
            }
            i += 1;
        }
        assert(!has_child_path(oldview.children, childview.path));
        let ghost oldchildren = self.children@;
        self.children.push(child);
        proof {
            lemma_nodes_view_push(oldchildren, child);
        }
    }

    /// The size measure of the tree: one per node plus one per edge.
    pub fn len(&self) -> (r: usize)
        requires
            tree_len(self@) <= usize::MAX,
        ensures
            r == tree_len(self@),
        decreases *self,
    {
        proof {
            lemma_nodes_view(self.children@);
        }
        let mut total: usize = 0;
        let mut i: usize = 0;
        let ghost cs = nodes_view(self.children@);
        proof {
            assert(cs.skip(0) =~= cs);
        }
        while i < self.children.len()
            invariant
                cs == nodes_view(self.children@),
                cs.len() == self.children@.len(),
                forall|k: int|
                    0 <= k < self.children@.len() ==> cs[k] == node_view(self.children@[k]),
                0 <= i <= self.children.len(),
                total == seq_tree_len(cs) - seq_tree_len(cs.skip(i as int)),
                seq_tree_len(cs.skip(i as int)) <= seq_tree_len(cs),
                seq_tree_len(cs) < tree_len(self@),
                tree_len(self@) <= usize::MAX,
            decreases self.children.len() - i,
        {
            proof {
                assert(cs.skip(i as int).len() > 0);
                assert(cs.skip(i as int)[0] == cs[i as int]);
                assert(cs.skip(i as int).drop_first() =~= cs.skip(i + 1));
                assert(seq_tree_len(cs.skip(i as int)) == tree_len(cs[i as int]) + 1
                    + seq_tree_len(cs.skip(i + 1)));
                lemma_seq_tree_len_skip_le(cs, i as int);
                lemma_seq_tree_len_skip_le(cs, i + 1);
            }
            let sub = self.children[i].len();
            total = total + sub + 1;
            i += 1;
        }
        proof {
            assert(cs.skip(self.children@.len() as int) =~= Seq::<FileTreeView>::empty());
        }
        total + 1
    }

    /// Every path occurring anywhere in the tree, without duplicates.
    pub fn distinct(&self) -> (r: Vec<String>)
        ensures
            distinct_views(r@),
            forall|p: Seq<char>|
                #[trigger] str_views(r@).contains(p) <==> tree_paths(self@).contains(p),
    {
        let mut out: Vec<String> = Vec::new();
        assert(str_views(out@) =~= Seq::<Seq<char>>::empty());
        collect_paths(self, &mut out);
        out
    }

    /// The names of the packages that own a node whose path equals
    /// `target_file`, without duplicates. A shared file may lie under more
    /// than one package and then contributes every owner.
    pub fn find_crates_containing_file(&self, target_file: &str) -> (r: Vec<String>)
        ensures
            distinct_views(r@),
            forall|p: Seq<char>|
                #[trigger] str_views(r@).contains(p) <==> crates_containing(
                    self@,
                    target_file@,
                    None,
                ).contains(p),
    {
        let mut out: Vec<String> = Vec::new();
        assert(str_views(out@) =~= Seq::<Seq<char>>::empty());
        let cur: Option<String> = None;
        visit_crates(self, target_file, &cur, &mut out);
        out
    }

    /// Rewrite every path in the tree to be relative to `workspace_root`;
    /// paths that do not lie under it are left unchanged.
    pub fn to_relative_paths(&mut self, workspace_root: &str)
        ensures
            final(self)@ == relativize_spec(old(self)@, workspace_root@),
    {
        let rebased = relativize_node(self, workspace_root);
        *self = rebased;
    }
}

/// A copy of `n` with every path rebased against `root`.
fn relativize_node(n: &FileNode, root: &str) -> (r: FileNode)
    ensures
        r@ == relativize_spec(n@, root@),
    decreases *n,
{
    proof {
        lemma_nodes_view(n.children@);
    }
    let path = strip_path_prefix(n.path.as_str(), root);
    let mut children: Vec<FileNode> = Vec::new();
    let mut i: usize = 0;
    let ghost cs = nodes_view(n.children@);
    proof {
        lemma_seq_relativize(cs, root@);
        assert(nodes_view(children@) =~= Seq::<FileTreeView>::empty());
    }
    while i < n.children.len()
        invariant
            cs == nodes_view(n.children@),
            cs.len() == n.children@.len(),
            forall|k: int| 0 <= k < cs.len() ==> cs[k] == node_view(n.children@[k]),
            0 <= i <= n.children.len(),
            nodes_view(children@) =~= seq_relativize_spec(cs, root@).take(i as int),
        decreases n.children.len() - i,
    {
        let ghost before = children@;
        let child = relativize_node(&n.children[i], root);
        children.push(child);
        proof {
            lemma_nodes_view_push(before, child);
            lemma_seq_relativize(cs, root@);
            assert(seq_relativize_spec(cs, root@).take(i + 1) =~= seq_relativize_spec(
                cs,
                root@,
            ).take(i as int).push(relativize_spec(cs[i as int], root@)));
        }
        i += 1;
    }
    proof {
        lemma_seq_relativize(cs, root@);
        assert(seq_relativize_spec(cs, root@).take(cs.len() as int) =~= seq_relativize_spec(
            cs,
            root@,
        ));
    }
    let r = FileNode { path, kind: n.kind, children };
    assert(r@ =~= relativize_spec(n@, root@));
    r
}


/// Collect every path of the subtree rooted at `n` into `out`, skipping
/// paths already present.
fn collect_paths(n: &FileNode, out: &mut Vec<String>)
    ensures
        forall|p: Seq<char>|
            #[trigger] str_views(final(out)@).contains(p) <==> (str_views(old(out)@).contains(p)
                || tree_paths(n@).contains(p)),
        distinct_views(old(out)@) ==> distinct_views(final(out)@),
    decreases *n,
{
    proof {
        lemma_nodes_view(n.children@);
    }
    let ghost csv = nodes_view(n.children@);
    push_unique(out, n.path.clone());
    let mut i: usize = 0;
    proof {
        assert(csv.take(0) =~= Seq::<FileTreeView>::empty());
    }
    while i < n.children.len()
        invariant
            csv == nodes_view(n.children@),
            csv.len() == n.children@.len(),
            forall|k: int| 0 <= k < csv.len() ==> csv[k] == node_view(n.children@[k]),
            0 <= i <= n.children.len(),
            forall|p: Seq<char>|
                #[trigger] str_views(out@).contains(p) <==> (str_views(old(out)@).contains(p)
                    || p == node_view(*n).path || seq_tree_paths(csv.take(i as int)).contains(p)),
            distinct_views(old(out)@) ==> distinct_views(out@),
        decreases n.children.len() - i,
    {
        collect_paths(&n.children[i], out);
        proof {
            lemma_seq_tree_paths_push(csv.take(i as int), csv[i as int]);
            assert(csv.take(i + 1) =~= csv.take(i as int).push(csv[i as int]));
        }
        i += 1;
    }
    proof {
        assert(csv.take(csv.len() as int) =~= csv);
        assert(tree_paths(n@) == seq_tree_paths(csv).insert(n@.path));
    }
}

/// Appending a tree to a list adds exactly that tree's paths.
pub proof fn lemma_seq_tree_paths_push(cs: Seq<FileTreeView>, v: FileTreeView)
    ensures
        seq_tree_paths(cs.push(v)) == seq_tree_paths(cs).union(tree_paths(v)),
    decreases cs,
{
    if cs.len() == 0 {
        assert(cs.push(v) =~= seq![v]);
        assert(cs.push(v).drop_first() =~= Seq::<FileTreeView>::empty());
        assert(cs.push(v)[0] == v);
        assert(seq_tree_paths(cs.push(v)) == tree_paths(v).union(
            seq_tree_paths(Seq::<FileTreeView>::empty()),
        ));
        assert(seq_tree_paths(cs.push(v)) =~= seq_tree_paths(cs).union(tree_paths(v)));
    } else {
        lemma_seq_tree_paths_push(cs.drop_first(), v);
        assert(cs.push(v)[0] == cs[0]);
        assert(cs.push(v).drop_first() =~= cs.drop_first().push(v));
        assert(seq_tree_paths(cs.push(v)) =~= seq_tree_paths(cs).union(tree_paths(v)));
    }
}

/// The name a `Crate` node gives to files below it: the name of the
/// directory holding its manifest, when there is one.
pub open spec fn crate_name_opt(p: Seq<char>) -> Option<Seq<char>> {
    let name = file_name_spec(parent_spec(p));
    if name.len() == 0 {
        None
    } else {
        Some(name)
    }
}

/// The set of package names whose subtree holds a node with path `target`,
/// walking `v` with `cur` as the name of the nearest enclosing `Crate` node.
pub open spec fn crates_containing(
    v: FileTreeView,
    target: Seq<char>,
    cur: Option<Seq<char>>,
) -> Set<Seq<char>>
    decreases v,
{
    let cur2 = if v.kind == FileKind::Crate {
        crate_name_opt(v.path)
    } else {
        cur
    };
    let here: Set<Seq<char>> = if v.path == target {
        match cur2 {
            Some(n) => set![n],
            None => Set::<Seq<char>>::empty(),
        }
    } else {
        Set::<Seq<char>>::empty()
    };
    here.union(seq_crates_containing(v.children, target, cur2))
}

pub open spec fn seq_crates_containing(
    cs: Seq<FileTreeView>,
    target: Seq<char>,
    cur: Option<Seq<char>>,
) -> Set<Seq<char>>
    decreases cs,
{
    if cs.len() == 0 {
        Set::<Seq<char>>::empty()
    } else {
        crates_containing(cs[0], target, cur).union(
            seq_crates_containing(cs.drop_first(), target, cur),
        )
    }
}

/// Appending a tree to a list adds exactly that tree's contributions.
pub proof fn lemma_seq_crates_containing_push(
    cs: Seq<FileTreeView>,
    v: FileTreeView,
    target: Seq<char>,
    cur: Option<Seq<char>>,
)
    ensures
        seq_crates_containing(cs.push(v), target, cur) == seq_crates_containing(
            cs,
            target,
            cur,
        ).union(crates_containing(v, target, cur)),
    decreases cs,
{
    if cs.len() == 0 {
        assert(cs.push(v) =~= seq![v]);
        assert(cs.push(v).drop_first() =~= Seq::<FileTreeView>::empty());
        assert(cs.push(v)[0] == v);
        assert(seq_crates_containing(cs.push(v), target, cur) == crates_containing(
            v,
            target,
            cur,
        ).union(seq_crates_containing(Seq::<FileTreeView>::empty(), target, cur)));
        assert(seq_crates_containing(cs.push(v), target, cur) =~= seq_crates_containing(
            cs,
            target,
            cur,
        ).union(crates_containing(v, target, cur)));
    } else {
        lemma_seq_crates_containing_push(cs.drop_first(), v, target, cur);
        assert(cs.push(v)[0] == cs[0]);
        assert(cs.push(v).drop_first() =~= cs.drop_first().push(v));
        assert(seq_crates_containing(cs.push(v), target, cur) =~= seq_crates_containing(
            cs,
            target,
            cur,
        ).union(crates_containing(v, target, cur)));
    }
}

/// The view of an optional string.
pub open spec fn opt_str_view(o: Option<String>) -> Option<Seq<char>> {
    match o {
        Some(s) => Some(s@),
        None => None,
    }
}

/// The name of the directory holding the manifest at `p`, when any.
fn crate_name_of(p: &str) -> (r: Option<String>)
    ensures
        opt_str_view(r) == crate_name_opt(p@),
{
    let par = parent_of(p);
    let name = file_name_of(par.as_str());
    if name.as_str().unicode_len() == 0 {
        None
    } else {
        Some(name)
    }
}

/// Walk the subtree at `n` collecting, without duplicates, the crate names
/// that contain a node with path `target`.
fn visit_crates(n: &FileNode, target: &str, cur: &Option<String>, out: &mut Vec<String>)
    ensures
        forall|p: Seq<char>|
            #[trigger] str_views(final(out)@).contains(p) <==> (str_views(old(out)@).contains(p)
                || crates_containing(n@, target@, opt_str_view(*cur)).contains(p)),
        distinct_views(old(out)@) ==> distinct_views(final(out)@),
    decreases *n,
{
    proof {
        lemma_nodes_view(n.children@);
    }
    let ghost csv = nodes_view(n.children@);
    let cur2: Option<String> = if matches!(n.kind, FileKind::Crate) {
        crate_name_of(n.path.as_str())
    } else {
        match cur {
            Some(s) => Some(s.clone()),
            None => None,
        }
    };
    let ghost cur2v = opt_str_view(cur2);
    let ghost here: Set<Seq<char>> = if n@.path == target@ {
        match cur2v {
            Some(nm) => set![nm],
            None => Set::<Seq<char>>::empty(),
        }
    } else {
        Set::<Seq<char>>::empty()
    };
    if str_eq(n.path.as_str(), target) {
        match &cur2 {
            Some(name) => {
                push_unique(out, name.clone());
            },
            None => {},
        }
    }
    let mut i: usize = 0;
    proof {
        assert(csv.take(0) =~= Seq::<FileTreeView>::empty());
    }
    while i < n.children.len()
        invariant
            csv == nodes_view(n.children@),
            csv.len() == n.children@.len(),
            forall|k: int| 0 <= k < csv.len() ==> csv[k] == node_view(n.children@[k]),
            0 <= i <= n.children.len(),
            cur2v == opt_str_view(cur2),
            forall|p: Seq<char>|
                #[trigger] str_views(out@).contains(p) <==> (str_views(old(out)@).contains(p)
                    || here.contains(p) || seq_crates_containing(
                    csv.take(i as int),
                    target@,
                    cur2v,
                ).contains(p)),
            distinct_views(old(out)@) ==> distinct_views(out@),
        decreases n.children.len() - i,
    {
        visit_crates(&n.children[i], target, &cur2, out);
        proof {
            lemma_seq_crates_containing_push(csv.take(i as int), csv[i as int], target@, cur2v);
            assert(csv.take(i + 1) =~= csv.take(i as int).push(csv[i as int]));
        }
        i += 1;
    }
    proof {
        assert(csv.take(csv.len() as int) =~= csv);
        assert(crates_containing(n@, target@, opt_str_view(*cur)) == here.union(
            seq_crates_containing(csv, target@, cur2v),
        ));
    }
}

pub proof fn lemma_seq_tree_len_skip_le(cs: Seq<FileTreeView>, i: int)
    requires
        0 <= i <= cs.len(),
    ensures
        seq_tree_len(cs.skip(i)) <= seq_tree_len(cs),
    decreases i,
{
    if i > 0 {
        if cs.len() > 0 {
            assert(cs.drop_first().skip(i - 1) =~= cs.skip(i));
            lemma_seq_tree_len_skip_le(cs.drop_first(), i - 1);
        }
    } else {
        assert(cs.skip(0) =~= cs);
    }
}

/// Inserting a second child with an already-present path is a no-op: a
/// node's children stay unique by path, whatever the insertion order and
/// whatever the kinds of the two children.
pub proof fn lemma_add_child_dedup(v: FileTreeView, c1: FileTreeView, c2: FileTreeView)
    requires
        c1.path == c2.path,
    ensures
        add_child_spec(add_child_spec(v, c1), c2) == add_child_spec(v, c1),
{
    let v1 = add_child_spec(v, c1);
    if has_child_path(v.children, c1.path) {
        assert(v1 == v);
    } else {
        assert(v1.children == v.children.push(c1));
        assert(v1.children[v.children.len() as int].path == c2.path);
        assert(has_child_path(v1.children, c2.path));
    }
}

/// Rebasing a tree is idempotent: paths that already fail the prefix test
/// are fixed points, and one pass leaves no path that still lies under an
/// absolute root.
pub proof fn lemma_relativize_idempotent(v: FileTreeView, root: Seq<char>)
    requires
        root.len() > 0,
        root[0] == '/',
        tree_paths_clean(v),
    ensures
        relativize_spec(relativize_spec(v, root), root) == relativize_spec(v, root),
    decreases v,
{
    lemma_strip_prefix_fixed(v.path, root);
    lemma_seq_relativize(v.children, root);
    lemma_seq_relativize(seq_relativize_spec(v.children, root), root);
    assert forall|i: int| 0 <= i < v.children.len() implies relativize_spec(
        relativize_spec(v.children[i], root),
        root,
    ) == relativize_spec(v.children[i], root) by {
        assert(tree_paths_clean(v.children[i]));
        lemma_relativize_idempotent(v.children[i], root);
    }
    assert(seq_relativize_spec(seq_relativize_spec(v.children, root), root) =~= seq_relativize_spec(
        v.children,
        root,
    ));
    assert(relativize_spec(relativize_spec(v, root), root) =~= relativize_spec(v, root));
}

/// A path that does not lie under the root is a fixed point of rebasing.
pub proof fn lemma_strip_non_prefixed_fixed(p: Seq<char>, root: Seq<char>)
    requires
        !path_has_prefix(p, root),
    ensures
        strip_prefix_spec(p, root) == p,
{
}

/// A path that holds no doubled separator, once stripped of an absolute
/// root, no longer lies under that root.
pub proof fn lemma_strip_prefix_fixed(p: Seq<char>, root: Seq<char>)
    requires
        root.len() > 0,
        root[0] == '/',
        no_double_slash(p),
    ensures
        strip_prefix_spec(strip_prefix_spec(p, root), root) == strip_prefix_spec(p, root),
{
    let r = strip_prefix_spec(p, root);
    if p == root {
        assert(r =~= Seq::<char>::empty());
        assert(r.len() == 0);
        assert(!path_has_prefix(r, root));
    } else if path_has_prefix(p, root) {
        assert(p.len() > root.len());
        assert(p[root.len() as int] == '/');
        assert(r =~= p.subrange(root.len() + 1int, p.len() as int));
        if r.len() > 0 {
            assert(r[0] == p[root.len() + 1int]);
            assert(!(p[root.len() as int] == '/' && p[root.len() + 1int] == '/'));
            assert(r[0] != '/');
        }
        if path_has_prefix(r, root) {
            if r == root {
                assert(r[0] == '/');
                assert(false);
            } else {
                assert(r.subrange(0, root.len() as int) == root);
                assert(r.subrange(0, root.len() as int)[0] == r[0]);
                assert(r[0] == '/');
                assert(false);
            }
        }
        assert(!path_has_prefix(r, root));
    } else {
        assert(r == p);
    }
}

} // verus!
