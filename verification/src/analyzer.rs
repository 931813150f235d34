//! The source-file analyzer: a single traversal over a tagged syntax shape
//! that accumulates the dependency facts of one file.
//!
//! The shape keeps exactly what the analysis reads from a parsed file:
//! module declarations and their path-override attributes, inline module
//! bodies, macro invocations, call expressions with their callee's final
//! path segment and first argument, and string constants. A call argument
//! resolves only when it is a direct string literal or an identifier naming
//! a string constant recorded earlier in the same file.

use vstd::prelude::*;

verus! {

use vstd::string::StrSliceExecFns;
use crate::strutil::{
    str_views, trim_spec, trim_str, str_eq, contains_string, clone_strings,
};
use crate::config::{ParserConfig, ParserConfigView};

/// The first positional argument of a call, as far as the analyzer reads
/// it.
#[derive(Debug)]
pub enum AstArg {
    /// A direct string literal.
    StrLit(String),
    /// A bare identifier.
    Ident(String),
    /// Any other expression shape; never resolves.
    Opaque,
}

/// One node of the analyzed syntax shape, in source order.
#[derive(Debug)]
pub enum AstNode {
    /// A constant or static item bound to a string literal.
    ConstStr { name: String, value: String },
    /// A module declaration without an inline body, with the values of its
    /// path-override attributes in attribute order.
    ModDecl { name: String, path_attrs: Vec<AstArg> },
    /// A module declaration with an inline body.
    ModBody { name: String, children: Vec<AstNode> },
    /// A macro invocation in item position, with its raw token text.
    MacroItem { name: String, tokens: String },
    /// A macro invocation in expression position, with its body when that
    /// body is a single string literal.
    MacroExpr { name: String, lit: Option<String> },
    /// A call expression: the final path segment of its callee when the
    /// callee is a plain path, the shape of its first argument, and every
    /// node nested in its arguments.
    Call { method: Option<String>, arg: Option<AstArg>, children: Vec<AstNode> },
    /// Any other construct, kept only for the nodes nested inside it.
    Group { children: Vec<AstNode> },
}

/// The facts one analyzed file contributes.
#[derive(Debug)]
pub struct SourceFacts {
    /// Module names declared at file scope without inline bodies.
    pub mods: Vec<String>,
    /// Literal-inclusion targets.
    pub includes: Vec<String>,
    /// Module name to override path, from path-override attributes.
    pub mod_paths: Vec<(String, String)>,
    /// Module names declared inside other modules, keyed by the enclosing
    /// module path.
    pub nested_mods: Vec<(Vec<String>, String)>,
    /// String constants recorded so far, in source order.
    pub constants: Vec<(String, String)>,
    /// Resolved first arguments of qualifying file-reference calls.
    pub file_refs: Vec<String>,
}

/// The views of a list of string pairs.
pub open spec fn pair_views(v: Seq<(String, String)>) -> Seq<(Seq<char>, Seq<char>)> {
    v.map_values(|e: (String, String)| (e.0@, e.1@))
}

/// The views of a list of nested-module records.
pub open spec fn nested_views(v: Seq<(Vec<String>, String)>) -> Seq<(Seq<Seq<char>>, Seq<char>)> {
    v.map_values(|e: (Vec<String>, String)| (str_views(e.0@), e.1@))
}

/// The mathematical shape of a facts record.
#[verifier::ext_equal]
pub ghost struct FactsView {
    pub mods: Seq<Seq<char>>,
    pub includes: Seq<Seq<char>>,
    pub mod_paths: Seq<(Seq<char>, Seq<char>)>,
    pub nested_mods: Seq<(Seq<Seq<char>>, Seq<char>)>,
    pub constants: Seq<(Seq<char>, Seq<char>)>,
    pub file_refs: Seq<Seq<char>>,
}

impl View for SourceFacts {
    type V = FactsView;

    open spec fn view(&self) -> FactsView {
        FactsView {
            mods: str_views(self.mods@),
            includes: str_views(self.includes@),
            mod_paths: pair_views(self.mod_paths@),
            nested_mods: nested_views(self.nested_mods@),
            constants: pair_views(self.constants@),
            file_refs: str_views(self.file_refs@),
        }
    }
}

/// A facts record with nothing in it.
pub open spec fn empty_facts() -> FactsView {
    FactsView {
        mods: Seq::<Seq<char>>::empty(),
        includes: Seq::<Seq<char>>::empty(),
        mod_paths: Seq::<(Seq<char>, Seq<char>)>::empty(),
        nested_mods: Seq::<(Seq<Seq<char>>, Seq<char>)>::empty(),
        constants: Seq::<(Seq<char>, Seq<char>)>::empty(),
        file_refs: Seq::<Seq<char>>::empty(),
    }
}

/// The value of the latest recorded constant named `k`, if any.
pub open spec fn const_lookup(consts: Seq<(Seq<char>, Seq<char>)>, k: Seq<char>) -> Option<
    Seq<char>,
>
    decreases consts.len(),
{
    if consts.len() == 0 {
        None
    } else if consts.last().0 == k {
        Some(consts.last().1)
    } else {
        const_lookup(consts.drop_last(), k)
    }
}

/// What a call argument resolves to: a direct literal, or the value of an
/// earlier string constant; other shapes resolve to nothing.
pub open spec fn expr_to_str_spec(consts: Seq<(Seq<char>, Seq<char>)>, arg: AstArg) -> Option<
    Seq<char>,
> {
    match arg {
        AstArg::StrLit(s) => Some(s@),
        AstArg::Ident(id) => const_lookup(consts, id@),
        AstArg::Opaque => None,
    }
}

/// The first path-override attribute value that resolves.
pub open spec fn extract_path_spec(
    consts: Seq<(Seq<char>, Seq<char>)>,
    attrs: Seq<AstArg>,
) -> Option<Seq<char>>
    decreases attrs.len(),
{
    if attrs.len() == 0 {
        None
    } else {
        match expr_to_str_spec(consts, attrs[0]) {
            Some(p) => Some(p),
            None => extract_path_spec(consts, attrs.drop_first()),
        }
    }
}

/// The token text up to the first comma.
pub open spec fn take_until_comma(s: Seq<char>) -> Seq<char>
    decreases s.len(),
{
    if s.len() == 0 {
        Seq::<char>::empty()
    } else if s[0] == ',' {
        Seq::<char>::empty()
    } else {
        seq![s[0]] + take_until_comma(s.drop_first())
    }
}

/// The facts after folding one node into `acc` while inside the module
/// path `path`.
pub open spec fn collect_node(
    cfg: ParserConfigView,
    node: AstNode,
    path: Seq<Seq<char>>,
    acc: FactsView,
) -> FactsView
    decreases node,
{
    match node {
        AstNode::ConstStr { name, value } => FactsView {
            constants: acc.constants.push((name@, value@)),
            ..acc
        },
        AstNode::ModDecl { name, path_attrs } => {
            match extract_path_spec(acc.constants, path_attrs@) {
                Some(p) => FactsView { mod_paths: acc.mod_paths.push((name@, p)), ..acc },
                None => {
                    if path.len() == 0 {
                        FactsView { mods: acc.mods.push(name@), ..acc }
                    } else {
                        FactsView { nested_mods: acc.nested_mods.push((path, name@)), ..acc }
                    }
                },
            }
        },
        AstNode::ModBody { name, children } => collect_nodes(
            cfg,
            children@,
            path.push(name@),
            acc,
        ),
        AstNode::MacroItem { name, tokens } => {
            if cfg.mods && cfg.mod_macros.contains(name@) {
                let chunk = trim_spec(take_until_comma(tokens@));
                if chunk.len() > 0 {
                    if path.len() == 0 {
                        FactsView { mods: acc.mods.push(chunk), ..acc }
                    } else {
                        FactsView { nested_mods: acc.nested_mods.push((path, chunk)), ..acc }
                    }
                } else {
                    acc
                }
            } else {
                acc
            }
        },
        AstNode::MacroExpr { name, lit } => {
            if cfg.includes && cfg.include_macros.contains(name@) {
                match lit {
                    Some(l) => FactsView { includes: acc.includes.push(l@), ..acc },
                    None => acc,
                }
            } else {
                acc
            }
        },
        AstNode::Call { method, arg, children } => {
            let acc1 = if cfg.file_refs {
                match method {
                    Some(m) => {
                        if cfg.file_methods.contains(m@) {
                            match arg {
                                Some(a) => {
                                    match expr_to_str_spec(acc.constants, a) {
                                        Some(p) => FactsView {
                                            file_refs: acc.file_refs.push(p),
                                            ..acc
                                        },
                                        None => acc,
                                    }
                                },
                                None => acc,
                            }
                        } else {
                            acc
                        }
                    },
                    None => acc,
                }
            } else {
                acc
            };
            collect_nodes(cfg, children@, path, acc1)
        },
        AstNode::Group { children } => collect_nodes(cfg, children@, path, acc),
    }
}

/// The facts after folding a node list, left to right.
pub open spec fn collect_nodes(
    cfg: ParserConfigView,
    nodes: Seq<AstNode>,
    path: Seq<Seq<char>>,
    acc: FactsView,
) -> FactsView
    decreases nodes,
{
    if nodes.len() == 0 {
        acc
    } else {
        collect_nodes(cfg, nodes.drop_first(), path, collect_node(cfg, nodes[0], path, acc))
    }
}

/// The value of the latest recorded constant named `k`, if any.
fn const_lookup_exec(consts: &Vec<(String, String)>, k: &str) -> (r: Option<String>)
    ensures
        match r {
            Some(v) => const_lookup(pair_views(consts@), k@) == Some(v@),
            None => const_lookup(pair_views(consts@), k@) is None,
        },
{
    let ghost cv = pair_views(consts@);
    let mut i: usize = consts.len();
    proof {
        assert(cv.take(cv.len() as int) =~= cv);
    }
    while i > 0
        invariant
            cv == pair_views(consts@),
            0 <= i <= cv.len(),
            const_lookup(cv, k@) == const_lookup(cv.take(i as int), k@),
        decreases i,
    {
        let ghost pre = cv.take(i as int);
        proof {
            assert(pre.last() == cv[i - 1]);
            assert(cv[i - 1] == (consts@[i - 1].0@, consts@[i - 1].1@));
            assert(pre.drop_last() =~= cv.take(i - 1));
        }
        if str_eq(consts[i - 1].0.as_str(), k) {
            return Some(consts[i - 1].1.clone());
        }
        i -= 1;
    }
    proof {
        assert(cv.take(0) =~= Seq::<(Seq<char>, Seq<char>)>::empty());
    }
    None
}

/// What a call argument resolves to.
fn expr_to_str_exec(consts: &Vec<(String, String)>, arg: &AstArg) -> (r: Option<String>)
    ensures
        match r {
            Some(v) => expr_to_str_spec(pair_views(consts@), *arg) == Some(v@),
            None => expr_to_str_spec(pair_views(consts@), *arg) is None,
        },
{
    match arg {
        AstArg::StrLit(s) => Some(s.clone()),
        AstArg::Ident(id) => const_lookup_exec(consts, id.as_str()),
        AstArg::Opaque => None,
    }
}

/// The first path-override attribute value that resolves.
fn extract_path_exec(consts: &Vec<(String, String)>, attrs: &Vec<AstArg>) -> (r: Option<String>)
    ensures
        match r {
            Some(v) => extract_path_spec(pair_views(consts@), attrs@) == Some(v@),
            None => extract_path_spec(pair_views(consts@), attrs@) is None,
        },
{
    let ghost av = attrs@;
    let mut i: usize = 0;
    proof {
        assert(av.skip(0) =~= av);
    }
    while i < attrs.len()
        invariant
            av == attrs@,
            0 <= i <= av.len(),
            extract_path_spec(pair_views(consts@), av) == extract_path_spec(
                pair_views(consts@),
                av.skip(i as int),
            ),
        decreases av.len() - i,
    {
        proof {
            assert(av.skip(i as int)[0] == av[i as int]);
            assert(av.skip(i as int).drop_first() =~= av.skip(i + 1));
        }
        match expr_to_str_exec(consts, &attrs[i]) {
            Some(p) => {
                return Some(p);
            },
            None => {},
        }
        i += 1;
    }
    proof {
        assert(av.skip(av.len() as int) =~= Seq::<AstArg>::empty());
    }
    None
}

/// The token text up to the first comma, as a fresh string.
fn first_chunk(s: &str) -> (r: String)
    ensures
        r@ == take_until_comma(s@),
{
    let len = s.unicode_len();
    let mut i: usize = 0;
    while i < len
        invariant
            len == s@.len(),
            0 <= i <= len,
            forall|j: int| 0 <= j < i ==> s@[j] != ',',
        decreases len - i,
    {
        if s.get_char(i) == ',' {
            proof {
                lemma_take_until_at(s@, i as int);
            }
            return s.substring_char(0, i).to_owned();
        }
        i += 1;
    }
    proof {
        lemma_take_until_at(s@, len as int);
        assert(s@.subrange(0, len as int) =~= s@);
    }
    s.substring_char(0, len).to_owned()
}

/// The text up to the first comma is exactly the prefix before it.
pub proof fn lemma_take_until_at(s: Seq<char>, i: int)
    requires
        0 <= i <= s.len(),
        forall|j: int| 0 <= j < i ==> s[j] != ',',
        i < s.len() ==> s[i] == ',',
    ensures
        take_until_comma(s) == s.take(i),
    decreases i,
{
    if s.len() == 0 {
        assert(s.take(0) =~= s);
    } else if i == 0 {
        assert(s.take(0) =~= Seq::<char>::empty());
    } else {
        assert(s[0] != ',');
        assert forall|j: int| 0 <= j < i - 1 implies s.drop_first()[j] != ',' by {
            assert(s.drop_first()[j] == s[j + 1]);
        }
        if i - 1 < s.drop_first().len() {
            assert(s.drop_first()[i - 1] == s[i]);
        }
        lemma_take_until_at(s.drop_first(), i - 1);
        assert(seq![s[0]] + s.drop_first().take(i - 1) =~= s.take(i));
    }
}

} // verus!

verus! {

/// Fold the nodes of one subtree into `facts`, inside module path `path`;
/// the path is restored before returning.
fn walk_nodes(
    cfg: &ParserConfig,
    nodes: &Vec<AstNode>,
    path: &mut Vec<String>,
    facts: &mut SourceFacts,
)
    ensures
        final(path)@ == old(path)@,
        final(facts)@ == collect_nodes(cfg@, nodes@, str_views(old(path)@), old(facts)@),
    decreases nodes@,
{
    let ghost path0 = path@;
    let ghost pathv = str_views(path0);
    let ghost f0 = facts@;
    let mut i: usize = 0;
    proof {
        assert(nodes@.skip(0) =~= nodes@);
    }
    while i < nodes.len()
        invariant
            path@ == path0,
            pathv == str_views(path0),
            0 <= i <= nodes@.len(),
            collect_nodes(cfg@, nodes@, pathv, f0) == collect_nodes(
                cfg@,
                nodes@.skip(i as int),
                pathv,
                facts@,
            ),
        decreases nodes@.len() - i,
    {
        let ghost rem = nodes@.skip(i as int);
        let ghost fcur = facts@;
        proof {
            assert(rem[0] == nodes@[i as int]);
            assert(rem.drop_first() =~= nodes@.skip(i + 1));
            assert(decreases_to!(nodes@ => nodes@[i as int]));
        }
        match &nodes[i] {
            AstNode::ConstStr { name, value } => {
                facts.constants.push((name.clone(), value.clone()));
                proof {
                    assert(pair_views(facts.constants@) =~= fcur.constants.push(
                        (name@, value@),
                    ));
                    assert(facts@ =~= collect_node(cfg@, nodes@[i as int], pathv, fcur));
                }
            },
            AstNode::ModDecl { name, path_attrs } => {
                match extract_path_exec(&facts.constants, path_attrs) {
                    Some(p) => {
                        facts.mod_paths.push((name.clone(), p));
                        proof {
                            assert(pair_views(facts.mod_paths@) =~= fcur.mod_paths.push(
                                (name@, extract_path_spec(fcur.constants, path_attrs@).unwrap()),
                            ));
                            assert(facts@ =~= collect_node(cfg@, nodes@[i as int], pathv, fcur));
                        }
                    },
                    None => {
                        if path.len() == 0 {
                            facts.mods.push(name.clone());
                            proof {
                                assert(str_views(facts.mods@) =~= fcur.mods.push(name@));
                                assert(facts@ =~= collect_node(
                                    cfg@,
                                    nodes@[i as int],
                                    pathv,
                                    fcur,
                                ));
                            }
                        } else {
                            let parent = clone_strings(path);
                            facts.nested_mods.push((parent, name.clone()));
                            proof {
                                assert(nested_views(facts.nested_mods@) =~= fcur.nested_mods.push(
                                    (pathv, name@),
                                ));
                                assert(pathv.len() > 0);
                                assert(facts@ =~= collect_node(
                                    cfg@,
                                    nodes@[i as int],
                                    pathv,
                                    fcur,
                                ));
                            }
                        }
                    },
                }
            },
            AstNode::ModBody { name, children } => {
                proof {
                    assert(decreases_to!(nodes@[i as int] => *children));
                    assert(decreases_to!(*children => children@));
                }
                let ghost pmid = path@;
                path.push(name.clone());
                proof {
                    assert(str_views(path@) =~= pathv.push(name@));
                }
                walk_nodes(cfg, children, path, facts);
                path.pop();
                proof {
                    assert(path@ =~= path0);
                    assert(facts@ =~= collect_node(cfg@, nodes@[i as int], pathv, fcur));
                }
            },
            AstNode::MacroItem { name, tokens } => {
                if cfg.mods && contains_string(&cfg.mod_macros, name.as_str()) {
                    let raw = first_chunk(tokens.as_str());
                    let chunk = trim_str(raw.as_str());
                    if chunk.as_str().unicode_len() > 0 {
                        if path.len() == 0 {
                            facts.mods.push(chunk);
                            proof {
                                assert(str_views(facts.mods@) =~= fcur.mods.push(trim_spec(
                                    take_until_comma(tokens@),
                                )));
                                assert(facts@ =~= collect_node(
                                    cfg@,
                                    nodes@[i as int],
                                    pathv,
                                    fcur,
                                ));
                            }
                        } else {
                            let parent = clone_strings(path);
                            facts.nested_mods.push((parent, chunk));
                            proof {
                                assert(nested_views(facts.nested_mods@) =~= fcur.nested_mods.push(
                                    (pathv, trim_spec(take_until_comma(tokens@))),
                                ));
                                assert(pathv.len() > 0);
                                assert(facts@ =~= collect_node(
                                    cfg@,
                                    nodes@[i as int],
                                    pathv,
                                    fcur,
                                ));
                            }
                        }
                    } else {
                        proof {
                            assert(facts@ =~= collect_node(cfg@, nodes@[i as int], pathv, fcur));
                        }
                    }
                } else {
                    proof {
                        assert(facts@ =~= collect_node(cfg@, nodes@[i as int], pathv, fcur));
                    }
                }
            },
            AstNode::MacroExpr { name, lit } => {
                if cfg.includes && contains_string(&cfg.include_macros, name.as_str()) {
                    match lit {
                        Some(l) => {
                            facts.includes.push(l.clone());
                            proof {
                                assert(str_views(facts.includes@) =~= fcur.includes.push(l@));
                                assert(facts@ =~= collect_node(
                                    cfg@,
                                    nodes@[i as int],
                                    pathv,
                                    fcur,
                                ));
                            }
                        },
                        None => {
                            proof {
                                assert(facts@ =~= collect_node(
                                    cfg@,
                                    nodes@[i as int],
                                    pathv,
                                    fcur,
                                ));
                            }
                        },
                    }
                } else {
                    proof {
                        assert(facts@ =~= collect_node(cfg@, nodes@[i as int], pathv, fcur));
                    }
                }
            },
            AstNode::Call { method, arg, children } => {
                proof {
                    assert(decreases_to!(nodes@[i as int] => *children));
                    assert(decreases_to!(*children => children@));
                }
                if cfg.file_refs {
                    match method {
                        Some(m) => {
                            if contains_string(&cfg.file_methods, m.as_str()) {
                                match arg {
                                    Some(a) => {
                                        match expr_to_str_exec(&facts.constants, a) {
                                            Some(p) => {
                                                facts.file_refs.push(p);
                                                proof {
                                                    assert(str_views(facts.file_refs@)
                                                        =~= fcur.file_refs.push(expr_to_str_spec(
                                                        fcur.constants,
                                                        *a,
                                                    ).unwrap()));
                                                }
                                            },
                                            None => {},
                                        }
                                    },
                                    None => {},
                                }
                            }
                        },
                        None => {},
                    }
                }
                let ghost fmid = facts@;
                walk_nodes(cfg, children, path, facts);
                proof {
                    assert(facts@ =~= collect_node(cfg@, nodes@[i as int], pathv, fcur));
                }
            },
            AstNode::Group { children } => {
                proof {
                    assert(decreases_to!(nodes@[i as int] => *children));
                    assert(decreases_to!(*children => children@));
                }
                walk_nodes(cfg, children, path, facts);
                proof {
                    assert(facts@ =~= collect_node(cfg@, nodes@[i as int], pathv, fcur));
                }
            },
        }
        i += 1;
    }
    proof {
        assert(nodes@.skip(nodes@.len() as int) =~= Seq::<AstNode>::empty());
    }
}

/// The facts of one file: the fold of its node list under `config`,
/// starting at file scope with nothing recorded.
pub fn collect_facts(nodes: &Vec<AstNode>, config: &ParserConfig) -> (r: SourceFacts)
    ensures
        r@ == collect_nodes(config@, nodes@, Seq::<Seq<char>>::empty(), empty_facts()),
{
    let mut path: Vec<String> = Vec::new();
    let mut facts = SourceFacts {
        mods: Vec::new(),
        includes: Vec::new(),
        mod_paths: Vec::new(),
        nested_mods: Vec::new(),
        constants: Vec::new(),
        file_refs: Vec::new(),
    };
    proof {
        assert(facts@ =~= empty_facts());
        assert(str_views(path@) =~= Seq::<Seq<char>>::empty());
    }
    walk_nodes(config, nodes, &mut path, &mut facts);
    facts
}

} // verus!
