//! Configuration of the analyzer: global parser settings, per-package
//! overrides, exclusion patterns and trip-wire patterns.

use vstd::prelude::*;

verus! {

use vstd::string::StringExecFns;
use crate::strutil::{str_eq, str_views, clone_strings};

/// Per-package settings of the source analyzer.
#[derive(Debug)]
pub struct ParserConfig {
    /// Follow heuristic file-reference calls.
    pub file_refs: bool,
    /// The callee names that count as file references.
    pub file_methods: Vec<String>,
    /// Follow literal-inclusion directives.
    pub includes: bool,
    /// The macro names that count as literal inclusions.
    pub include_macros: Vec<String>,
    /// Follow module declarations.
    pub mods: bool,
    /// The macro names that declare modules.
    pub mod_macros: Vec<String>,
    /// Additionally glob-match assumed files under the package directory.
    pub assume_mode: bool,
    /// The assume glob patterns.
    pub assume_patterns: Vec<String>,
}

/// The mathematical shape of a parser configuration.
#[verifier::ext_equal]
pub ghost struct ParserConfigView {
    pub file_refs: bool,
    pub file_methods: Seq<Seq<char>>,
    pub includes: bool,
    pub include_macros: Seq<Seq<char>>,
    pub mods: bool,
    pub mod_macros: Seq<Seq<char>>,
    pub assume_mode: bool,
    pub assume_patterns: Seq<Seq<char>>,
}

impl View for ParserConfig {
    type V = ParserConfigView;

    open spec fn view(&self) -> ParserConfigView {
        ParserConfigView {
            file_refs: self.file_refs,
            file_methods: str_views(self.file_methods@),
            includes: self.includes,
            include_macros: str_views(self.include_macros@),
            mods: self.mods,
            mod_macros: str_views(self.mod_macros@),
            assume_mode: self.assume_mode,
            assume_patterns: str_views(self.assume_patterns@),
        }
    }
}

impl ParserConfig {
    /// A fresh configuration with the same settings.
    pub fn duplicate(&self) -> (r: ParserConfig)
        ensures
            r@ == self@,
    {
        let r = ParserConfig {
            file_refs: self.file_refs,
            file_methods: clone_strings(&self.file_methods),
            includes: self.includes,
            include_macros: clone_strings(&self.include_macros),
            mods: self.mods,
            mod_macros: clone_strings(&self.mod_macros),
            assume_mode: self.assume_mode,
            assume_patterns: clone_strings(&self.assume_patterns),
        };
        assert(r@ =~= self@);
        r
    }
}

/// Settings for the version-control diff.
#[derive(Debug)]
pub struct GitConfig {
    /// The remote branch to diff against; detected when absent.
    pub remote_branch: Option<String>,
}

/// The whole configuration: parser defaults, per-package overrides keyed by
/// `parser.<package>`, exclusion patterns and trip-wire patterns.
#[derive(Debug)]
pub struct MainConfig {
    pub parser: ParserConfig,
    pub git: Option<GitConfig>,
    pub file_exclude_patterns: Vec<String>,
    pub trip_wire_patterns: Vec<String>,
    pub crate_configs: Vec<(String, ParserConfig)>,
}

/// First-match lookup of a parser override by key.
pub open spec fn lookup_cfg(entries: Seq<(String, ParserConfig)>, k: Seq<char>) -> Option<
    ParserConfigView,
>
    decreases entries.len(),
{
    if entries.len() == 0 {
        None
    } else if entries[0].0@ == k {
        Some(entries[0].1@)
    } else {
        lookup_cfg(entries.drop_first(), k)
    }
}

/// The parser settings a configuration gives to the package `name`: the
/// override stored under `parser.<name>`, or the global defaults.
pub open spec fn crate_config_spec(c: MainConfig, name: Seq<char>) -> ParserConfigView {
    match lookup_cfg(c.crate_configs@, "parser."@ + name) {
        Some(v) => v,
        None => c.parser@,
    }
}

impl MainConfig {
    /// The parser settings for `crate_name`: the override stored under
    /// `parser.<crate_name>`, or the global defaults when none exists.
    pub fn crate_config(&self, crate_name: &str) -> (r: ParserConfig)
        ensures
            r@ == crate_config_spec(*self, crate_name@),
    {
        let mut key: String = "parser.".to_owned();
        key.append(crate_name);
        let ghost keyv = "parser."@ + crate_name@;
        assert(key@ == keyv);
        let ghost es = self.crate_configs@;
        let mut i: usize = 0;
        proof {
            assert(es.skip(0) =~= es);
        }
        while i < self.crate_configs.len()
            invariant
                es == self.crate_configs@,
                keyv == "parser."@ + crate_name@,
                key@ == keyv,
                0 <= i <= es.len(),
                lookup_cfg(es, keyv) == lookup_cfg(es.skip(i as int), keyv),
            decreases es.len() - i,
        {
            proof {
                assert(es.skip(i as int)[0] == es[i as int]);
                assert(es.skip(i as int).drop_first() =~= es.skip(i + 1));
            }
            if str_eq(self.crate_configs[i].0.as_str(), key.as_str()) {
                return self.crate_configs[i].1.duplicate();
            }
            i += 1;
        }
        proof {
            assert(es.skip(es.len() as int) =~= Seq::<(String, ParserConfig)>::empty());
        }
        self.parser.duplicate()
    }
}

/// The default for settings that are on unless configured off.
pub fn default_true() -> (r: bool)
    ensures
        r == true,
{
    true
}

/// The default for settings that are off unless configured on.
pub fn default_false() -> (r: bool)
    ensures
        r == false,
{
    false
}

/// The default exclusion patterns: dot files and the build-output
/// directory.
pub fn default_file_excludes() -> (r: Vec<String>)
    ensures
        str_views(r@) =~= seq![".*"@, "target"@],
{
    let mut v: Vec<String> = Vec::new();
    v.push(".*".to_owned());
    v.push("target".to_owned());
    proof {
        assert(str_views(v@) =~= seq![".*"@, "target"@]);
    }
    v
}

/// The default callee names that count as file references.
pub fn default_file_methods() -> (r: Vec<String>)
    ensures
        str_views(r@) =~= seq![
            "file"@,
            "from_file"@,
            "load"@,
            "open"@,
            "read"@,
            "load_from"@,
        ],
{
    let mut v: Vec<String> = Vec::new();
    v.push("file".to_owned());
    v.push("from_file".to_owned());
    v.push("load".to_owned());
    v.push("open".to_owned());
    v.push("read".to_owned());
    v.push("load_from".to_owned());
    proof {
        assert(str_views(v@) =~= seq![
            "file"@,
            "from_file"@,
            "load"@,
            "open"@,
            "read"@,
            "load_from"@,
        ]);
    }
    v
}

/// The default macro names that count as literal inclusions.
pub fn default_include_macros() -> (r: Vec<String>)
    ensures
        str_views(r@) =~= seq!["include_str"@, "include_bytes"@],
{
    let mut v: Vec<String> = Vec::new();
    v.push("include_str".to_owned());
    v.push("include_bytes".to_owned());
    proof {
        assert(str_views(v@) =~= seq!["include_str"@, "include_bytes"@]);
    }
    v
}

/// The default macro names that declare modules: none.
pub fn default_mod_macros() -> (r: Vec<String>)
    ensures
        str_views(r@) =~= Seq::<Seq<char>>::empty(),
{
    let v: Vec<String> = Vec::new();
    proof {
        assert(str_views(v@) =~= Seq::<Seq<char>>::empty());
    }
    v
}

impl Default for ParserConfig {
    /// The analyzer defaults: modules, inclusions and file references on,
    /// assume patterns off.
    fn default() -> (r: Self)
        ensures
            r@.file_refs == true,
            r@.file_methods =~= seq!["file"@, "from_file"@, "load"@, "open"@, "read"@, "load_from"@],
            r@.includes == true,
            r@.include_macros =~= seq!["include_str"@, "include_bytes"@],
            r@.mods == true,
            r@.mod_macros =~= Seq::<Seq<char>>::empty(),
            r@.assume_mode == false,
            r@.assume_patterns =~= Seq::<Seq<char>>::empty(),
    {
        let v: Vec<String> = Vec::new();
        proof {
            assert(str_views(v@) =~= Seq::<Seq<char>>::empty());
        }
        ParserConfig {
            file_refs: default_true(),
            file_methods: default_file_methods(),
            includes: default_true(),
            include_macros: default_include_macros(),
            mods: default_true(),
            mod_macros: default_mod_macros(),
            assume_mode: default_false(),
            assume_patterns: v,
        }
    }
}

impl Default for MainConfig {
    /// The configuration defaults: default parser settings, no git
    /// override, the default exclusion patterns, no trip wires and no
    /// per-package overrides.
    fn default() -> (r: Self)
        ensures
            r.parser@.mods == true,
            r.parser@.includes == true,
            r.parser@.file_refs == true,
            r.parser@.assume_mode == false,
            r.git is None,
            str_views(r.file_exclude_patterns@) =~= seq![".*"@, "target"@],
            str_views(r.trip_wire_patterns@) =~= Seq::<Seq<char>>::empty(),
            r.crate_configs@ =~= Seq::<(String, ParserConfig)>::empty(),
    {
        let tw: Vec<String> = Vec::new();
        proof {
            assert(str_views(tw@) =~= Seq::<Seq<char>>::empty());
        }
        MainConfig {
            parser: ParserConfig::default(),
            git: None,
            file_exclude_patterns: default_file_excludes(),
            trip_wire_patterns: tw,
            crate_configs: Vec::new(),
        }
    }
}

} // verus!
