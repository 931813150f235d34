//! The source analyzer over constructed syntax shapes.

use cargo_deltabuild::analyzer::{collect_facts, AstArg, AstNode};
use cargo_deltabuild::config::ParserConfig;

fn default_config() -> ParserConfig {
    ParserConfig::default()
}

#[test]
fn collects_flat_and_nested_modules() {
    let nodes = vec![
        AstNode::ModDecl { name: "top".to_string(), path_attrs: vec![] },
        AstNode::ModBody {
            name: "outer".to_string(),
            children: vec![AstNode::ModDecl { name: "inner".to_string(), path_attrs: vec![] }],
        },
    ];
    let facts = collect_facts(&nodes, &default_config());
    assert_eq!(facts.mods, vec!["top"]);
    assert_eq!(facts.nested_mods.len(), 1);
    assert_eq!(facts.nested_mods[0].0, vec!["outer"]);
    assert_eq!(facts.nested_mods[0].1, "inner");
}

#[test]
fn path_override_beats_plain_module() {
    let nodes = vec![AstNode::ModDecl {
        name: "gen".to_string(),
        path_attrs: vec![AstArg::StrLit("generated/code.rs".to_string())],
    }];
    let facts = collect_facts(&nodes, &default_config());
    assert!(facts.mods.is_empty());
    assert_eq!(facts.mod_paths, vec![("gen".to_string(), "generated/code.rs".to_string())]);
}

#[test]
fn call_argument_resolves_through_recorded_constant() {
    let nodes = vec![
        AstNode::ConstStr { name: "CONFIG".to_string(), value: "settings.toml".to_string() },
        AstNode::Call {
            method: Some("load".to_string()),
            arg: Some(AstArg::Ident("CONFIG".to_string())),
            children: vec![],
        },
        AstNode::Call {
            method: Some("load".to_string()),
            arg: Some(AstArg::Ident("UNKNOWN".to_string())),
            children: vec![],
        },
        AstNode::Call {
            method: Some("open".to_string()),
            arg: Some(AstArg::StrLit("direct.txt".to_string())),
            children: vec![],
        },
        AstNode::Call {
            method: Some("unrelated".to_string()),
            arg: Some(AstArg::StrLit("ignored.txt".to_string())),
            children: vec![],
        },
    ];
    let facts = collect_facts(&nodes, &default_config());
    assert_eq!(facts.file_refs, vec!["settings.toml", "direct.txt"]);
    assert_eq!(facts.constants, vec![("CONFIG".to_string(), "settings.toml".to_string())]);
}

#[test]
fn later_constant_shadows_earlier_one() {
    let nodes = vec![
        AstNode::ConstStr { name: "P".to_string(), value: "first.txt".to_string() },
        AstNode::ConstStr { name: "P".to_string(), value: "second.txt".to_string() },
        AstNode::Call {
            method: Some("read".to_string()),
            arg: Some(AstArg::Ident("P".to_string())),
            children: vec![],
        },
    ];
    let facts = collect_facts(&nodes, &default_config());
    assert_eq!(facts.file_refs, vec!["second.txt"]);
}

#[test]
fn include_macros_collected_when_enabled() {
    let nodes = vec![
        AstNode::MacroExpr {
            name: "include_str".to_string(),
            lit: Some("data/schema.json".to_string()),
        },
        AstNode::MacroExpr { name: "println".to_string(), lit: Some("ignored".to_string()) },
        AstNode::MacroExpr { name: "include_bytes".to_string(), lit: None },
    ];
    let facts = collect_facts(&nodes, &default_config());
    assert_eq!(facts.includes, vec!["data/schema.json"]);

    let off = ParserConfig { includes: false, ..ParserConfig::default() };
    let facts_off = collect_facts(&nodes, &off);
    assert!(facts_off.includes.is_empty());
}

#[test]
fn mod_macro_takes_first_trimmed_chunk() {
    let cfg = ParserConfig { mod_macros: vec!["declare_mods".to_string()], ..ParserConfig::default() };
    let nodes = vec![AstNode::MacroItem {
        name: "declare_mods".to_string(),
        tokens: "  alpha , beta".to_string(),
    }];
    let facts = collect_facts(&nodes, &cfg);
    assert_eq!(facts.mods, vec!["alpha"]);
}

#[test]
fn opaque_argument_never_resolves() {
    let nodes = vec![AstNode::Call {
        method: Some("load".to_string()),
        arg: Some(AstArg::Opaque),
        children: vec![],
    }];
    let facts = collect_facts(&nodes, &default_config());
    assert!(facts.file_refs.is_empty());
}
