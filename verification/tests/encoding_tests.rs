//! Decoding interchange bytes, with byte-order marks.

use cargo_deltabuild::config::{default_file_excludes, default_file_methods,
    default_include_macros, MainConfig, ParserConfig};
use cargo_deltabuild::encoding::decode_json_text;
use cargo_deltabuild::error::Error;
use cargo_deltabuild::git::{choose_main_branch, diff_candidate_paths, split_diff, GitBranch};

#[test]
fn deser_json_reads_valid_json() {
    let bytes: Vec<u8> = br#"{"key": "value"}"#.to_vec();
    let text = decode_json_text(&bytes).unwrap();
    let value: serde_json::Value = serde_json::from_str(&text).unwrap();
    assert_eq!(value["key"], "value");
}

#[test]
fn deser_json_handles_utf8_bom() {
    let mut content: Vec<u8> = vec![0xEF, 0xBB, 0xBF];
    content.extend_from_slice(br#"{"key": "value"}"#);
    let text = decode_json_text(&content).unwrap();
    let value: serde_json::Value = serde_json::from_str(&text).unwrap();
    assert_eq!(value["key"], "value");
}

#[test]
fn deser_json_handles_utf16_le_bom() {
    let mut content: Vec<u8> = vec![0xFF, 0xFE];
    for b in br#"{"key": "value"}"# {
        content.push(*b);
        content.push(0);
    }
    let text = decode_json_text(&content).unwrap();
    let value: serde_json::Value = serde_json::from_str(&text).unwrap();
    assert_eq!(value["key"], "value");
}

#[test]
fn git_diff_lines_become_candidates() {
    let lines: Vec<String> =
        ["lib/src/lib.rs", "  ", "docs/../README.md"].iter().map(|s| s.to_string()).collect();
    let cands = diff_candidate_paths(&lines, "/ws");
    assert_eq!(cands, vec!["/ws/lib/src/lib.rs", "/ws/README.md"]);

    let flags = vec![true, false];
    let d = split_diff(&cands, &flags, "/ws");
    assert_eq!(d.changed, vec!["lib/src/lib.rs"]);
    assert_eq!(d.deleted, vec!["README.md"]);

    let b = GitBranch::Main("origin/master".to_string());
    assert_eq!(b.as_str(), "origin/master");
}

#[test]
fn config_defaults_match_expectations() {
    let p = ParserConfig::default();
    assert!(p.mods && p.includes && p.file_refs && !p.assume_mode);
    assert_eq!(default_file_excludes(), vec![".*", "target"]);
    assert_eq!(
        default_file_methods(),
        vec!["file", "from_file", "load", "open", "read", "load_from"]
    );
    assert_eq!(default_include_macros(), vec!["include_str", "include_bytes"]);
    let m = MainConfig::default();
    assert!(m.trip_wire_patterns.is_empty());
    let over = ParserConfig { mods: false, ..ParserConfig::default() };
    let cfgs = MainConfig {
        crate_configs: vec![("parser.special".to_string(), over)],
        ..MainConfig::default()
    };
    assert!(!cfgs.crate_config("special").mods);
    assert!(cfgs.crate_config("ordinary").mods);
}

#[test]
fn error_from_str_is_the_catch_all() {
    let e = Error::from("boom");
    assert!(e.is_other());
}

#[test]
fn deser_json_rejects_malformed_text() {
    // a sixteen-bit byte-order mark followed by an odd byte count cannot
    // decode cleanly
    let content: Vec<u8> = vec![0xFF, 0xFE, 0x41];
    assert!(decode_json_text(&content).is_err());
}

#[test]
fn best_effort_finds_master() {
    let found = vec![true, true, false];
    assert_eq!(choose_main_branch(&found), Some(0));
}

#[test]
fn best_effort_finds_main_when_no_master() {
    let found = vec![false, true, false];
    assert_eq!(choose_main_branch(&found), Some(1));
}

#[test]
fn best_effort_defaults_when_none_found() {
    let found = vec![false, false, false];
    assert_eq!(choose_main_branch(&found), None);
}
