//! Path and string helpers.

use cargo_deltabuild::strutil::{
    file_name_of, normalize_path, parent_of, path_join, sort_dedup, stem_of_name,
    strip_path_prefix, trim_str,
};

#[test]
fn normalize_resolves_dot_and_dotdot() {
    assert_eq!(normalize_path("/ws/lib/../app/./main.rs"), "/ws/app/main.rs");
    assert_eq!(normalize_path("a/b/../../c"), "c");
    assert_eq!(normalize_path("../x"), "../x");
    assert_eq!(normalize_path("/.."), "/");
    assert_eq!(normalize_path("a//b/"), "a/b");
}

#[test]
fn strip_prefix_rebases_only_under_the_root() {
    assert_eq!(strip_path_prefix("/ws/lib/src.rs", "/ws"), "lib/src.rs");
    assert_eq!(strip_path_prefix("/ws", "/ws"), "");
    assert_eq!(strip_path_prefix("/wsx/lib.rs", "/ws"), "/wsx/lib.rs");
    assert_eq!(strip_path_prefix("/other/a.rs", "/ws"), "/other/a.rs");
}

#[test]
fn path_decomposition() {
    assert_eq!(parent_of("a/b/c.rs"), "a/b");
    assert_eq!(parent_of("c.rs"), "");
    assert_eq!(parent_of("/c.rs"), "/");
    assert_eq!(file_name_of("a/b/c.rs"), "c.rs");
    assert_eq!(stem_of_name("c.rs"), "c");
    assert_eq!(stem_of_name(".hidden"), ".hidden");
    assert_eq!(path_join("a/b", "c"), "a/b/c");
    assert_eq!(path_join("", "c"), "c");
    assert_eq!(path_join("/", "c"), "/c");
}

#[test]
fn trim_removes_ascii_whitespace() {
    assert_eq!(trim_str("  hello \n"), "hello");
    assert_eq!(trim_str("\t\r\n "), "");
    assert_eq!(trim_str("x"), "x");
}

#[test]
fn sort_dedup_orders_and_removes_duplicates() {
    let input: Vec<String> =
        ["b", "a", "c", "a", "b"].iter().map(|s| s.to_string()).collect();
    let out = sort_dedup(&input);
    assert_eq!(out, vec!["a", "b", "c"]);
}
