//! Resolution against the file-system model, and unrelated-file
//! classification.

use cargo_deltabuild::fsmodel::FsSnapshot;
use cargo_deltabuild::utils::{classify_unrelated, resolve, resolve_includes,
    resolve_workspace_relative};

fn snapshot(files: &[&str], dirs: &[&str]) -> FsSnapshot {
    FsSnapshot {
        files: files.iter().map(|s| s.to_string()).collect(),
        dirs: dirs.iter().map(|s| s.to_string()).collect(),
    }
}

#[test]
fn resolve_finds_existing_sibling() {
    let fs = snapshot(&["src/lib.rs", "src/host.rs"], &["src"]);
    let r = resolve("src/lib.rs", "host.rs", &fs);
    assert_eq!(r, Some("src/host.rs".to_string()));
    assert_eq!(resolve("src/lib.rs", "missing.rs", &fs), None);
}

#[test]
fn resolve_normalizes_parent_steps() {
    let fs = snapshot(&["data/x.txt", "src/lib.rs"], &["data", "src"]);
    let r = resolve("src/lib.rs", "../data/x.txt", &fs);
    assert_eq!(r, Some("data/x.txt".to_string()));
}

#[test]
fn resolve_workspace_relative_roots_at_the_workspace() {
    let fs = snapshot(&["/ws/assets/logo.png"], &["/ws", "/ws/assets"]);
    let r = resolve_workspace_relative("/ws", "assets/logo.png", &fs);
    assert_eq!(r, Some("/ws/assets/logo.png".to_string()));
    assert_eq!(resolve_workspace_relative("/ws", "missing.png", &fs), None);
}

#[test]
fn resolve_includes_warns_on_unresolvable_path() {
    let fs = snapshot(&["src/lib.rs", "src/host.rs"], &["src"]);
    let includes = vec!["nonexistent_file_xyz.rs".to_string()];
    let (resolved, unresolved) = resolve_includes("src/lib.rs", &includes, &fs);
    assert!(resolved.is_empty());
    assert_eq!(unresolved, vec!["nonexistent_file_xyz.rs"]);
}

#[test]
fn resolve_includes_resolves_existing_path() {
    let fs = snapshot(&["src/lib.rs", "src/host.rs"], &["src"]);
    let includes = vec!["host.rs".to_string()];
    let (resolved, unresolved) = resolve_includes("src/lib.rs", &includes, &fs);
    assert_eq!(resolved.len(), 1);
    assert!(unresolved.is_empty());
}

#[test]
fn classify_splits_into_three_reports() {
    let candidates: Vec<String> = [
        ".gitignore",      // name matches an exclusion pattern
        "lib/src/lib.rs",  // a known compilation input
        "Cargo.lock",      // a trip-wire file
        "notes.md",        // nothing accounts for it
    ]
    .iter()
    .map(|s| s.to_string())
    .collect();
    let known = vec!["lib/src/lib.rs".to_string()];
    let excludes = vec![".*".to_string()];
    let trip = vec!["Cargo.lock".to_string()];
    let r = classify_unrelated(&candidates, &known, &excludes, &trip);
    assert_eq!(r.filtered, vec![".gitignore"]);
    assert_eq!(r.trip_wire, vec!["Cargo.lock"]);
    assert_eq!(r.unaccounted, vec!["notes.md"]);
}

#[test]
fn classify_never_reports_known_files() {
    // a dot-named file that the tree already accounts for stays out of
    // every report, even though its name matches an exclusion pattern
    let candidates: Vec<String> =
        [".env.rs", "lib/src/lib.rs", "Cargo.lock"].iter().map(|s| s.to_string()).collect();
    let known: Vec<String> =
        [".env.rs", "lib/src/lib.rs", "Cargo.lock"].iter().map(|s| s.to_string()).collect();
    let excludes = vec![".*".to_string()];
    let trip = vec!["Cargo.lock".to_string()];
    let r = classify_unrelated(&candidates, &known, &excludes, &trip);
    assert!(r.filtered.is_empty());
    assert!(r.trip_wire.is_empty());
    assert!(r.unaccounted.is_empty());
}
