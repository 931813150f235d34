//! The impact classifier over two snapshots and a diff.

use cargo_deltabuild::cargo::{CargoCrate, CargoDependency, CargoMetadata, CargoTarget};
use cargo_deltabuild::config::MainConfig;
use cargo_deltabuild::crates;
use cargo_deltabuild::files::{FileKind, FileNode};
use cargo_deltabuild::git::GitDiff;
use cargo_deltabuild::impact::{get_impacted_crates, WorkspaceTree};

fn make_metadata(crate_deps: &[(&str, &[&str])]) -> CargoMetadata {
    let mut packages = Vec::new();
    for (name, deps) in crate_deps {
        packages.push(CargoCrate {
            name: name.to_string(),
            source: None,
            targets: vec![CargoTarget {
                name: name.to_string(),
                kind: vec!["lib".to_string()],
                src_path: format!("{}/src/lib.rs", name),
            }],
            manifest_path: format!("{}/Cargo.toml", name),
            dependencies: deps
                .iter()
                .map(|d| CargoDependency { name: d.to_string(), source: None })
                .collect(),
        });
    }
    CargoMetadata {
        packages,
        workspace_root: "/workspace".to_string(),
        target_directory: "/workspace/target".to_string(),
    }
}

fn make_file_tree(crate_files: &[(&str, &[&str])]) -> FileNode {
    let mut root = FileNode::new("Cargo.toml".to_string(), FileKind::Workspace);
    for (crate_name, files) in crate_files {
        let manifest = format!("{}/Cargo.toml", crate_name);
        let mut crate_node = FileNode::new(manifest, FileKind::Crate);
        for file in *files {
            crate_node.add_child(FileNode::new((*file).to_string(), FileKind::Target));
        }
        root.add_child(crate_node);
    }
    root
}

fn make_workspace(crate_defs: &[(&str, &[&str], &[&str])]) -> WorkspaceTree {
    let deps: Vec<(&str, &[&str])> = crate_defs.iter().map(|(n, _, d)| (*n, *d)).collect();
    let crate_files: Vec<(&str, &[&str])> = crate_defs.iter().map(|(n, f, _)| (*n, *f)).collect();

    let metadata = make_metadata(&deps);
    let files = make_file_tree(&crate_files);
    let crates_graph = crates::parse(&metadata);

    WorkspaceTree { files, crates: crates_graph }
}

fn diff(changed: &[&str], deleted: &[&str]) -> GitDiff {
    GitDiff {
        changed: changed.iter().map(|s| s.to_string()).collect(),
        deleted: deleted.iter().map(|s| s.to_string()).collect(),
    }
}

fn has(v: &[String], name: &str) -> bool {
    v.iter().any(|s| s == name)
}

#[test]
fn no_changes_produces_empty_impact() {
    let tree = make_workspace(&[
        ("app", &["app/src/main.rs"], &["lib"]),
        ("lib", &["lib/src/lib.rs"], &[]),
    ]);
    let config = MainConfig::default();

    let (result, _) = get_impacted_crates(&tree, &tree, &diff(&[], &[]), &config);

    assert!(result.modified.is_empty());
    assert!(result.affected.is_empty());
    assert!(result.required.is_empty());
}

#[test]
fn changed_file_marks_crate_modified() {
    let tree = make_workspace(&[
        ("app", &["app/src/main.rs"], &[]),
        ("lib", &["lib/src/lib.rs"], &[]),
    ]);
    let config = MainConfig::default();

    let (result, _) = get_impacted_crates(&tree, &tree, &diff(&["lib/src/lib.rs"], &[]), &config);

    assert!(has(&result.modified, "lib"));
    assert!(!has(&result.modified, "app"));
}

#[test]
fn changed_file_propagates_to_dependents() {
    let tree = make_workspace(&[
        ("app", &["app/src/main.rs"], &["lib"]),
        ("lib", &["lib/src/lib.rs"], &[]),
    ]);
    let config = MainConfig::default();

    let (result, _) = get_impacted_crates(&tree, &tree, &diff(&["lib/src/lib.rs"], &[]), &config);

    assert!(has(&result.modified, "lib"));
    assert!(has(&result.affected, "lib"));
    assert!(has(&result.affected, "app"));
}

#[test]
fn required_includes_dependencies_of_affected() {
    // app -> middleware -> core
    let tree = make_workspace(&[
        ("app", &["app/src/main.rs"], &["middleware"]),
        ("middleware", &["middleware/src/lib.rs"], &["core"]),
        ("core", &["core/src/lib.rs"], &[]),
    ]);
    let config = MainConfig::default();

    let (result, _) =
        get_impacted_crates(&tree, &tree, &diff(&["middleware/src/lib.rs"], &[]), &config);

    assert!(has(&result.modified, "middleware"));
    assert!(has(&result.affected, "app"));
    assert!(has(&result.affected, "middleware"));
    assert!(has(&result.required, "core"));
    assert!(has(&result.required, "middleware"));
    assert!(has(&result.required, "app"));
}

#[test]
fn deleted_file_marks_crate_modified() {
    let baseline = make_workspace(&[("lib", &["lib/src/lib.rs", "lib/src/old.rs"], &[])]);
    let current = make_workspace(&[("lib", &["lib/src/lib.rs"], &[])]);
    let config = MainConfig::default();

    let (result, _) =
        get_impacted_crates(&baseline, &current, &diff(&[], &["lib/src/old.rs"]), &config);

    assert!(has(&result.modified, "lib"));
}

#[test]
fn new_file_in_branch_marks_crate_modified() {
    let baseline = make_workspace(&[("lib", &["lib/src/lib.rs"], &[])]);
    let current = make_workspace(&[("lib", &["lib/src/lib.rs", "lib/src/new.rs"], &[])]);
    let config = MainConfig::default();

    let (result, _) = get_impacted_crates(&baseline, &current, &diff(&[], &[]), &config);

    assert!(has(&result.modified, "lib"));
}

#[test]
fn trip_wire_activated_returns_all_crates() {
    let tree = make_workspace(&[
        ("app", &["app/src/main.rs"], &[]),
        ("lib", &["lib/src/lib.rs"], &[]),
    ]);
    let config = MainConfig {
        trip_wire_patterns: vec!["Cargo.lock".to_string()],
        ..MainConfig::default()
    };

    let (result, tripped) = get_impacted_crates(&tree, &tree, &diff(&["Cargo.lock"], &[]), &config);

    assert!(has(&result.modified, "app"));
    assert!(has(&result.modified, "lib"));
    assert!(has(&result.affected, "app"));
    assert!(has(&result.affected, "lib"));
    assert!(!tripped.is_empty());
}

#[test]
fn trip_wire_enabled_no_match() {
    let tree = make_workspace(&[("lib", &["lib/src/lib.rs"], &[])]);
    let config = MainConfig {
        trip_wire_patterns: vec!["Cargo.lock".to_string()],
        ..MainConfig::default()
    };

    let (result, tripped) =
        get_impacted_crates(&tree, &tree, &diff(&["lib/src/lib.rs"], &[]), &config);

    assert!(has(&result.modified, "lib"));
    assert!(tripped.is_empty());
}

#[test]
fn trip_wire_on_deleted_file() {
    let tree = make_workspace(&[("app", &["app/src/main.rs"], &[])]);
    let config = MainConfig {
        trip_wire_patterns: vec!["Cargo.lock".to_string()],
        ..MainConfig::default()
    };

    let (result, tripped) = get_impacted_crates(&tree, &tree, &diff(&[], &["Cargo.lock"]), &config);

    assert!(has(&result.modified, "app"));
    assert!(!tripped.is_empty());
}

#[test]
fn scenario_single_library_exact_sets() {
    // one dependent package: changing the library touches both, and no more
    let tree = make_workspace(&[
        ("app", &["app/src/main.rs"], &["lib"]),
        ("lib", &["lib/src/lib.rs"], &[]),
    ]);
    let config = MainConfig::default();

    let (result, _) = get_impacted_crates(&tree, &tree, &diff(&["lib/src/lib.rs"], &[]), &config);

    let mut modified = result.modified.clone();
    modified.sort();
    assert_eq!(modified, vec!["lib"]);
    let mut affected = result.affected.clone();
    affected.sort();
    assert_eq!(affected, vec!["app", "lib"]);
    let mut required = result.required.clone();
    required.sort();
    assert_eq!(required, vec!["app", "lib"]);
}

#[test]
fn impact_sets_are_nested() {
    let tree = make_workspace(&[
        ("app", &["app/src/main.rs"], &["middleware"]),
        ("middleware", &["middleware/src/lib.rs"], &["core"]),
        ("core", &["core/src/lib.rs"], &[]),
    ]);
    let config = MainConfig::default();

    let (result, _) =
        get_impacted_crates(&tree, &tree, &diff(&["middleware/src/lib.rs"], &[]), &config);

    for name in &result.modified {
        assert!(has(&result.affected, name));
    }
    for name in &result.affected {
        assert!(has(&result.required, name));
    }
}

#[test]
fn shared_file_marks_every_owner() {
    let mut root = FileNode::new("Cargo.toml".to_string(), FileKind::Workspace);
    for name in ["one", "two"] {
        let mut crate_node = FileNode::new(format!("{}/Cargo.toml", name), FileKind::Crate);
        crate_node.add_child(FileNode::new("shared/common.rs".to_string(), FileKind::Module));
        root.add_child(crate_node);
    }
    let owners = root.find_crates_containing_file("shared/common.rs");
    let mut owners = owners;
    owners.sort();
    assert_eq!(owners, vec!["one", "two"]);
}
