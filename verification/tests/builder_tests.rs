//! Building the workspace tree from the file-system model.

use cargo_deltabuild::analyzer::{AstArg, AstNode};
use cargo_deltabuild::builder::{build_tree, find_assume_files};
use cargo_deltabuild::cargo::{get_workspace_crates, CargoCrate, CargoMetadata, CargoTarget};
use cargo_deltabuild::config::MainConfig;
use cargo_deltabuild::files::FileKind;
use cargo_deltabuild::fsmodel::{FsSnapshot, SourceModel};

fn target(name: &str, src: &str) -> CargoTarget {
    CargoTarget {
        name: name.to_string(),
        kind: vec!["lib".to_string()],
        src_path: src.to_string(),
    }
}

#[test]
fn build_tree_resolves_modules_and_includes() {
    let model = SourceModel {
        fs: FsSnapshot {
            files: [
                "/ws/lib/src/lib.rs",
                "/ws/lib/src/util.rs",
                "/ws/lib/src/sub/mod.rs",
                "/ws/lib/src/data.json",
            ]
            .iter()
            .map(|s| s.to_string())
            .collect(),
            dirs: ["/ws", "/ws/lib", "/ws/lib/src", "/ws/lib/src/sub"]
                .iter()
                .map(|s| s.to_string())
                .collect(),
        },
        parsed: vec![
            (
                "/ws/lib/src/lib.rs".to_string(),
                vec![
                    AstNode::ModDecl { name: "util".to_string(), path_attrs: vec![] },
                    AstNode::ModDecl { name: "sub".to_string(), path_attrs: vec![] },
                    AstNode::MacroExpr {
                        name: "include_str".to_string(),
                        lit: Some("data.json".to_string()),
                    },
                ],
            ),
            ("/ws/lib/src/util.rs".to_string(), vec![]),
            ("/ws/lib/src/sub/mod.rs".to_string(), vec![]),
        ],
    };
    assert!(model.check_wf());
    let metadata = CargoMetadata {
        packages: vec![CargoCrate {
            name: "lib".to_string(),
            source: None,
            targets: vec![target("lib", "/ws/lib/src/lib.rs")],
            manifest_path: "/ws/lib/Cargo.toml".to_string(),
            dependencies: vec![],
        }],
        workspace_root: "/ws".to_string(),
        target_directory: "/ws/target".to_string(),
    };
    let crates = get_workspace_crates(&metadata);
    let config = MainConfig::default();
    let tree = build_tree(&model, &metadata, &crates, &config);

    assert_eq!(tree.path, "/ws/Cargo.toml");
    assert!(matches!(tree.kind, FileKind::Workspace));
    let crate_node = &tree.children[0];
    assert_eq!(crate_node.path, "/ws/lib/Cargo.toml");
    let target_node = &crate_node.children[0];
    assert_eq!(target_node.path, "/ws/lib/src/lib.rs");
    let mut child_paths: Vec<String> =
        target_node.children.iter().map(|c| c.path.clone()).collect();
    child_paths.sort();
    assert_eq!(
        child_paths,
        vec!["/ws/lib/src/data.json", "/ws/lib/src/sub/mod.rs", "/ws/lib/src/util.rs"]
    );
}

#[test]
fn module_cycles_terminate_with_one_expansion() {
    // a declares b, b declares a: the second encounter yields a leaf
    let model = SourceModel {
        fs: FsSnapshot {
            files: ["/ws/x/src/lib.rs", "/ws/x/src/a.rs", "/ws/x/src/b.rs"]
                .iter()
                .map(|s| s.to_string())
                .collect(),
            dirs: ["/ws", "/ws/x", "/ws/x/src"].iter().map(|s| s.to_string()).collect(),
        },
        parsed: vec![
            (
                "/ws/x/src/lib.rs".to_string(),
                vec![AstNode::ModDecl { name: "a".to_string(), path_attrs: vec![] }],
            ),
            (
                "/ws/x/src/a.rs".to_string(),
                vec![AstNode::ModDecl {
                    name: "b".to_string(),
                    path_attrs: vec![AstArg::StrLit("b.rs".to_string())],
                }],
            ),
            (
                "/ws/x/src/b.rs".to_string(),
                vec![AstNode::ModDecl { name: "a".to_string(), path_attrs: vec![] }],
            ),
        ],
    };
    let metadata = CargoMetadata {
        packages: vec![CargoCrate {
            name: "x".to_string(),
            source: None,
            targets: vec![target("x", "/ws/x/src/lib.rs")],
            manifest_path: "/ws/x/Cargo.toml".to_string(),
            dependencies: vec![],
        }],
        workspace_root: "/ws".to_string(),
        target_directory: "/ws/target".to_string(),
    };
    let crates = get_workspace_crates(&metadata);
    let config = MainConfig::default();
    let tree = build_tree(&model, &metadata, &crates, &config);
    // reaching this point at all shows the cycle guard held; check a shape
    let target_node = &tree.children[0].children[0];
    assert_eq!(target_node.children[0].path, "/ws/x/src/a.rs");
}

#[test]
fn find_assume_files_sorts_and_deduplicates() {
    let fs = FsSnapshot {
        files: [
            "/ws/lib/templates/b.tmpl",
            "/ws/lib/templates/a.tmpl",
            "/ws/lib/src/lib.rs",
            "/ws/other/c.tmpl",
        ]
        .iter()
        .map(|s| s.to_string())
        .collect(),
        dirs: vec!["/ws/lib".to_string()],
    };
    let patterns = vec!["*.tmpl".to_string()];
    let found = find_assume_files(&fs, "/ws/lib", &patterns);
    assert_eq!(found, vec!["/ws/lib/templates/a.tmpl", "/ws/lib/templates/b.tmpl"]);
}
