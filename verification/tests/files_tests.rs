//! The file tree: insertion, rebasing, sizes and lookups.

use cargo_deltabuild::files::{FileKind, FileNode};

#[test]
fn add_child_deduplicates_by_path() {
    let mut node = FileNode::new("src/lib.rs".to_string(), FileKind::Target);
    node.add_child(FileNode::new("src/a.rs".to_string(), FileKind::Module));
    node.add_child(FileNode::new("src/a.rs".to_string(), FileKind::MacroInclude));
    node.add_child(FileNode::new("src/a.rs".to_string(), FileKind::Module));
    assert_eq!(node.children.len(), 1);
    assert!(matches!(node.children[0].kind, FileKind::Module));
    node.add_child(FileNode::new("src/b.rs".to_string(), FileKind::Module));
    assert_eq!(node.children.len(), 2);
}

#[test]
fn to_relative_paths_strips_the_root() {
    let mut root = FileNode::new("/ws/Cargo.toml".to_string(), FileKind::Workspace);
    let mut crate_node = FileNode::new("/ws/lib/Cargo.toml".to_string(), FileKind::Crate);
    crate_node.add_child(FileNode::new("/other/outside.rs".to_string(), FileKind::Module));
    root.add_child(crate_node);
    root.to_relative_paths("/ws");
    assert_eq!(root.path, "Cargo.toml");
    assert_eq!(root.children[0].path, "lib/Cargo.toml");
    // a path outside the root is kept as it was
    assert_eq!(root.children[0].children[0].path, "/other/outside.rs");
}

#[test]
fn to_relative_paths_twice_equals_once() {
    let build = || {
        let mut root = FileNode::new("/ws/Cargo.toml".to_string(), FileKind::Workspace);
        let mut crate_node = FileNode::new("/ws/lib/Cargo.toml".to_string(), FileKind::Crate);
        crate_node.add_child(FileNode::new("/ws/lib/src/lib.rs".to_string(), FileKind::Target));
        root.add_child(crate_node);
        root
    };
    let mut once = build();
    once.to_relative_paths("/ws");
    let mut twice = build();
    twice.to_relative_paths("/ws");
    twice.to_relative_paths("/ws");
    assert_eq!(once.path, twice.path);
    assert_eq!(once.children[0].path, twice.children[0].path);
    assert_eq!(once.children[0].children[0].path, twice.children[0].children[0].path);
}

#[test]
fn len_counts_nodes_and_edges() {
    let mut root = FileNode::new("Cargo.toml".to_string(), FileKind::Workspace);
    root.add_child(FileNode::new("a".to_string(), FileKind::Crate));
    // one node plus one child and its edge
    assert_eq!(root.len(), 3);
}

#[test]
fn distinct_lists_every_path_once() {
    let mut root = FileNode::new("root".to_string(), FileKind::Workspace);
    let mut a = FileNode::new("a".to_string(), FileKind::Crate);
    a.add_child(FileNode::new("shared".to_string(), FileKind::Module));
    let mut b = FileNode::new("b".to_string(), FileKind::Crate);
    b.add_child(FileNode::new("shared".to_string(), FileKind::Module));
    root.add_child(a);
    root.add_child(b);
    let mut paths = root.distinct();
    paths.sort();
    assert_eq!(paths, vec!["a", "b", "root", "shared"]);
}

#[test]
fn find_crates_uses_manifest_directory_name() {
    let mut root = FileNode::new("Cargo.toml".to_string(), FileKind::Workspace);
    let mut crate_node = FileNode::new("packages/mylib/Cargo.toml".to_string(), FileKind::Crate);
    crate_node.add_child(FileNode::new("packages/mylib/src/lib.rs".to_string(), FileKind::Target));
    root.add_child(crate_node);
    let owners = root.find_crates_containing_file("packages/mylib/src/lib.rs");
    assert_eq!(owners, vec!["mylib"]);
    let nobody = root.find_crates_containing_file("unknown.rs");
    assert!(nobody.is_empty());
}
