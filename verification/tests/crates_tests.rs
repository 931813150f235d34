//! The package dependency graph: direct and transitive queries.

use cargo_deltabuild::cargo::{CargoCrate, CargoDependency, CargoMetadata};
use cargo_deltabuild::crates::Crates;

fn make_crates(deps: &[(&str, &[&str])]) -> Crates {
    let mut entries: Vec<(String, Vec<String>)> = Vec::new();
    for (name, dep_list) in deps {
        entries.push((
            (*name).to_string(),
            dep_list.iter().map(|d| (*d).to_string()).collect(),
        ));
    }
    Crates::from_entries(entries)
}

#[test]
fn get_dependencies_returns_direct_deps() {
    let c = make_crates(&[("app", &["lib-a", "lib-b"]), ("lib-a", &[]), ("lib-b", &[])]);
    let deps = c.get_dependencies("app").unwrap();
    assert_eq!(deps, &["lib-a".to_string(), "lib-b".to_string()]);
}

#[test]
fn get_dependencies_returns_none_for_unknown() {
    let c = make_crates(&[("app", &[])]);
    assert!(c.get_dependencies("nonexistent").is_none());
}

#[test]
fn get_dependents_finds_reverse_deps() {
    let c = make_crates(&[("app", &["lib"]), ("cli", &["lib"]), ("lib", &[])]);
    let mut dependents = c.get_dependents("lib").unwrap();
    dependents.sort();
    assert_eq!(dependents, vec!["app", "cli"]);
}

#[test]
fn get_dependents_returns_none_for_unknown() {
    let c = make_crates(&[("app", &[])]);
    assert!(c.get_dependents("nonexistent").is_none());
}

#[test]
fn get_dependents_returns_empty_for_root() {
    let c = make_crates(&[("app", &["lib"]), ("lib", &[])]);
    let dependents = c.get_dependents("app").unwrap();
    assert!(dependents.is_empty());
}

#[test]
fn get_dependencies_transitive_walks_chain() {
    // app -> lib-a -> lib-b -> lib-c
    let c = make_crates(&[
        ("app", &["lib-a"]),
        ("lib-a", &["lib-b"]),
        ("lib-b", &["lib-c"]),
        ("lib-c", &[]),
    ]);
    let mut deps = c.get_dependencies_transitive("app").unwrap();
    deps.sort();
    assert_eq!(deps, vec!["lib-a", "lib-b", "lib-c"]);
}

#[test]
fn get_dependencies_transitive_handles_diamond() {
    // app -> (a, b), a -> c, b -> c
    let c = make_crates(&[("app", &["a", "b"]), ("a", &["c"]), ("b", &["c"]), ("c", &[])]);
    let mut deps = c.get_dependencies_transitive("app").unwrap();
    deps.sort();
    assert_eq!(deps, vec!["a", "b", "c"]);
}

#[test]
fn get_dependencies_transitive_returns_none_for_unknown() {
    let c = make_crates(&[("app", &[])]);
    assert!(c.get_dependencies_transitive("nonexistent").is_none());
}

#[test]
fn get_dependents_transitive_walks_chain() {
    // a -> b -> c (so dependents of a: b, c)
    let c = make_crates(&[("c", &["b"]), ("b", &["a"]), ("a", &[])]);
    let mut deps = c.get_dependents_transitive("a").unwrap();
    deps.sort();
    assert_eq!(deps, vec!["b", "c"]);
}

#[test]
fn get_dependents_transitive_returns_none_for_unknown() {
    let c = make_crates(&[("app", &[])]);
    assert!(c.get_dependents_transitive("nonexistent").is_none());
}

#[test]
fn len_returns_crate_count() {
    let c = make_crates(&[("a", &[]), ("b", &[]), ("c", &[])]);
    assert_eq!(c.len(), 3);
}

#[test]
fn get_all_crate_names_returns_all() {
    let c = make_crates(&[("alpha", &[]), ("beta", &[])]);
    let mut names = c.get_all_crate_names();
    names.sort();
    assert_eq!(names, vec!["alpha", "beta"]);
}

#[test]
fn get_dependencies_transitive_handles_cycle() {
    // a -> b -> a: each reaches the other and itself through the cycle
    let c = make_crates(&[("a", &["b"]), ("b", &["a"])]);
    let mut deps = c.get_dependencies_transitive("a").unwrap();
    deps.sort();
    assert_eq!(deps, vec!["a", "b"]);
}

#[test]
fn parse_keeps_workspace_members_only() {
    let metadata = CargoMetadata {
        packages: vec![
            CargoCrate {
                name: "app".to_string(),
                source: None,
                targets: vec![],
                manifest_path: "app/Cargo.toml".to_string(),
                dependencies: vec![
                    CargoDependency { name: "lib".to_string(), source: None },
                    CargoDependency {
                        name: "serde".to_string(),
                        source: Some("registry".to_string()),
                    },
                    CargoDependency { name: "lib".to_string(), source: None },
                ],
            },
            CargoCrate {
                name: "lib".to_string(),
                source: None,
                targets: vec![],
                manifest_path: "lib/Cargo.toml".to_string(),
                dependencies: vec![],
            },
            CargoCrate {
                name: "registry-only".to_string(),
                source: Some("registry".to_string()),
                targets: vec![],
                manifest_path: "x/Cargo.toml".to_string(),
                dependencies: vec![],
            },
        ],
        workspace_root: "/ws".to_string(),
        target_directory: "/ws/target".to_string(),
    };
    let c = cargo_deltabuild::crates::parse(&metadata);
    let mut names = c.get_all_crate_names();
    names.sort();
    assert_eq!(names, vec!["app", "lib"]);
    // the registry dependency is dropped and the duplicate is suppressed
    assert_eq!(c.get_dependencies("app").unwrap(), &["lib".to_string()]);
}

#[test]
fn parse_merges_duplicates_in_first_occurrence_order() {
    let pkg = |name: &str, deps: &[&str]| CargoCrate {
        name: name.to_string(),
        source: None,
        targets: vec![],
        manifest_path: format!("{}/Cargo.toml", name),
        dependencies: deps
            .iter()
            .map(|d| CargoDependency { name: d.to_string(), source: None })
            .collect(),
    };
    let metadata = CargoMetadata {
        packages: vec![
            pkg("app", &["b", "a"]),
            pkg("a", &[]),
            pkg("b", &[]),
            pkg("c", &[]),
            // a second package of the same name merges into the first entry
            pkg("app", &["c", "b"]),
        ],
        workspace_root: "/ws".to_string(),
        target_directory: "/ws/target".to_string(),
    };
    let g = cargo_deltabuild::crates::parse(&metadata);
    assert_eq!(
        g.get_dependencies("app").unwrap(),
        &["b".to_string(), "a".to_string(), "c".to_string()]
    );
}
