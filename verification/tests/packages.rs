//! The package layer: manifests, the dependency graph builder, the cycle
//! check and the symbol cache.

use grip::ast::{DeclKind, Declaration, FunctionDecl, Ty};
use grip::cache::Cache;
use grip::dependency::{
    build_dependency_graph, find_most_used_dependency, is_dependency_cyclic,
    require_library_dependencies, DependencyGraph,
};
use grip::diagnostic::{has_error, Diagnostic};
use grip::package::{
    default_manifest, default_package_lock, dependency_manifest_path, fetch_dependency_manifest,
    Manifest, ManifestStore, PackageType,
};

fn names(v: &[&str]) -> Vec<String> {
    v.iter().map(|s| s.to_string()).collect()
}

fn lib_manifest(name: &str, deps: &[&str]) -> Manifest {
    Manifest {
        name: name.to_string(),
        ty: PackageType::Library,
        version: "0.0.1".to_string(),
        dependencies: names(deps),
    }
}

fn graph_of(rows: &[(&str, &[&str])]) -> DependencyGraph {
    let mut g = DependencyGraph::new();
    for (name, deps) in rows {
        g.insert(name.to_string(), names(deps));
    }
    g
}

#[test]
fn build_collects_every_reachable_package() {
    let mut store = ManifestStore::new();
    store.insert("a".to_string(), lib_manifest("a", &["b"]));
    store.insert("b".to_string(), lib_manifest("b", &[]));
    store.insert("stray".to_string(), lib_manifest("stray", &[]));
    let root = Manifest {
        name: "demo".to_string(),
        ty: PackageType::Executable,
        version: "0.0.1".to_string(),
        dependencies: names(&["a"]),
    };
    let g = build_dependency_graph(&root, &store).expect("all reachable manifests are present");
    assert!(g.contains("a"));
    assert!(g.contains("b"));
    // a package never referenced is not read into the graph
    assert!(!g.contains("stray"));
    assert_eq!(g.get("a").unwrap(), &names(&["b"]));
    assert_eq!(g.get("b").unwrap(), &names(&[]));
    assert!(require_library_dependencies(&g, &store).is_ok());
}

#[test]
fn build_reports_missing_manifest() {
    let store = ManifestStore::new();
    let root = lib_manifest("demo", &["gone"]);
    match build_dependency_graph(&root, &store) {
        Ok(_) => panic!("a missing manifest must fail the build"),
        Err(e) => assert_eq!(e, "failed to read package manifest file: `gone`"),
    }
}

#[test]
fn build_reports_the_first_missing_manifest() {
    // the walk is breadth first from the root's dependency list, so with
    // two missing packages the earlier listed one is the one reported
    let mut store = ManifestStore::new();
    store.insert("a".to_string(), lib_manifest("a", &["deep"]));
    let root = lib_manifest("demo", &["a", "shallow"]);
    match build_dependency_graph(&root, &store) {
        Ok(_) => panic!("missing manifests must fail the build"),
        Err(e) => assert_eq!(e, "failed to read package manifest file: `shallow`"),
    }
}

#[test]
fn executable_dependency_is_a_build_error() {
    // the builder itself succeeds: every reachable manifest is present;
    // judging the kinds is the separate check's business
    let mut store = ManifestStore::new();
    let mut dep = lib_manifest("app", &[]);
    dep.ty = PackageType::Executable;
    store.insert("app".to_string(), dep);
    let root = lib_manifest("demo", &["app"]);
    let g = build_dependency_graph(&root, &store).expect("the builder reads kinds, never judges them");
    assert!(g.contains("app"));
    match require_library_dependencies(&g, &store) {
        Ok(_) => panic!("an executable dependency must fail the build"),
        Err(e) => assert_eq!(e, "dependency is an executable, but was expected to be a library"),
    }
}

#[test]
fn build_reads_each_package_once() {
    // a diamond: both roots lead to `c`; deduplication reads it once
    let mut store = ManifestStore::new();
    store.insert("a".to_string(), lib_manifest("a", &["c"]));
    store.insert("b".to_string(), lib_manifest("b", &["c"]));
    store.insert("c".to_string(), lib_manifest("c", &[]));
    let root = lib_manifest("demo", &["a", "b"]);
    let g = build_dependency_graph(&root, &store).expect("diamond builds fine");
    assert_eq!(g.names.len(), 3);
}

#[test]
fn cycle_reachable_from_root_is_reported() {
    let g = graph_of(&[("a", &["b"]), ("b", &["c"]), ("c", &["a"])]);
    assert!(is_dependency_cyclic(&g, "a".to_string()));
}

#[test]
fn self_dependency_is_reported() {
    let g = graph_of(&[("a", &["a"])]);
    assert!(is_dependency_cyclic(&g, "a".to_string()));
}

#[test]
fn acyclic_chain_is_not_reported() {
    let g = graph_of(&[("a", &["b"]), ("b", &["c"]), ("c", &[])]);
    assert!(!is_dependency_cyclic(&g, "a".to_string()));
}

#[test]
fn unknown_start_is_not_reported() {
    let g = graph_of(&[("a", &["b"]), ("b", &[])]);
    assert!(!is_dependency_cyclic(&g, "elsewhere".to_string()));
}

#[test]
fn shared_dependency_is_no_cycle() {
    // an acyclic diamond: `d` is reached along two routes, which is
    // sharing, not a cycle
    let g = graph_of(&[("a", &["b", "c"]), ("b", &["d"]), ("c", &["d"]), ("d", &[])]);
    assert!(!is_dependency_cyclic(&g, "a".to_string()));
}

#[test]
fn unreachable_cycle_is_not_reported() {
    // the check asks for a cycle on a route out of the start name; a
    // cycle elsewhere in the graph is not its business
    let g = graph_of(&[("a", &["b"]), ("b", &[]), ("c", &["d"]), ("d", &["c"])]);
    assert!(!is_dependency_cyclic(&g, "a".to_string()));
    assert!(is_dependency_cyclic(&g, "c".to_string()));
}

#[test]
fn most_used_picks_the_longest_list() {
    let g = graph_of(&[("a", &["x"]), ("b", &["x", "y"]), ("c", &[])]);
    assert_eq!(find_most_used_dependency(g), Some("b".to_string()));
}

#[test]
fn most_used_tie_resolves_to_first_encountered() {
    let g = graph_of(&[("a", &["x", "y"]), ("b", &["p", "q"])]);
    assert_eq!(find_most_used_dependency(g), Some("a".to_string()));
}

#[test]
fn most_used_of_empty_lists_is_none() {
    let g = graph_of(&[("a", &[]), ("b", &[])]);
    assert_eq!(find_most_used_dependency(g), None);
}

#[test]
fn fetch_dependency_manifest_reads_the_store() {
    let mut store = ManifestStore::new();
    store.insert("a".to_string(), lib_manifest("a", &["b"]));
    let m = fetch_dependency_manifest(&store, "a").expect("stored manifest is produced");
    assert_eq!(m.name, "a");
    assert_eq!(m.version, "0.0.1");
    assert_eq!(m.dependencies, names(&["b"]));
    match fetch_dependency_manifest(&store, "b") {
        Ok(_) => panic!("an absent package must fail the fetch"),
        Err(e) => assert_eq!(e, "failed to read package manifest file: `b`"),
    }
}

#[test]
fn conventional_manifest_location() {
    assert_eq!(dependency_manifest_path("foo"), "dependencies/foo/grip.toml");
}

#[test]
fn fresh_package_defaults() {
    let m = default_manifest("project".to_string());
    assert_eq!(m.name, "project");
    assert_eq!(m.ty, PackageType::Executable);
    assert_eq!(m.version, "0.0.1");
    assert!(m.dependencies.is_empty());
    assert!(default_package_lock().built_dependencies.is_empty());
}

#[test]
fn warnings_never_gate_but_internals_do() {
    let mut ds = vec![Diagnostic::warning("advice".to_string())];
    assert!(!has_error(&ds));
    ds.push(Diagnostic::internal("defect".to_string()));
    assert!(has_error(&ds));
    assert!(ds[1].needs_bug_report());
    assert!(!ds[0].needs_bug_report());
    assert!(has_error(&vec![Diagnostic::error("user error".to_string())]));
}

#[test]
fn cache_assigns_unique_ids_and_fails_stale_lookups() {
    let mut cache = Cache::new();
    let d0 = Declaration {
        name: "main".to_string(),
        kind: DeclKind::Function(FunctionDecl {
            params: vec![],
            return_ty: Ty::Unit,
            body: vec![],
        }),
        span: None,
    };
    let d1 = Declaration { name: "t".to_string(), kind: DeclKind::TypeAlias(Ty::Int), span: None };
    let id0 = cache.register(d0);
    let id1 = cache.register(d1);
    assert_eq!(id0, 0);
    assert_eq!(id1, 1);
    assert_eq!(cache.len(), 2);
    assert_eq!(cache.lookup(id1).unwrap().name, "t");
    // a stale or unknown id fails explicitly, never silently
    assert!(cache.lookup(7).is_none());
    assert_eq!(cache.entry_point(), None);
    cache.set_entry_point(id0);
    assert_eq!(cache.entry_point(), Some(id0));
}
