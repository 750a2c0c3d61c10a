use spin_deps::descriptor::{load_descriptor, merge_dependency};
use spin_deps::graph::{check_graph_wf, CapabilityGraph, InterfaceDef, WorldDef, WorldItem};
use spin_deps::manifest::{edit_component_deps_in_manifest, ComponentDependency, DependencyTable};
use spin_deps::name::PackageName;
use spin_deps::select::build_candidate;
use spin_deps::DepsError;

fn pkg(ns: &str, name: &str, version: Option<&str>) -> PackageName {
    PackageName {
        namespace: ns.as_bytes().to_vec(),
        name: name.as_bytes().to_vec(),
        version: version.map(|v| v.as_bytes().to_vec()),
    }
}

fn source_graph() -> CapabilityGraph {
    CapabilityGraph {
        packages: vec![pkg("ns", "p", Some("1.0.0"))],
        interfaces: vec![InterfaceDef {
            name: b"render".to_vec(),
            package: 0,
            funcs: vec![b"go: func(s: string) -> string;".to_vec()],
        }],
        worlds: vec![WorldDef {
            name: b"main".to_vec(),
            package: 0,
            imports: Vec::new(),
            exports: vec![WorldItem::Interface { id: 0 }],
        }],
    }
}

#[test]
fn a_non_table_component_binding_is_an_error_not_a_panic() {
    // A manifest that binds `component` to a plain value parses as TOML;
    // editing it must fail cleanly.
    let manifest = b"component = 1\n".to_vec();
    let mut t = DependencyTable::new();
    t.insert(
        b"ns:a/x@1.0.0".to_vec(),
        ComponentDependency::Local { path: b"./x.wasm".to_vec() },
    );
    match edit_component_deps_in_manifest(&manifest, &b"example".to_vec(), &t) {
        Err(DepsError::IoFailure { .. }) => {}
        _ => panic!("expected a clean error on the blocked component path"),
    }
}

#[test]
fn non_ascii_staged_bytes_are_rejected_not_mangled() {
    // The string-keyed editor would lossily rewrite non-UTF-8 bytes, so
    // the edit refuses them instead of storing something else.
    let manifest = b"spin_manifest_version = 2\n".to_vec();
    let mut t = DependencyTable::new();
    t.insert(
        vec![0xFF, 0x3A, 0x61],
        ComponentDependency::Version { version: b"1.0.0".to_vec() },
    );
    match edit_component_deps_in_manifest(&manifest, &b"example".to_vec(), &t) {
        Err(DepsError::IoFailure { .. }) => {}
        _ => panic!("non-ASCII staged bytes must be rejected"),
    }
    let mut t2 = DependencyTable::new();
    t2.insert(
        b"ns:a/x@1.0.0".to_vec(),
        ComponentDependency::Local { path: vec![0xC0, 0x2F] },
    );
    match edit_component_deps_in_manifest(&manifest, &b"example".to_vec(), &t2) {
        Err(DepsError::IoFailure { .. }) => {}
        _ => panic!("non-ASCII staged values must be rejected"),
    }
}

#[test]
fn editing_creates_missing_component_levels() {
    let manifest = b"spin_manifest_version = 2\n".to_vec();
    let mut t = DependencyTable::new();
    t.insert(
        b"ns:a/x@1.0.0".to_vec(),
        ComponentDependency::Version { version: b"1.0.0".to_vec() },
    );
    let out = edit_component_deps_in_manifest(&manifest, &b"example".to_vec(), &t)
        .expect("levels are created on demand");
    let s = String::from_utf8(out).expect("utf8");
    assert!(s.contains("dependencies"));
    assert!(s.contains("\"ns:a/x@1.0.0\""));
}

#[test]
fn candidate_building_accepts_a_good_selection() {
    let g = source_graph();
    assert!(check_graph_wf(&g));
    let selection = vec![(pkg("ns", "p", Some("1.0.0")), vec![b"render".to_vec()])];
    let (cand, world) = build_candidate(&g, &selection).expect("valid selection");
    assert!(check_graph_wf(&cand));
    let keys: Vec<Vec<u8>> = cand.worlds[world]
        .imports
        .iter()
        .map(|it| spin_deps::graph::item_key_of(&cand, it))
        .collect();
    assert_eq!(keys, vec![b"ns:p/render@1.0.0".to_vec()]);
    assert_eq!(
        cand.interfaces[0].funcs,
        vec![b"go: func(s: string) -> string;".to_vec()],
        "the candidate carries the source graph's shapes"
    );
}

#[test]
fn candidate_building_rejects_bad_selections() {
    let g = source_graph();
    let empty: Vec<(PackageName, Vec<Vec<u8>>)> = Vec::new();
    assert!(matches!(
        build_candidate(&g, &empty),
        Err(DepsError::InvalidComponent { .. })
    ));
    let dup_pkg = vec![
        (pkg("ns", "p", None), vec![b"a".to_vec()]),
        (pkg("ns", "p", None), vec![b"b".to_vec()]),
    ];
    assert!(build_candidate(&g, &dup_pkg).is_err());
    let dup_name = vec![(pkg("ns", "p", None), vec![b"a".to_vec(), b"a".to_vec()])];
    assert!(build_candidate(&g, &dup_name).is_err());
    let bad_name = vec![(pkg("ns", "p", None), vec![b"Not Valid".to_vec()])];
    assert!(build_candidate(&g, &bad_name).is_err());
}

#[test]
fn graph_checker_rejects_broken_graphs() {
    let mut g = source_graph();
    assert!(check_graph_wf(&g));
    g.interfaces[0].package = 7;
    assert!(!check_graph_wf(&g), "a dangling package index is rejected");
    let mut g2 = source_graph();
    g2.packages.push(pkg("ns", "p", Some("1.0.0")));
    assert!(!check_graph_wf(&g2), "duplicate package names are rejected");
}

#[test]
fn descriptor_checker_validates_the_shape() {
    let d = load_descriptor(None);
    assert!(d.check());
    let mut broken = load_descriptor(None);
    broken.graph.worlds[0].name = b"other".to_vec();
    assert!(!broken.check());
}

#[test]
fn conflict_errors_carry_the_offending_name() {
    let mut d = load_descriptor(None);
    let first = build_candidate(
        &source_graph(),
        &vec![(pkg("ns", "p", Some("1.0.0")), vec![b"render".to_vec()])],
    )
    .expect("candidate");
    merge_dependency(&mut d, &first.0, first.1).expect("first add");

    // The same interface with a different shape conflicts, and the error
    // names it.
    let mut clashing_src = source_graph();
    clashing_src.interfaces[0].funcs = vec![b"go: func(n: u32);".to_vec()];
    let clashing = build_candidate(
        &clashing_src,
        &vec![(pkg("ns", "p", Some("1.0.0")), vec![b"render".to_vec()])],
    )
    .expect("candidate");
    match merge_dependency(&mut d, &clashing.0, clashing.1) {
        Err(DepsError::CompositionConflict { qname }) => {
            assert_eq!(qname, b"ns:p/render@1.0.0".to_vec());
        }
        _ => panic!("expected a conflict carrying the qualified name"),
    }
}
