use spin_deps::descriptor::{
    empty_descriptor, load_descriptor, merge_dependency, parse_descriptor, render_descriptor,
};
use spin_deps::graph::{CapabilityGraph, InterfaceDef, WorldDef, WorldItem};
use spin_deps::merge::{merge_graphs, merge_world_imports};
use spin_deps::name::{parse_itf_qname, qualified_itf_name, PackageName};
use spin_deps::select::{enumerate_exports, get_exported_interfaces, importize, select_world};
use spin_deps::DepsError;

fn pkg(ns: &str, name: &str, version: Option<&str>) -> PackageName {
    PackageName {
        namespace: ns.as_bytes().to_vec(),
        name: name.as_bytes().to_vec(),
        version: version.map(|v| v.as_bytes().to_vec()),
    }
}

/// A candidate graph exporting the named interfaces from one package, with
/// an import-only world already derived from the exports.
fn candidate(ns: &str, name: &str, version: Option<&str>, ifaces: &[(&str, &[&str])]) -> CapabilityGraph {
    let packages = vec![pkg(ns, name, version)];
    let mut interfaces = Vec::new();
    let mut items = Vec::new();
    for (i, (iname, funcs)) in ifaces.iter().enumerate() {
        interfaces.push(InterfaceDef {
            name: iname.as_bytes().to_vec(),
            package: 0,
            funcs: funcs.iter().map(|f| f.as_bytes().to_vec()).collect(),
        });
        items.push(WorldItem::Interface { id: i });
    }
    let world = WorldDef {
        name: b"candidate-world".to_vec(),
        package: 0,
        imports: items,
        exports: Vec::new(),
    };
    CapabilityGraph { packages, interfaces, worlds: vec![world] }
}

fn imported_keys(text: &[u8]) -> Vec<Vec<u8>> {
    let d = parse_descriptor(&text.to_vec());
    let w = &d.graph.worlds[d.deps_world];
    w.imports
        .iter()
        .map(|it| spin_deps::graph::item_key_of(&d.graph, it))
        .collect()
}

#[test]
fn empty_descriptor_has_no_imports() {
    let d = empty_descriptor();
    assert_eq!(d.graph.worlds.len(), 1);
    assert!(d.graph.worlds[0].imports.is_empty());
}

#[test]
fn scenario_single_selection_imports_exactly_one_capability() {
    // An empty descriptor plus one selected interface yields a deps world
    // importing exactly that capability.
    let cand = candidate("ns", "http", Some("0.1.0"), &[("handler", &["handle: func()"])]);
    let mut d = load_descriptor(None);
    let text = merge_dependency(&mut d, &cand, 0).expect("merge");
    let keys = imported_keys(&text);
    assert_eq!(keys, vec![b"ns:http/handler@0.1.0".to_vec()]);
    assert_eq!(d.graph.worlds[d.deps_world].imports.len(), 1);
}

#[test]
fn scenario_re_adding_existing_capability_adds_no_duplicate() {
    // An existing descriptor importing ns:a/x@1.0.0 merged with a selection
    // importing ns:a/x@1.0.0 and ns:b/y@1.0.0 ends with exactly those two
    // imports and no duplicate for ns:a/x.
    let first = candidate("ns", "a", Some("1.0.0"), &[("x", &["f: func()"])]);
    let mut d1 = load_descriptor(None);
    let text1 = merge_dependency(&mut d1, &first, 0).expect("first merge");

    let mut second = candidate("ns", "a", Some("1.0.0"), &[("x", &["f: func()"])]);
    second.packages.push(pkg("ns", "b", Some("1.0.0")));
    second.interfaces.push(InterfaceDef {
        name: b"y".to_vec(),
        package: 1,
        funcs: vec![b"g: func()".to_vec()],
    });
    second.worlds[0].imports.push(WorldItem::Interface { id: 1 });

    let mut d2 = load_descriptor(Some(&text1));
    let text2 = merge_dependency(&mut d2, &second, 0).expect("second merge");
    let keys = imported_keys(&text2);
    assert_eq!(
        keys,
        vec![b"ns:a/x@1.0.0".to_vec(), b"ns:b/y@1.0.0".to_vec()],
        "exactly the two capabilities, no duplicate entry for ns:a/x"
    );
}

#[test]
fn adding_same_capability_twice_is_byte_identical() {
    // Idempotence: adding the same capability twice yields a descriptor
    // byte-identical to adding it once.
    let cand = candidate("deps-test", "markdown", Some("2.0.0"), &[(
        "render",
        &["render: func(s: string) -> string"],
    )]);
    let mut da = load_descriptor(None);
    let once = merge_dependency(&mut da, &cand, 0).expect("first add");
    let cand_again = candidate("deps-test", "markdown", Some("2.0.0"), &[(
        "render",
        &["render: func(s: string) -> string"],
    )]);
    let mut db = load_descriptor(Some(&once));
    let twice = merge_dependency(&mut db, &cand_again, 0).expect("second add");
    assert_eq!(once, twice, "re-adding the same capability must be a no-op on the bytes");
}

#[test]
fn merge_order_independent_as_a_set() {
    // {A, B} then {B, C} reaches the same import set as {A, B, C} in one
    // pass, and the first-seen order is A, B, C.
    let ab = candidate("ns", "p", Some("1.0.0"), &[("a", &[]), ("b", &[])]);
    let bc = candidate("ns", "p", Some("1.0.0"), &[("b", &[]), ("c", &[])]);
    let abc = candidate("ns", "p", Some("1.0.0"), &[("a", &[]), ("b", &[]), ("c", &[])]);

    let mut dab = load_descriptor(None);
    let t1 = merge_dependency(&mut dab, &ab, 0).expect("ab");
    let mut dbc = load_descriptor(Some(&t1));
    let t2 = merge_dependency(&mut dbc, &bc, 0).expect("bc");
    let mut dfull = load_descriptor(None);
    let tu = merge_dependency(&mut dfull, &abc, 0).expect("abc");

    let mut two_step = imported_keys(&t2);
    let mut one_pass = imported_keys(&tu);
    assert_eq!(two_step, one_pass, "first-seen order is a, b, c either way");
    two_step.sort();
    one_pass.sort();
    assert_eq!(two_step, one_pass);
}

#[test]
fn conflicting_shapes_abort_the_merge() {
    // Two graphs defining the same qualified interface with different
    // function signatures: merging the second into a descriptor holding
    // the first raises CompositionConflict.
    let first = candidate("ns", "pkg", Some("1.0.0"), &[("iface", &["f: func(x: u32)"])]);
    let mut d1 = load_descriptor(None);
    let text = merge_dependency(&mut d1, &first, 0).expect("first");
    let clashing = candidate("ns", "pkg", Some("1.0.0"), &[("iface", &["f: func(x: string)"])]);
    let mut d2 = load_descriptor(Some(&text));
    match merge_dependency(&mut d2, &clashing, 0) {
        Err(DepsError::CompositionConflict { qname }) => {
            assert_eq!(qname, b"ns:pkg/iface@1.0.0".to_vec());
        }
        other => panic!("expected a composition conflict, got {:?}", other.is_ok()),
    }
}

#[test]
fn render_then_parse_reproduces_the_import_set() {
    // Round trip: rendering a descriptor and re-parsing it reproduces an
    // equivalent world, with the same import set by qualified name.
    let cand = candidate(
        "ns",
        "mixed",
        None,
        &[("alpha", &["go: func()"]), ("beta", &[])],
    );
    let mut d = load_descriptor(None);
    let text = merge_dependency(&mut d, &cand, 0).expect("merge");
    let direct: Vec<Vec<u8>> = d.graph.worlds[d.deps_world]
        .imports
        .iter()
        .map(|it| spin_deps::graph::item_key_of(&d.graph, it))
        .collect();
    let reparsed = imported_keys(&text);
    assert_eq!(direct, reparsed);

    // A second render of the re-parsed descriptor is byte-identical too.
    let d2 = parse_descriptor(&text);
    let text2 = render_descriptor(&d2);
    let d3 = parse_descriptor(&text2);
    assert_eq!(imported_keys(&text), imported_keys(&text2));
    assert_eq!(d2.graph.packages.len(), d3.graph.packages.len());
}

#[test]
fn loading_absent_descriptor_synthesizes_the_skeleton() {
    let d = load_descriptor(None);
    assert_eq!(d.graph.worlds[0].name, b"deps".to_vec());
    assert!(d.graph.worlds[0].imports.is_empty());
    assert!(d.graph.worlds[0].exports.is_empty());
}

#[test]
fn enumerator_rejects_a_component_with_nothing_importable() {
    let g = CapabilityGraph {
        packages: vec![pkg("ns", "empty", None)],
        interfaces: Vec::new(),
        worlds: vec![WorldDef {
            name: b"main".to_vec(),
            package: 0,
            imports: Vec::new(),
            exports: Vec::new(),
        }],
    };
    match enumerate_exports(&g, 0) {
        Err(DepsError::NoExportedInterfaces) => {}
        _ => panic!("expected NoExportedInterfaces"),
    }
}

#[test]
fn enumerator_groups_interfaces_by_owning_package() {
    let mut g = CapabilityGraph {
        packages: vec![pkg("ns", "one", None), pkg("ns", "two", None)],
        interfaces: vec![
            InterfaceDef { name: b"a".to_vec(), package: 0, funcs: Vec::new() },
            InterfaceDef { name: b"b".to_vec(), package: 1, funcs: Vec::new() },
            InterfaceDef { name: b"c".to_vec(), package: 0, funcs: Vec::new() },
        ],
        worlds: vec![WorldDef {
            name: b"main".to_vec(),
            package: 0,
            imports: Vec::new(),
            exports: vec![
                WorldItem::Interface { id: 0 },
                WorldItem::Interface { id: 1 },
                WorldItem::Interface { id: 2 },
                WorldItem::Function { name: b"loose".to_vec() },
            ],
        }],
    };
    let pairs = get_exported_interfaces(&g, 0);
    assert_eq!(pairs.len(), 3, "function items are not selectable capabilities");
    let groups = enumerate_exports(&g, 0).expect("groups");
    assert_eq!(groups.len(), 2);
    assert_eq!(groups[0].0.name, b"one".to_vec());
    assert_eq!(groups[0].1, vec![b"a".to_vec(), b"c".to_vec()]);
    assert_eq!(groups[1].0.name, b"two".to_vec());
    assert_eq!(groups[1].1, vec![b"b".to_vec()]);

    // Importizing turns the exports into imports of a renamed world.
    importize(&mut g, 0, &b"ns-one".to_vec());
    assert_eq!(g.worlds[0].name, b"ns-one".to_vec());
    assert_eq!(g.worlds[0].imports.len(), 4);
    assert!(g.worlds[0].exports.is_empty());
}

#[test]
fn world_selection_by_name_and_by_uniqueness() {
    let g = CapabilityGraph {
        packages: vec![pkg("ns", "p", None)],
        interfaces: Vec::new(),
        worlds: vec![WorldDef {
            name: b"solo".to_vec(),
            package: 0,
            imports: Vec::new(),
            exports: Vec::new(),
        }],
    };
    assert_eq!(select_world(&g, 0, None).expect("unique world"), 0);
    assert_eq!(select_world(&g, 0, Some(&b"solo".to_vec())).expect("by name"), 0);
    assert!(select_world(&g, 0, Some(&b"missing".to_vec())).is_err());
}

#[test]
fn translation_reuses_existing_identifiers_and_appends_fresh_ones() {
    let mut target = empty_descriptor().graph;
    let cand = candidate("ns", "p", Some("1.0.0"), &[("i", &[])]);
    let tr = merge_graphs(&mut target, &cand).expect("merge");
    assert_eq!(tr.package_map, vec![1]);
    assert_eq!(tr.interface_map, vec![0]);
    assert_eq!(tr.world_map, vec![1]);

    // Merging the identical candidate again translates onto the same ids.
    let cand2 = candidate("ns", "p", Some("1.0.0"), &[("i", &[])]);
    let before_pkgs = target.packages.len();
    let tr2 = merge_graphs(&mut target, &cand2).expect("merge again");
    assert_eq!(tr2.package_map, vec![1]);
    assert_eq!(tr2.interface_map, vec![0]);
    assert_eq!(tr2.world_map, vec![1]);
    assert_eq!(target.packages.len(), before_pkgs, "nothing appended");
}

#[test]
fn union_merge_skips_present_keys_and_keeps_order() {
    let mut g = CapabilityGraph {
        packages: vec![pkg("ns", "p", None)],
        interfaces: vec![
            InterfaceDef { name: b"a".to_vec(), package: 0, funcs: Vec::new() },
            InterfaceDef { name: b"b".to_vec(), package: 0, funcs: Vec::new() },
        ],
        worlds: vec![
            WorldDef {
                name: b"deps".to_vec(),
                package: 0,
                imports: vec![WorldItem::Interface { id: 0 }],
                exports: Vec::new(),
            },
            WorldDef {
                name: b"incoming".to_vec(),
                package: 0,
                imports: vec![WorldItem::Interface { id: 0 }, WorldItem::Interface { id: 1 }],
                exports: Vec::new(),
            },
        ],
    };
    merge_world_imports(&mut g, 0, 1);
    let keys: Vec<Vec<u8>> = g.worlds[0]
        .imports
        .iter()
        .map(|it| spin_deps::graph::item_key_of(&g, it))
        .collect();
    assert_eq!(keys, vec![b"ns:p/a".to_vec(), b"ns:p/b".to_vec()]);
}

#[test]
fn qualified_names_render_and_parse_back() {
    let p = pkg("wasi", "http", Some("0.2.0"));
    let q = qualified_itf_name(&p, &b"types".to_vec());
    assert_eq!(q, b"wasi:http/types@0.2.0".to_vec());
    let (p2, itf) = parse_itf_qname(&q).expect("parse");
    assert_eq!(p2.namespace, b"wasi".to_vec());
    assert_eq!(p2.name, b"http".to_vec());
    assert_eq!(p2.version, Some(b"0.2.0".to_vec()));
    assert_eq!(itf, b"types".to_vec());
    assert!(parse_itf_qname(b"no-separators").is_none());
    assert!(parse_itf_qname(b"Upper:case/x").is_none());
}

#[test]
fn rendered_descriptor_has_canonical_shape() {
    let cand = candidate("ns", "p", Some("1.0.0"), &[("i", &["f: func()"])]);
    let mut d = load_descriptor(None);
    let text = merge_dependency(&mut d, &cand, 0).expect("merge");
    let s = String::from_utf8(text.clone()).expect("ascii");
    assert!(s.starts_with("package deps:component;\n"));
    assert!(s.contains("world deps {\n"));
    assert!(s.contains("  import ns:p/i@1.0.0;\n"));
    assert!(s.contains("package ns:p@1.0.0 {\n"));
    assert!(s.contains("  interface i {\n"));
    assert!(s.contains("    f: func()\n"));
}
