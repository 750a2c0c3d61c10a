use spin_deps::descriptor::{load_descriptor, merge_dependency, parse_descriptor, render_descriptor};
use spin_deps::graph::{world_name_for, CapabilityGraph, InterfaceDef, WorldDef, WorldItem};
use spin_deps::name::PackageName;

fn keys_of(d: &spin_deps::descriptor::Descriptor) -> Vec<Vec<u8>> {
    d.graph.worlds[d.deps_world]
        .imports
        .iter()
        .map(|it| spin_deps::graph::item_key_of(&d.graph, it))
        .collect()
}

#[test]
fn parser_recovers_around_unreadable_lines() {
    let text = b"% not part of any grammar\npackage deps:component;\nworld deps {\n  import ns:p/alpha@1.0.0;\n  import this is not a name;\n}\nstray closing }\n".to_vec();
    let d = parse_descriptor(&text);
    assert_eq!(keys_of(&d), vec![b"ns:p/alpha@1.0.0".to_vec()]);
}

#[test]
fn parser_keeps_plain_function_imports() {
    let text = b"world deps {\n  import render;\n}\n".to_vec();
    let d = parse_descriptor(&text);
    assert_eq!(keys_of(&d), vec![b"render".to_vec()]);
    // Such an import survives a render/parse round trip as well.
    let again = parse_descriptor(&render_descriptor(&d));
    assert_eq!(keys_of(&again), vec![b"render".to_vec()]);
}

#[test]
fn parser_restores_interface_shapes_for_conflict_detection() {
    let text = b"package deps:component;\nworld deps {\n  import ns:p/i@1.0.0;\n}\npackage ns:p@1.0.0 {\n  interface i {\n    f: func(x: u32)\n  }\n}\n".to_vec();
    let d = parse_descriptor(&text);
    let itf = d
        .graph
        .interfaces
        .iter()
        .find(|i| i.name == b"i".to_vec())
        .expect("interface restored");
    assert_eq!(itf.funcs, vec![b"f: func(x: u32)".to_vec()]);
}

#[test]
fn derived_world_names_flatten_qualified_names() {
    assert_eq!(world_name_for(&b"ns:pkg@1.0.0".to_vec()), b"ns-pkg1.0.0".to_vec());
    assert_eq!(world_name_for(&b"ns:pkg/iface".to_vec()), b"ns-pkg-iface".to_vec());
}

#[test]
fn merging_candidates_with_versionless_packages() {
    let cand = CapabilityGraph {
        packages: vec![PackageName {
            namespace: b"ns".to_vec(),
            name: b"plain".to_vec(),
            version: None,
        }],
        interfaces: vec![InterfaceDef { name: b"only".to_vec(), package: 0, funcs: Vec::new() }],
        worlds: vec![WorldDef {
            name: b"incoming".to_vec(),
            package: 0,
            imports: vec![WorldItem::Interface { id: 0 }],
            exports: Vec::new(),
        }],
    };
    let mut d = load_descriptor(None);
    let text = merge_dependency(&mut d, &cand, 0).expect("merge");
    assert_eq!(keys_of(&d), vec![b"ns:plain/only".to_vec()]);
    let reparsed = parse_descriptor(&text);
    assert_eq!(keys_of(&reparsed), vec![b"ns:plain/only".to_vec()]);
}
