use spin_deps::manifest::{
    dep_pairs, edit_component_deps_in_manifest, require_component, source_to_dependency,
    ComponentDependency, DependencyTable,
};
use spin_deps::source::{
    classify_source, pick_release, resolve_publish_package, sha256_hex,
    verify_component_digest, ComponentSource, ReleaseFacts,
};
use spin_deps::DepsError;

const ABC_SHA256: &str = "ba7816bf8f01cfea414140de5dae2223b00361a396177a9cb410ff61f20015ad";

#[test]
fn digest_verification_accepts_the_true_digest() {
    let bytes = b"abc".to_vec();
    assert_eq!(sha256_hex(&bytes), ABC_SHA256.as_bytes().to_vec());
    assert!(verify_component_digest(&bytes, &ABC_SHA256.as_bytes().to_vec()).is_ok());
}

#[test]
fn digest_verification_reports_expected_and_actual() {
    let bytes = b"abc".to_vec();
    let wrong = b"0000000000000000000000000000000000000000000000000000000000000000".to_vec();
    match verify_component_digest(&bytes, &wrong) {
        Err(DepsError::DigestMismatch { expected, actual }) => {
            assert_eq!(expected, wrong);
            assert_eq!(actual, ABC_SHA256.as_bytes().to_vec());
        }
        _ => panic!("expected DigestMismatch"),
    }
}

#[test]
fn an_existing_path_is_always_a_local_source() {
    match ComponentSource::infer_source(&b"./component.wasm".to_vec(), &None, &None, true) {
        Ok(ComponentSource::Local { path }) => assert_eq!(path, b"./component.wasm".to_vec()),
        _ => panic!("an existing path wins"),
    }
}

#[test]
fn http_sources_require_a_digest() {
    let url = Some((b"https".to_vec(), b"https://example.test/c.wasm".to_vec()));
    match classify_source(&b"https://example.test/c.wasm".to_vec(), false, url.clone(), None, &None, &None) {
        Err(DepsError::InvalidComponent { .. }) => {}
        _ => panic!("an HTTP source without a digest is rejected"),
    }
    match classify_source(
        &b"https://example.test/c.wasm".to_vec(),
        false,
        url,
        None,
        &Some(b"00ff".to_vec()),
        &None,
    ) {
        Ok(ComponentSource::Http { url, digest }) => {
            assert_eq!(url, b"https://example.test/c.wasm".to_vec());
            assert_eq!(digest, b"00ff".to_vec());
        }
        _ => panic!("an HTTP source with a digest is accepted"),
    }
}

#[test]
fn registry_sources_require_a_version() {
    let pkg_no_ver = Some((b"ns:pkg".to_vec(), None));
    match classify_source(&b"ns:pkg".to_vec(), false, None, pkg_no_ver, &None, &None) {
        Err(DepsError::InvalidComponent { .. }) => {}
        _ => panic!("a registry source without a version is rejected"),
    }
    let pkg = Some((b"ns:pkg".to_vec(), Some(b"^1.0.0".to_vec())));
    match classify_source(&b"ns:pkg@1.0.0".to_vec(), false, None, pkg, &None, &Some(b"reg.test".to_vec())) {
        Ok(ComponentSource::Registry { package, version, registry }) => {
            assert_eq!(package, b"ns:pkg".to_vec());
            assert_eq!(version, b"^1.0.0".to_vec());
            assert_eq!(registry, Some(b"reg.test".to_vec()));
        }
        _ => panic!("a registry source with a version is accepted"),
    }
}

#[test]
fn inferring_from_a_registry_reference_string() {
    // The registry parsers run for real here: a well-formed reference with
    // a version requirement classifies as a registry source.
    match ComponentSource::infer_source(&b"example:markdown@2.0.0".to_vec(), &None, &None, false) {
        Ok(ComponentSource::Registry { package, version, .. }) => {
            assert_eq!(package, b"example:markdown".to_vec());
            assert_eq!(version, b"^2.0.0".to_vec());
        }
        other => panic!("expected a registry source, got {:?}", other.is_ok()),
    }
    match ComponentSource::infer_source(&b"not a source at all".to_vec(), &None, &None, false) {
        Err(DepsError::InvalidComponent { .. }) => {}
        _ => panic!("an unparseable reference cannot be inferred"),
    }
}

#[test]
fn newest_matching_unyanked_release_wins() {
    let releases = vec![
        ReleaseFacts { matches_req: true, yanked: false },
        ReleaseFacts { matches_req: true, yanked: true },
        ReleaseFacts { matches_req: false, yanked: false },
    ];
    assert_eq!(pick_release(&releases), Some(0));
    let none = vec![ReleaseFacts { matches_req: true, yanked: true }];
    assert_eq!(pick_release(&none), None);
}

#[test]
fn publish_override_requires_a_version() {
    assert!(matches!(resolve_publish_package(None), Ok(None)));
    match resolve_publish_package(Some((b"ns:p".to_vec(), Some(b"1.2.3".to_vec())))) {
        Ok(Some((p, v))) => {
            assert_eq!(p, b"ns:p".to_vec());
            assert_eq!(v, b"1.2.3".to_vec());
        }
        _ => panic!("a full identity passes through"),
    }
    assert!(resolve_publish_package(Some((b"ns:p".to_vec(), None))).is_err());
}

#[test]
fn dependency_table_inserts_and_overwrites() {
    let mut t = DependencyTable::new();
    t.insert(b"ns:a/x@1.0.0".to_vec(), ComponentDependency::Version { version: b"1.0.0".to_vec() });
    t.insert(
        b"ns:a/x@1.0.0".to_vec(),
        ComponentDependency::Local { path: b"./x.wasm".to_vec() },
    );
    t.insert(b"ns:b/y@1.0.0".to_vec(), ComponentDependency::Version { version: b"1".to_vec() });
    assert_eq!(t.entries.len(), 2, "overwriting keeps one entry per name");
    assert_eq!(t.entries[0].0, b"ns:a/x@1.0.0".to_vec());
    assert!(matches!(t.entries[0].1, ComponentDependency::Local { .. }));
}

#[test]
fn selection_update_records_one_source_for_every_name() {
    let mut t = DependencyTable::new();
    let src = ComponentSource::Http {
        url: b"https://example.test/c.wasm".to_vec(),
        digest: b"00ff".to_vec(),
    };
    let dep = source_to_dependency(&src);
    let names = vec![b"ns:a/x@1.0.0".to_vec(), b"ns:a/y@1.0.0".to_vec()];
    t.update_for_selection(&names, &dep);
    assert_eq!(t.entries.len(), 2);
    for (_, d) in &t.entries {
        match d {
            ComponentDependency::Http { url, digest } => {
                assert_eq!(url, &b"https://example.test/c.wasm".to_vec());
                assert_eq!(digest, &b"sha256:00ff".to_vec());
            }
            _ => panic!("every selected name records the HTTP source"),
        }
    }
}

#[test]
fn dependency_entries_render_their_manifest_pairs() {
    let dep = ComponentDependency::Package {
        version: b"^1.0.0".to_vec(),
        registry: Some(b"reg.test".to_vec()),
        package: Some(b"ns:p".to_vec()),
    };
    let pairs = dep_pairs(&dep);
    let rendered: Vec<(Vec<u8>, Vec<u8>)> = pairs;
    assert_eq!(
        rendered,
        vec![
            (b"version".to_vec(), b"^1.0.0".to_vec()),
            (b"registry".to_vec(), b"reg.test".to_vec()),
            (b"package".to_vec(), b"ns:p".to_vec()),
        ]
    );
    let local = dep_pairs(&ComponentDependency::Local { path: b"./c.wasm".to_vec() });
    assert_eq!(local, vec![(b"path".to_vec(), b"./c.wasm".to_vec())]);
}

#[test]
fn manifest_edit_replaces_only_the_dependency_subtree() {
    let manifest = b"spin_manifest_version = 2\n\n# keep me\n[component.example]\nsource = \"app.wasm\"\n".to_vec();
    let mut t = DependencyTable::new();
    t.insert(
        b"ns:a/x@1.0.0".to_vec(),
        ComponentDependency::Local { path: b"./x.wasm".to_vec() },
    );
    let out = edit_component_deps_in_manifest(&manifest, &b"example".to_vec(), &t)
        .expect("well-formed manifest");
    let s = String::from_utf8(out).expect("utf8");
    assert!(s.contains("# keep me"), "unrelated content survives verbatim");
    assert!(s.contains("source = \"app.wasm\""));
    assert!(s.contains("dependencies"));
    assert!(s.contains("\"ns:a/x@1.0.0\""));
    assert!(s.contains("path = \"./x.wasm\""));

    let broken = b"[unclosed".to_vec();
    assert!(edit_component_deps_in_manifest(&broken, &b"example".to_vec(), &t).is_err());
}

#[test]
fn a_missing_component_id_is_reported() {
    let ids = vec![b"one".to_vec(), b"two".to_vec()];
    assert!(require_component(&ids, &b"two".to_vec()).is_ok());
    match require_component(&ids, &b"three".to_vec()) {
        Err(DepsError::ManifestComponentNotFound { component }) => {
            assert_eq!(component, b"three".to_vec());
        }
        _ => panic!("expected ManifestComponentNotFound"),
    }
}
