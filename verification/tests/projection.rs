use spin_deps::bindings::{
    infer_language, module_index_content, package_json_content, patch_root_module,
    register_module, rust_module_text, sdk_module_path_of, ts_export_entries, ts_reexport_index,
    tsconfig_content, BindingsLanguage, GenerateBindingsCommand, Language,
};
use spin_deps::bytes::contains_subseq;
use spin_deps::name::PackageName;
use spin_deps::paths::fs_safe_segment;
use spin_deps::wellknown::{identifier_safe, is_sdk_known, is_stdlib_known};
use spin_deps::DepsError;

fn count_occurrences(hay: &[u8], needle: &[u8]) -> usize {
    if needle.is_empty() || hay.len() < needle.len() {
        return 0;
    }
    (0..=hay.len() - needle.len()).filter(|&i| &hay[i..i + needle.len()] == needle).count()
}

#[test]
fn scenario_unknown_ecosystem_is_fatal() {
    // A build directory with neither a native-toolchain manifest nor a
    // script package descriptor fails with UnknownBuildEcosystem.
    match infer_language(b"comp".to_vec(), true, false, false, b"comp/package.json".to_vec()) {
        Err(DepsError::UnknownBuildEcosystem { detail }) => {
            assert_eq!(detail, b"comp".to_vec(), "the error names the attempted directory");
        }
        _ => panic!("expected UnknownBuildEcosystem"),
    }
    match infer_language(b"gone".to_vec(), false, true, true, Vec::new()) {
        Err(DepsError::UnknownBuildEcosystem { detail }) => {
            assert_eq!(detail, b"gone".to_vec());
        }
        _ => panic!("a missing build directory cannot be classified"),
    }
    match infer_language(b"comp".to_vec(), true, true, false, Vec::new()) {
        Ok(Language::Rust) => {}
        _ => panic!("a native toolchain manifest selects the native ecosystem"),
    }
    match infer_language(b"comp".to_vec(), true, false, true, b"p/package.json".to_vec()) {
        Ok(Language::TypeScript { package_json }) => {
            assert_eq!(package_json, b"p/package.json".to_vec());
        }
        _ => panic!("a script package descriptor selects the script ecosystem"),
    }
}

#[test]
fn scenario_module_registration_is_idempotent() {
    // Running the native-ecosystem projection twice leaves exactly one
    // registration line for the dependency in the module index.
    let existing = b"pub mod earlier;\n".to_vec();
    let once = register_module(&existing, &b"ns_dep".to_vec());
    let twice = register_module(&once, &b"ns_dep".to_vec());
    assert_eq!(once, twice);
    assert_eq!(count_occurrences(&twice, b"mod ns_dep;"), 1);
    assert!(contains_subseq(&twice, b"pub mod ns_dep;\n"));
}

#[test]
fn scenario_colliding_reexport_identifiers_get_package_prefix() {
    // Two interfaces mapping to the same camel-cased identifier: the second
    // occurrence is prefixed with the owning package's name, so both names
    // stay distinct and resolvable.
    let entries = vec![
        (b"foo".to_vec(), b"ns:p/one@1.0.0".to_vec()),
        (b"foo".to_vec(), b"ns:p/two@1.0.0".to_vec()),
    ];
    let index = ts_reexport_index(&b"pkg".to_vec(), &entries);
    let s = String::from_utf8(index).expect("ascii");
    assert!(s.contains("import * as foo from 'ns:p/one@1.0.0';"));
    assert!(s.contains("export { foo };"));
    assert!(s.contains("import * as pkgfoo from 'ns:p/two@1.0.0';"));
    assert!(s.contains("export { pkgfoo };"));
}

#[test]
fn export_entries_carry_camel_cased_identifiers() {
    let p = PackageName {
        namespace: b"ns".to_vec(),
        name: b"p".to_vec(),
        version: Some(b"1.0.0".to_vec()),
    };
    let entries = ts_export_entries(&p, &vec![b"markdown-fns".to_vec()]);
    assert_eq!(entries.len(), 1);
    assert_eq!(entries[0].0, b"markdownFns".to_vec(), "camel casing is real, not identity");
    assert_eq!(entries[0].1, b"ns:p/markdown-fns@1.0.0".to_vec());
}

#[test]
fn native_module_text_filters_stdlib_and_reuses_sdk_bindings() {
    let itfs = vec![
        b"wasi:io/error@0.2.0".to_vec(),
        b"wasi:keyvalue/store@0.2.0-draft2".to_vec(),
        b"deps:markdown/render@2.0.0".to_vec(),
    ];
    let text = rust_module_text(&b".wit/deps/ns-p.wit".to_vec(), &b"ns-p".to_vec(), &itfs);
    let s = String::from_utf8(text).expect("ascii");
    assert!(!s.contains("import wasi:io/error@0.2.0;"), "stdlib interfaces are never imported");
    assert!(s.contains("        import wasi:keyvalue/store@0.2.0-draft2;\n"));
    assert!(s.contains("        import deps:markdown/render@2.0.0;\n"));
    assert!(
        s.contains("\"wasi:keyvalue/store@0.2.0-draft2\": spin_sdk::wit::wasi::keyvalue::store,"),
        "SDK-provided capabilities reuse the SDK bindings"
    );
    assert!(s.contains("\"deps:markdown/render@2.0.0\": generate,"));
    assert!(s.contains("path: \".wit/deps/ns-p.wit\""));
}

#[test]
fn sdk_module_paths_follow_the_native_naming() {
    let p = sdk_module_path_of(&b"wasi:http/incoming-handler@0.2.0".to_vec());
    assert_eq!(p, b"spin_sdk::wit::wasi::http::incoming_handler".to_vec());
}

#[test]
fn root_module_patch_inserts_after_the_last_module_line() {
    let lib = b"mod a;\nmod b;\n\nfn body() {}".to_vec();
    let patched = patch_root_module(&lib);
    assert_eq!(
        String::from_utf8(patched.clone()).expect("ascii"),
        "mod a;\nmod b;\nmod deps;\n\nfn body() {}"
    );
    let again = patch_root_module(&patched);
    assert_eq!(patched, again, "the literal guard makes the patch idempotent");

    let bare = b"fn only() {}".to_vec();
    let patched_bare = patch_root_module(&bare);
    assert_eq!(String::from_utf8(patched_bare).expect("ascii"), "mod deps;\n\nfn only() {}");
}

#[test]
fn module_index_lists_every_generated_module() {
    let names = vec![b"alpha".to_vec(), b"beta".to_vec()];
    let content = module_index_content(&names);
    assert_eq!(
        String::from_utf8(content).expect("ascii"),
        "pub mod alpha;\npub mod beta;\n"
    );
}

#[test]
fn wellknown_lists_recognize_their_members() {
    assert!(is_stdlib_known("wasi:io/error@0.2.0"));
    assert!(is_stdlib_known("wasi:random/random@0.2.0"));
    assert!(!is_stdlib_known("wasi:io/error@0.2.1"));
    assert!(!is_stdlib_known("deps:markdown/render@2.0.0"));
    assert!(is_sdk_known("wasi:http/incoming-handler@0.2.0"));
    assert!(is_sdk_known("spin:postgres/postgres@3.0.0"), "the SDK namespace is a prefix rule");
    assert!(!is_sdk_known("wasi:io/error@0.2.0"));
}

#[test]
fn filesystem_segments_replace_separators() {
    assert_eq!(fs_safe_segment(&b"ns:pkg/itf@1.0.0".to_vec()), b"ns-pkg-itf@1.0.0".to_vec());
    assert_eq!(fs_safe_segment(&b"plain".to_vec()), b"plain".to_vec());
}

#[test]
fn identifier_safe_joins_namespace_and_name() {
    let p = PackageName {
        namespace: b"ns".to_vec(),
        name: b"markdown".to_vec(),
        version: Some(b"2.0.0".to_vec()),
    };
    assert_eq!(identifier_safe(&p), b"ns_markdown".to_vec());
}

#[test]
fn generated_descriptor_files_have_their_fixed_content() {
    let pj = package_json_content(&b"@spin-deps/ns-p@1.0.0".to_vec(), &b"ns-p-1.0.0".to_vec());
    let s = String::from_utf8(pj).expect("ascii");
    assert!(s.contains("\"name\": \"@spin-deps/ns-p@1.0.0\""));
    assert!(s.contains("\"world\": \"ns-p-1.0.0\""));
    assert!(s.contains("\"package\": \"root:component\""));
    let ts = tsconfig_content();
    let t = String::from_utf8(ts).expect("ascii");
    assert!(t.contains("\"target\": \"ES2020\""));
    assert!(t.contains("\"strict\": true"));
}

#[test]
fn bindings_command_carries_its_fields() {
    let cmd = GenerateBindingsCommand {
        language: BindingsLanguage::Rust,
        output: b"src/deps".to_vec(),
        component_id: b"example".to_vec(),
    };
    assert!(matches!(cmd.language, BindingsLanguage::Rust));
    assert_eq!(cmd.output, b"src/deps".to_vec());
    assert_eq!(cmd.component_id, b"example".to_vec());
}
