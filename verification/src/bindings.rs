//! The binding projector: infers the local component's source ecosystem and
//! renders the ecosystem-specific generated-source artifacts, including the
//! idempotent patches to existing generated-code registries.

use convert_case::{Case, Casing};
use vstd::prelude::*;
use vstd::string::*;

use crate::DepsError;
use crate::bytes::{contains_seq, contains_subseq, push_all};
use crate::name::{copy_bytes, find_byte_spec};
use crate::wellknown::{sdk_known_spec, stdlib_known_spec};

verus! {

broadcast use crate::bytes::lemma_bytes_deep_view;

/// The target language for generated bindings.
#[derive(Debug, Clone)]
pub enum BindingsLanguage {
    Ts,
    Rust,
}

/// A request to (re)generate bindings for one component's dependencies.
#[derive(Debug)]
pub struct GenerateBindingsCommand {
    /// The programming language to generate bindings in.
    pub language: BindingsLanguage,
    /// Output directory.
    pub output: Vec<u8>,
    /// Id of the component whose dependencies get bindings.
    pub component_id: Vec<u8>,
}

/// The inferred source ecosystem of a component's build directory.
pub enum Language {
    Rust,
    TypeScript { package_json: Vec<u8> },
}

/// Ecosystem inference from what the build directory holds: a native
/// toolchain manifest means the native ecosystem, a script package
/// descriptor means the script ecosystem, anything else is fatal, with the
/// error naming the attempted build directory.
pub fn infer_language(
    build_dir: Vec<u8>,
    build_dir_exists: bool,
    has_cargo_toml: bool,
    has_package_json: bool,
    package_json_path: Vec<u8>,
) -> (r: Result<Language, DepsError>)
    ensures
        match r {
            Ok(l) => build_dir_exists && (match l {
                Language::Rust => has_cargo_toml,
                Language::TypeScript { package_json } => !has_cargo_toml && has_package_json
                    && package_json@ == package_json_path@,
            }),
            Err(e) => (!build_dir_exists || (!has_cargo_toml && !has_package_json)) && (match e {
                DepsError::UnknownBuildEcosystem { detail } => detail@ == build_dir@,
                _ => false,
            }),
        },
{
    if !build_dir_exists {
        return Err(DepsError::UnknownBuildEcosystem { detail: build_dir });
    }
    if has_cargo_toml {
        return Ok(Language::Rust);
    }
    if has_package_json {
        return Ok(Language::TypeScript { package_json: package_json_path });
    }
    Err(DepsError::UnknownBuildEcosystem { detail: build_dir })
}

/// `"mod <name>;"`, the registration looked for in the module index.
pub open spec fn mod_decl(name: Seq<u8>) -> Seq<u8> {
    seq![('m' as u8), ('o' as u8), ('d' as u8), (' ' as u8)] + name + seq![(';' as u8)]
}

/// `"pub "`.
pub open spec fn pub_prefix() -> Seq<u8> {
    seq![('p' as u8), ('u' as u8), ('b' as u8), (' ' as u8)]
}

/// The module-index file after registering one module: unchanged when the
/// literal declaration is already present, else the public declaration is
/// appended on a line of its own.
pub open spec fn register_module_spec(existing: Seq<u8>, name: Seq<u8>) -> Seq<u8> {
    if contains_seq(existing, mod_decl(name)) {
        existing
    } else {
        existing + pub_prefix() + mod_decl(name) + seq![10u8]
    }
}

/// Builds `"mod <name>;"`.
fn build_mod_decl(name: &Vec<u8>) -> (r: Vec<u8>)
    ensures
        r@ == mod_decl(name@),
{
    let mut out: Vec<u8> = Vec::new();
    out.push('m' as u8);
    out.push('o' as u8);
    out.push('d' as u8);
    out.push(' ' as u8);
    push_all(&mut out, name.as_slice());
    out.push(';' as u8);
    assert(out@ =~= mod_decl(name@));
    out
}

/// Registers a dependency module in the module-index file, guarded by a
/// literal idempotency check: if the exact declaration text is already
/// present, nothing changes.
pub fn register_module(existing: &Vec<u8>, module_name: &Vec<u8>) -> (r: Vec<u8>)
    ensures
        r@ == register_module_spec(existing@, module_name@),
{
    let decl = build_mod_decl(module_name);
    if contains_subseq(existing.as_slice(), decl.as_slice()) {
        return copy_bytes(existing);
    }
    let mut out = copy_bytes(existing);
    out.push('p' as u8);
    out.push('u' as u8);
    out.push('b' as u8);
    out.push(' ' as u8);
    push_all(&mut out, decl.as_slice());
    out.push(10u8);
    assert(out@ =~= existing@ + pub_prefix() + mod_decl(module_name@) + seq![10u8]);
    out
}

/// Registering the same module twice leaves exactly one registration: the
/// second run finds the declaration the first run appended and changes
/// nothing.
pub proof fn lemma_register_module_idempotent(existing: Seq<u8>, name: Seq<u8>)
    ensures
        register_module_spec(register_module_spec(existing, name), name) == register_module_spec(
            existing,
            name,
        ),
{
    if !contains_seq(existing, mod_decl(name)) {
        let once = existing + pub_prefix() + mod_decl(name) + seq![10u8];
        let at = existing.len() + pub_prefix().len();
        assert(once.subrange(at as int, at + mod_decl(name).len() as int) =~= mod_decl(name));
        assert(crate::bytes::is_subseq_at(once, mod_decl(name), at as int));
        assert(contains_seq(once, mod_decl(name)));
    }
}

/// The expansion of `"::"` used when mapping qualified names to native
/// module paths.
pub open spec fn rust_sep() -> Seq<u8> {
    seq![(':' as u8), (':' as u8)]
}

/// Maps a qualified-name fragment to a native module path fragment: ':' and
/// '/' become `"::"`, '-' becomes '_', all other bytes stay.
pub open spec fn rust_path_of(s: Seq<u8>) -> Seq<u8>
    decreases s.len(),
{
    if s.len() == 0 {
        Seq::<u8>::empty()
    } else {
        (if s[0] == (':' as u8) || s[0] == ('/' as u8) {
            rust_sep()
        } else if s[0] == ('-' as u8) {
            seq![('_' as u8)]
        } else {
            seq![s[0]]
        }) + rust_path_of(s.drop_first())
    }
}

/// The part of a qualified name before its version marker, or all of it
/// when none is present.
pub open spec fn before_version(s: Seq<u8>) -> Seq<u8> {
    match find_byte_spec(s, ('@' as u8)) {
        Some(i) => if 0 <= i <= s.len() {
            s.subrange(0, i)
        } else {
            s
        },
        None => s,
    }
}

/// The SDK module path that replaces fresh generation for an SDK-provided
/// capability.
pub open spec fn sdk_module_path(qname: Seq<u8>) -> Seq<u8> {
    "spin_sdk::wit::".spec_bytes() + rust_path_of(before_version(qname))
}

/// Maps a qualified-name fragment to its native module path fragment.
pub fn rust_path_fragment(s: &[u8]) -> (r: Vec<u8>)
    ensures
        r@ == rust_path_of(s@),
{
    let mut out: Vec<u8> = Vec::new();
    let mut i: usize = s.len();
    while i > 0
        invariant
            i <= s@.len(),
            out@ == rust_path_of(s@.subrange(i as int, s@.len() as int)),
        decreases i,
    {
        i -= 1;
        let b = s[i];
        let ghost prev = out@;
        let mut next: Vec<u8> = Vec::new();
        if b == (':' as u8) || b == ('/' as u8) {
            next.push(':' as u8);
            next.push(':' as u8);
        } else if b == ('-' as u8) {
            next.push('_' as u8);
        } else {
            next.push(b);
        }
        push_all(&mut next, out.as_slice());
        out = next;
        proof {
            let cur = s@.subrange(i as int, s@.len() as int);
            assert(cur.drop_first() =~= s@.subrange(i + 1, s@.len() as int));
            assert(cur[0] == s@[i as int]);
            if b == (':' as u8) || b == ('/' as u8) {
                assert(out@ =~= rust_sep() + prev);
            } else if b == ('-' as u8) {
                assert(out@ =~= seq![('_' as u8)] + prev);
            } else {
                assert(out@ =~= seq![b] + prev);
            }
        }
    }
    proof {
        assert(s@.subrange(0, s@.len() as int) =~= s@);
    }
    out
}

/// Builds the SDK module path for an SDK-provided capability.
pub fn sdk_module_path_of(qname: &Vec<u8>) -> (r: Vec<u8>)
    ensures
        r@ == sdk_module_path(qname@),
{
    let prefix = "spin_sdk::wit::";
    let mut out = vstd::slice::slice_to_vec(prefix.as_bytes());
    let base = match crate::name::find_byte(qname.as_slice(), '@' as u8) {
        Some(i) => {
            proof {
                crate::name::lemma_find_byte_props(qname@, ('@' as u8));
            }
            crate::name::sub_vec(qname.as_slice(), 0, i)
        },
        None => copy_bytes(qname),
    };
    assert(base@ == before_version(qname@));
    let frag = rust_path_fragment(base.as_slice());
    push_all(&mut out, frag.as_slice());
    assert(out@ =~= sdk_module_path(qname@));
    out
}

/// One `import <qname>;` line per capability not covered by the standard
/// library, indented for the inline world of the generated module.
pub open spec fn import_stmt_lines(itfs: Seq<Seq<u8>>) -> Seq<u8>
    decreases itfs.len(),
{
    if itfs.len() == 0 {
        Seq::<u8>::empty()
    } else {
        import_stmt_lines(itfs.drop_last()) + (if stdlib_known_spec(itfs.last()) {
            Seq::<u8>::empty()
        } else {
            "        import ".spec_bytes() + itfs.last() + ";\n".spec_bytes()
        })
    }
}

/// One codegen-directive line per capability not covered by the standard
/// library: SDK-provided capabilities reuse the SDK's bindings, all others
/// are generated fresh.
pub open spec fn directive_lines(itfs: Seq<Seq<u8>>) -> Seq<u8>
    decreases itfs.len(),
{
    if itfs.len() == 0 {
        Seq::<u8>::empty()
    } else {
        directive_lines(itfs.drop_last()) + (if stdlib_known_spec(itfs.last()) {
            Seq::<u8>::empty()
        } else if sdk_known_spec(itfs.last()) {
            "        \"".spec_bytes() + itfs.last() + "\": ".spec_bytes() + sdk_module_path(
                itfs.last(),
            ) + ",\n".spec_bytes()
        } else {
            "        \"".spec_bytes() + itfs.last() + "\": generate,\n".spec_bytes()
        })
    }
}

/// The fixed template of a generated dependency module, with the
/// dependency's interface-definition path, derived world name, import
/// statements and codegen directives substituted in.
pub open spec fn rust_module_text_spec(
    dep_path: Seq<u8>,
    gen_name: Seq<u8>,
    itfs: Seq<Seq<u8>>,
) -> Seq<u8> {
    "wit_bindgen::generate!({\n    inline: \"\n        package deps:gen;\n        world ".spec_bytes()
        + gen_name + " {\n".spec_bytes() + import_stmt_lines(itfs)
        + "        }\n    \",\n    path: \"".spec_bytes() + dep_path + "\",\n    with: {\n".spec_bytes()
        + directive_lines(itfs) + "    },\n});\n".spec_bytes()
}

/// Renders the generated dependency module for the native ecosystem.
pub fn rust_module_text(dep_path: &Vec<u8>, gen_name: &Vec<u8>, itfs: &Vec<Vec<u8>>) -> (r: Vec<u8>)
    ensures
        r@ == rust_module_text_spec(dep_path@, gen_name@, itfs.deep_view()),
{
    let ghost iv = itfs.deep_view();
    let mut out = vstd::slice::slice_to_vec(
        "wit_bindgen::generate!({\n    inline: \"\n        package deps:gen;\n        world ".as_bytes(),
    );
    push_all(&mut out, gen_name.as_slice());
    push_all(&mut out, " {\n".as_bytes());

    let mut imps: Vec<u8> = Vec::new();
    let mut k: usize = 0;
    proof {
        assert(iv.subrange(0, 0) =~= Seq::<Seq<u8>>::empty());
    }
    while k < itfs.len()
        invariant
            k <= itfs@.len(),
            iv == itfs.deep_view(),
            iv.len() == itfs@.len(),
            imps@ == import_stmt_lines(iv.subrange(0, k as int)),
        decreases itfs.len() - k,
    {
        assert(iv[k as int] == itfs@[k as int]@);
        let ghost pre = imps@;
        if !crate::wellknown::stdlib_known_bytes(itfs[k].as_slice()) {
            push_all(&mut imps, "        import ".as_bytes());
            push_all(&mut imps, itfs[k].as_slice());
            push_all(&mut imps, ";\n".as_bytes());
        }
        proof {
            let cur = iv.subrange(0, k + 1 as int);
            assert(cur.drop_last() =~= iv.subrange(0, k as int));
            assert(cur.last() == iv[k as int]);
            if stdlib_known_spec(iv[k as int]) {
                assert(imps@ =~= import_stmt_lines(cur));
            } else {
                assert(imps@ =~= import_stmt_lines(cur));
            }
        }
        k += 1;
    }
    proof {
        assert(iv.subrange(0, itfs@.len() as int) =~= iv);
    }
    push_all(&mut out, imps.as_slice());
    push_all(&mut out, "        }\n    \",\n    path: \"".as_bytes());
    push_all(&mut out, dep_path.as_slice());
    push_all(&mut out, "\",\n    with: {\n".as_bytes());

    let mut gens: Vec<u8> = Vec::new();
    let mut k2: usize = 0;
    proof {
        assert(iv.subrange(0, 0) =~= Seq::<Seq<u8>>::empty());
    }
    while k2 < itfs.len()
        invariant
            k2 <= itfs@.len(),
            iv == itfs.deep_view(),
            iv.len() == itfs@.len(),
            gens@ == directive_lines(iv.subrange(0, k2 as int)),
        decreases itfs.len() - k2,
    {
        assert(iv[k2 as int] == itfs@[k2 as int]@);
        if !crate::wellknown::stdlib_known_bytes(itfs[k2].as_slice()) {
            push_all(&mut gens, "        \"".as_bytes());
            push_all(&mut gens, itfs[k2].as_slice());
            if crate::wellknown::sdk_known_bytes(itfs[k2].as_slice()) {
                push_all(&mut gens, "\": ".as_bytes());
                let sdk = sdk_module_path_of(&itfs[k2]);
                push_all(&mut gens, sdk.as_slice());
                push_all(&mut gens, ",\n".as_bytes());
            } else {
                push_all(&mut gens, "\": generate,\n".as_bytes());
            }
        }
        proof {
            let cur = iv.subrange(0, k2 + 1 as int);
            assert(cur.drop_last() =~= iv.subrange(0, k2 as int));
            assert(cur.last() == iv[k2 as int]);
            assert(gens@ =~= directive_lines(cur));
        }
        k2 += 1;
    }
    proof {
        assert(iv.subrange(0, itfs@.len() as int) =~= iv);
    }
    push_all(&mut out, gens.as_slice());
    push_all(&mut out, "    },\n});\n".as_bytes());
    assert(out@ =~= rust_module_text_spec(dep_path@, gen_name@, iv));
    out
}

/// `"mod deps;"`, the declaration registered in the project's root module
/// list.
pub open spec fn root_mod_decl() -> Seq<u8> {
    mod_decl(seq![('d' as u8), ('e' as u8), ('p' as u8), ('s' as u8)])
}

/// Whether a source line declares a module.
pub open spec fn line_is_mod(l: Seq<u8>) -> bool {
    l.len() >= 4 && l.subrange(0, 4) == seq![('m' as u8), ('o' as u8), ('d' as u8), (' ' as u8)]
}

/// The index of the last module-declaration line, if any.
pub open spec fn last_mod_index(lines: Seq<Seq<u8>>) -> Option<int>
    decreases lines.len(),
{
    if lines.len() == 0 {
        None
    } else if line_is_mod(lines.last()) {
        Some(lines.len() - 1)
    } else {
        last_mod_index(lines.drop_last())
    }
}

/// The root module list with `mod deps;` inserted: after the last existing
/// module declaration, or at the top (followed by a blank line) when there
/// is none.
pub open spec fn insert_root_decl(lines: Seq<Seq<u8>>) -> Seq<Seq<u8>> {
    match last_mod_index(lines) {
        Some(i) => lines.subrange(0, i + 1) + seq![root_mod_decl()] + lines.subrange(
            i + 1,
            lines.len() as int,
        ),
        None => seq![root_mod_decl(), Seq::<u8>::empty()] + lines,
    }
}

/// Joins lines with single newlines, with no trailing newline.
pub open spec fn join_sep(lines: Seq<Seq<u8>>) -> Seq<u8>
    decreases lines.len(),
{
    if lines.len() == 0 {
        Seq::<u8>::empty()
    } else if lines.len() == 1 {
        lines[0]
    } else {
        lines[0] + seq![10u8] + join_sep(lines.drop_first())
    }
}

/// Appending one line extends the joined text by a newline and the line.
proof fn lemma_join_sep_push(lines: Seq<Seq<u8>>, l: Seq<u8>)
    ensures
        join_sep(lines.push(l)) == if lines.len() == 0 {
            l
        } else {
            join_sep(lines) + seq![10u8] + l
        },
    decreases lines.len(),
{
    if lines.len() == 0 {
        assert(lines.push(l)[0] == l);
        assert(join_sep(lines.push(l)) == l);
    } else {
        assert(lines.push(l).drop_first() =~= lines.drop_first().push(l));
        lemma_join_sep_push(lines.drop_first(), l);
        if lines.len() == 1 {
            assert(join_sep(lines) == lines[0]);
            assert(join_sep(lines.push(l)) =~= lines[0] + seq![10u8] + l);
        } else {
            assert(join_sep(lines.push(l)) =~= join_sep(lines) + seq![10u8] + l);
        }
    }
}

/// The project root module list after ensuring `mod deps;` is declared:
/// unchanged when the literal declaration is present, else the declaration
/// is inserted after the last module line (or first, when none exists) and
/// the lines are rejoined.
pub open spec fn patch_root_spec(text: Seq<u8>) -> Seq<u8> {
    if contains_seq(text, root_mod_decl()) {
        text
    } else {
        join_sep(insert_root_decl(crate::descriptor::split_lines(text)))
    }
}

/// Joins lines with newline separators.
fn join_sep_exec(lines: &Vec<Vec<u8>>) -> (r: Vec<u8>)
    ensures
        r@ == join_sep(lines.deep_view()),
{
    let ghost lv = lines.deep_view();
    let mut out: Vec<u8> = Vec::new();
    let mut k: usize = 0;
    proof {
        assert(lv.subrange(0, 0) =~= Seq::<Seq<u8>>::empty());
    }
    while k < lines.len()
        invariant
            k <= lines@.len(),
            lv == lines.deep_view(),
            lv.len() == lines@.len(),
            out@ == join_sep(lv.subrange(0, k as int)),
        decreases lines.len() - k,
    {
        assert(lv[k as int] == lines@[k as int]@);
        if k > 0 {
            out.push(10u8);
        }
        push_all(&mut out, lines[k].as_slice());
        proof {
            let pre = lv.subrange(0, k as int);
            let cur = lv.subrange(0, k + 1 as int);
            assert(cur =~= pre.push(lv[k as int]));
            lemma_join_sep_push(pre, lv[k as int]);
            assert(out@ =~= join_sep(cur));
        }
        k += 1;
    }
    proof {
        assert(lv.subrange(0, lines@.len() as int) =~= lv);
    }
    out
}

/// Builds `"mod deps;"`.
fn build_root_decl() -> (r: Vec<u8>)
    ensures
        r@ == root_mod_decl(),
{
    let mut name: Vec<u8> = Vec::new();
    name.push('d' as u8);
    name.push('e' as u8);
    name.push('p' as u8);
    name.push('s' as u8);
    let r = build_mod_decl(&name);
    assert(r@ =~= root_mod_decl());
    r
}

/// Ensures the project's root module list declares the dependency module,
/// inserting `mod deps;` after the last module declaration when it is not
/// yet present. The check is a literal-substring guard.
pub fn patch_root_module(existing: &Vec<u8>) -> (r: Vec<u8>)
    ensures
        r@ == patch_root_spec(existing@),
{
    let decl = build_root_decl();
    if contains_subseq(existing.as_slice(), decl.as_slice()) {
        return copy_bytes(existing);
    }
    let lines = crate::descriptor::split_lines_vec(existing.as_slice());
    let ghost lv = lines.deep_view();

    // Find the last module-declaration line.
    let mut found: Option<usize> = None;
    let n = lines.len();
    let mut k: usize = 0;
    proof {
        assert(lv.subrange(0, 0) =~= Seq::<Seq<u8>>::empty());
    }
    while k < n
        invariant
            k <= n,
            n == lines@.len(),
            lv == lines.deep_view(),
            lv.len() == lines@.len(),
            match found {
                Some(f) => f < k && last_mod_index(lv.subrange(0, k as int)) == Some(f as int),
                None => last_mod_index(lv.subrange(0, k as int)) is None,
            },
        decreases n - k,
    {
        assert(lv[k as int] == lines@[k as int]@);
        let mp: [u8; 4] = [('m' as u8), ('o' as u8), ('d' as u8), (' ' as u8)];
        proof {
            let cur = lv.subrange(0, k + 1 as int);
            assert(cur.drop_last() =~= lv.subrange(0, k as int));
            assert(cur.last() == lv[k as int]);
        }
        if crate::bytes::starts_with(lines[k].as_slice(), mp.as_slice()) {
            proof {
                assert(mp@ =~= seq![('m' as u8), ('o' as u8), ('d' as u8), (' ' as u8)]);
                assert(line_is_mod(lv[k as int]));
            }
            found = Some(k);
        } else {
            proof {
                assert(mp@ =~= seq![('m' as u8), ('o' as u8), ('d' as u8), (' ' as u8)]);
                assert(!line_is_mod(lv[k as int]));
            }
        }
        k += 1;
    }
    proof {
        assert(lv.subrange(0, n as int) =~= lv);
    }

    // Build the new line list with the declaration inserted.
    let mut out_lines: Vec<Vec<u8>> = Vec::new();
    match found {
        Some(f) => {
            let mut j: usize = 0;
            proof {
                assert(out_lines.deep_view() =~= lv.subrange(0, 0));
            }
            while j < f + 1
                invariant
                    found == Some(f),
                    f < n,
                    n == lines@.len(),
                    lv == lines.deep_view(),
                    lv.len() == n,
                    j <= f + 1,
                    out_lines.deep_view() == lv.subrange(0, j as int),
                decreases f + 1 - j,
            {
                assert(lv[j as int] == lines@[j as int]@);
                let ghost pre = out_lines.deep_view();
                out_lines.push(copy_bytes(&lines[j]));
                proof {
                    assert(out_lines.deep_view() =~= pre.push(lv[j as int]));
                    assert(lv.subrange(0, j + 1 as int) =~= pre.push(lv[j as int]));
                }
                j += 1;
            }
            out_lines.push(decl);
            let ghost mid = out_lines.deep_view();
            proof {
                assert(mid =~= lv.subrange(0, f + 1 as int).push(root_mod_decl()));
            }
            let mut j2: usize = f + 1;
            while j2 < n
                invariant
                    found == Some(f),
                    f < n,
                    n == lines@.len(),
                    lv == lines.deep_view(),
                    lv.len() == n,
                    f + 1 <= j2 <= n,
                    mid == lv.subrange(0, f + 1 as int).push(root_mod_decl()),
                    out_lines.deep_view() == mid + lv.subrange(f + 1 as int, j2 as int),
                decreases n - j2,
            {
                assert(lv[j2 as int] == lines@[j2 as int]@);
                let ghost pre = out_lines.deep_view();
                out_lines.push(copy_bytes(&lines[j2]));
                proof {
                    assert(out_lines.deep_view() =~= pre.push(lv[j2 as int]));
                    assert(mid + lv.subrange(f + 1 as int, j2 + 1 as int) =~= pre.push(
                        lv[j2 as int],
                    ));
                }
                j2 += 1;
            }
            proof {
                assert(out_lines.deep_view() =~= insert_root_decl(lv));
            }
        },
        None => {
            out_lines.push(decl);
            out_lines.push(Vec::new());
            let ghost mid = out_lines.deep_view();
            proof {
                assert(mid =~= seq![root_mod_decl(), Seq::<u8>::empty()]);
            }
            let mut j: usize = 0;
            while j < n
                invariant
                    n == lines@.len(),
                    lv == lines.deep_view(),
                    lv.len() == n,
                    j <= n,
                    mid == seq![root_mod_decl(), Seq::<u8>::empty()],
                    out_lines.deep_view() == mid + lv.subrange(0, j as int),
                decreases n - j,
            {
                assert(lv[j as int] == lines@[j as int]@);
                let ghost pre = out_lines.deep_view();
                out_lines.push(copy_bytes(&lines[j]));
                proof {
                    assert(out_lines.deep_view() =~= pre.push(lv[j as int]));
                    assert(mid + lv.subrange(0, j + 1 as int) =~= pre.push(lv[j as int]));
                }
                j += 1;
            }
            proof {
                assert(lv.subrange(0, n as int) =~= lv);
                assert(out_lines.deep_view() =~= insert_root_decl(lv));
            }
        },
    }
    join_sep_exec(&out_lines)
}

/// What an interface's module is re-exported as; the transpiler's casing of
/// names depends on the characters alone.
pub uninterp spec fn camel_of(s: Seq<u8>) -> Seq<u8>;

/// Relies on convert_case's `Casing::to_case` toward camel case: a pure
/// transformation of the characters of its input.
#[verifier::external_body]
pub(crate) fn to_camel(s: &Vec<u8>) -> (r: Vec<u8>)
    ensures
        r@ == camel_of(s@),
{
    String::from_utf8_lossy(s).to_case(Case::Camel).into_bytes()
}

/// The views of camel/import-path entry pairs.
pub open spec fn entry_views(s: Seq<(Vec<u8>, Vec<u8>)>) -> Seq<(Seq<u8>, Seq<u8>)> {
    s.map_values(|pr: (Vec<u8>, Vec<u8>)| (pr.0@, pr.1@))
}

/// Computes the re-export entries for one package's interfaces: each
/// interface's camel-cased local identifier and its import path.
pub fn ts_export_entries(package: &crate::name::PackageName, iface_names: &Vec<Vec<u8>>) -> (r: Vec<
    (Vec<u8>, Vec<u8>),
>)
    ensures
        r@.len() == iface_names.deep_view().len(),
        forall|k: int|
            0 <= k < r@.len() ==> (#[trigger] entry_views(r@)[k]).0 == camel_of(
                iface_names.deep_view()[k],
            ) && entry_views(r@)[k].1 == crate::name::itf_qname(
                package@,
                iface_names.deep_view()[k],
            ),
{
    let ghost nv = iface_names.deep_view();
    let mut out: Vec<(Vec<u8>, Vec<u8>)> = Vec::new();
    let mut k: usize = 0;
    while k < iface_names.len()
        invariant
            k <= iface_names@.len(),
            nv == iface_names.deep_view(),
            nv.len() == iface_names@.len(),
            out@.len() == k,
            forall|j: int|
                0 <= j < k ==> (#[trigger] entry_views(out@)[j]).0 == camel_of(nv[j])
                    && entry_views(out@)[j].1 == crate::name::itf_qname(package@, nv[j]),
        decreases iface_names.len() - k,
    {
        assert(nv[k as int] == iface_names@[k as int]@);
        let camel = to_camel(&iface_names[k]);
        let path = crate::name::qualified_itf_name(package, &iface_names[k]);
        let ghost pre = out@;
        out.push((camel, path));
        proof {
            assert forall|j: int|
                0 <= j < k + 1 implies (#[trigger] entry_views(out@)[j]).0 == camel_of(nv[j])
                && entry_views(out@)[j].1 == crate::name::itf_qname(package@, nv[j]) by {
                assert(entry_views(out@)[j] == (out@[j].0@, out@[j].1@));
                if j < k {
                    assert(out@[j] == pre[j]);
                    assert(entry_views(pre)[j] == (pre[j].0@, pre[j].1@));
                }
            }
        }
        k += 1;
    }
    out
}

/// How often this camel-cased identifier occurs among the entries.
pub open spec fn count_camel(entries: Seq<(Seq<u8>, Seq<u8>)>, c: Seq<u8>) -> int
    decreases entries.len(),
{
    if entries.len() == 0 {
        0
    } else {
        count_camel(entries.drop_last(), c) + if entries.last().0 == c {
            1int
        } else {
            0int
        }
    }
}

/// The local identifier the `k`-th entry is re-exported under: its
/// camel-cased name, prefixed with the owning package's name when it
/// collided with an earlier entry.
pub open spec fn reexport_final_name(pkg: Seq<u8>, entries: Seq<(Seq<u8>, Seq<u8>)>, k: int) -> Seq<
    u8,
> {
    if count_camel(entries.subrange(0, k), entries[k].0) >= 1 {
        pkg + entries[k].0
    } else {
        entries[k].0
    }
}

/// The re-export index: one import and one re-export per entry, each under
/// its final local identifier.
pub open spec fn reexport_lines_spec(pkg: Seq<u8>, entries: Seq<(Seq<u8>, Seq<u8>)>) -> Seq<u8>
    decreases entries.len(),
{
    if entries.len() == 0 {
        Seq::<u8>::empty()
    } else {
        let e = entries.last();
        let fin = reexport_final_name(pkg, entries, entries.len() - 1);
        reexport_lines_spec(pkg, entries.drop_last()) + "import * as ".spec_bytes() + fin
            + " from '".spec_bytes() + e.1 + "';\n".spec_bytes() + "export { ".spec_bytes() + fin
            + " };\n".spec_bytes()
    }
}

/// Camel counts are never negative.
proof fn lemma_count_nonneg(entries: Seq<(Seq<u8>, Seq<u8>)>, c: Seq<u8>)
    ensures
        count_camel(entries, c) >= 0,
    decreases entries.len(),
{
    if entries.len() > 0 {
        lemma_count_nonneg(entries.drop_last(), c);
    }
}

/// A camel count splits over a cut of the entry list.
proof fn lemma_count_split(entries: Seq<(Seq<u8>, Seq<u8>)>, c: Seq<u8>, m: int)
    requires
        0 <= m <= entries.len(),
    ensures
        count_camel(entries, c) == count_camel(entries.subrange(0, m), c) + count_camel(
            entries.subrange(m, entries.len() as int),
            c,
        ),
    decreases entries.len() - m,
{
    if m == entries.len() {
        assert(entries.subrange(0, m) =~= entries);
        assert(entries.subrange(m, entries.len() as int) =~= Seq::<(Seq<u8>, Seq<u8>)>::empty());
    } else {
        let d = entries.drop_last();
        assert(d.subrange(0, m) =~= entries.subrange(0, m));
        assert(entries.subrange(m, entries.len() as int).drop_last() =~= d.subrange(
            m,
            d.len() as int,
        ));
        assert(entries.subrange(m, entries.len() as int).last() == entries.last());
        lemma_count_split(d, c, m);
    }
}

/// A list whose first entry carries the identifier counts it at least
/// once.
proof fn lemma_count_head(entries: Seq<(Seq<u8>, Seq<u8>)>, c: Seq<u8>)
    requires
        entries.len() > 0,
        entries[0].0 == c,
    ensures
        count_camel(entries, c) >= 1,
    decreases entries.len(),
{
    if entries.len() == 1 {
        assert(entries.drop_last() =~= Seq::<(Seq<u8>, Seq<u8>)>::empty());
        assert(count_camel(entries.drop_last(), c) == 0);
        assert(entries.last() == entries[0]);
    } else {
        assert(entries.drop_last()[0] == entries[0]);
        lemma_count_head(entries.drop_last(), c);
    }
}

/// The re-export identifiers are pairwise distinct whenever every
/// collision is a single pair, the package name is non-empty, and no
/// identifier equals the package name glued onto another: the second
/// occurrence's prefix then separates the pair. Three entries sharing one
/// identifier defeat the prefix scheme — the second and third receive the
/// same name — so such selections lie outside this law.
pub proof fn lemma_reexport_names_unique(pkg: Seq<u8>, entries: Seq<(Seq<u8>, Seq<u8>)>)
    requires
        pkg.len() > 0,
        forall|k: int|
            0 <= k < entries.len() ==> count_camel(entries, (#[trigger] entries[k]).0) <= 2,
        forall|k: int, j: int|
            0 <= k < entries.len() && 0 <= j < entries.len() ==> (#[trigger] entries[k]).0 != pkg
                + (#[trigger] entries[j]).0,
    ensures
        forall|k: int, j: int|
            0 <= k < entries.len() && 0 <= j < entries.len() && k != j ==> reexport_final_name(
                pkg,
                entries,
                k,
            ) != reexport_final_name(pkg, entries, j),
{
    assert forall|k: int, j: int|
        0 <= k < entries.len() && 0 <= j < entries.len() && k < j implies reexport_final_name(
        pkg,
        entries,
        k,
    ) != reexport_final_name(pkg, entries, j) by {
        lemma_reexport_pair(pkg, entries, k, j);
    }
    assert forall|k: int, j: int|
        0 <= k < entries.len() && 0 <= j < entries.len() && k != j implies reexport_final_name(
        pkg,
        entries,
        k,
    ) != reexport_final_name(pkg, entries, j) by {
        if k > j {
            lemma_reexport_pair(pkg, entries, j, k);
        }
    }
}

/// One ordered pair of the uniqueness law.
proof fn lemma_reexport_pair(pkg: Seq<u8>, entries: Seq<(Seq<u8>, Seq<u8>)>, k: int, j: int)
    requires
        pkg.len() > 0,
        forall|t: int|
            0 <= t < entries.len() ==> count_camel(entries, (#[trigger] entries[t]).0) <= 2,
        forall|t: int, u: int|
            0 <= t < entries.len() && 0 <= u < entries.len() ==> (#[trigger] entries[t]).0 != pkg
                + (#[trigger] entries[u]).0,
        0 <= k < j < entries.len(),
    ensures
        reexport_final_name(pkg, entries, k) != reexport_final_name(pkg, entries, j),
{
    let ck = entries[k].0;
    let cj = entries[j].0;
    let pk = count_camel(entries.subrange(0, k), ck) >= 1;
    let pj = count_camel(entries.subrange(0, j), cj) >= 1;
    if !pk && !pj {
        if ck == cj {
            assert(entries.subrange(k, j)[0] == entries[k]);
            lemma_count_head(entries.subrange(k, j), cj);
            lemma_count_split(entries.subrange(0, j), cj, k);
            assert(entries.subrange(0, j).subrange(0, k) =~= entries.subrange(0, k));
            assert(entries.subrange(0, j).subrange(k, j) =~= entries.subrange(k, j));
            lemma_count_nonneg(entries.subrange(0, k), cj);
            assert(false);
        }
    } else if !pk && pj {
        assert(reexport_final_name(pkg, entries, k) == ck);
        assert(reexport_final_name(pkg, entries, j) == pkg + cj);
        assert(ck != pkg + cj);
    } else if pk && !pj {
        assert(cj != pkg + ck);
    } else {
        if pkg + ck == pkg + cj {
            assert(ck =~= (pkg + ck).subrange(pkg.len() as int, (pkg + ck).len() as int));
            assert(cj =~= (pkg + cj).subrange(pkg.len() as int, (pkg + cj).len() as int));
            assert(ck == cj);
            lemma_count_split(entries, ck, j);
            lemma_count_split(entries.subrange(0, j), ck, k);
            assert(entries.subrange(0, j).subrange(0, k) =~= entries.subrange(0, k));
            assert(entries.subrange(0, j).subrange(k, j) =~= entries.subrange(k, j));
            assert(entries.subrange(k, j)[0] == entries[k]);
            lemma_count_head(entries.subrange(k, j), ck);
            assert(entries.subrange(j, entries.len() as int)[0] == entries[j]);
            lemma_count_head(entries.subrange(j, entries.len() as int), ck);
            assert(count_camel(entries, ck) >= 3);
            assert(false);
        }
    }
}

/// Renders the re-export index file for the script ecosystem.
pub fn ts_reexport_index(pkg_display: &Vec<u8>, entries: &Vec<(Vec<u8>, Vec<u8>)>) -> (r: Vec<u8>)
    ensures
        r@ == reexport_lines_spec(pkg_display@, entry_views(entries@)),
{
    let ghost ev = entry_views(entries@);
    let mut out: Vec<u8> = Vec::new();
    let mut k: usize = 0;
    proof {
        assert(ev.subrange(0, 0) =~= Seq::<(Seq<u8>, Seq<u8>)>::empty());
    }
    while k < entries.len()
        invariant
            k <= entries@.len(),
            ev == entry_views(entries@),
            ev.len() == entries@.len(),
            out@ == reexport_lines_spec(pkg_display@, ev.subrange(0, k as int)),
        decreases entries.len() - k,
    {
        assert(ev[k as int] == (entries@[k as int].0@, entries@[k as int].1@));
        // Count earlier occurrences of this identifier.
        let mut cnt: usize = 0;
        let mut j: usize = 0;
        proof {
            assert(ev.subrange(0, 0) =~= Seq::<(Seq<u8>, Seq<u8>)>::empty());
        }
        while j < k
            invariant
                j <= k < entries@.len(),
                ev == entry_views(entries@),
                ev.len() == entries@.len(),
                ev[k as int] == (entries@[k as int].0@, entries@[k as int].1@),
                cnt <= j,
                cnt as int == count_camel(ev.subrange(0, j as int), ev[k as int].0),
            decreases k - j,
        {
            assert(ev[j as int] == (entries@[j as int].0@, entries@[j as int].1@));
            proof {
                let cur = ev.subrange(0, j + 1 as int);
                assert(cur.drop_last() =~= ev.subrange(0, j as int));
                assert(cur.last() == ev[j as int]);
            }
            if crate::bytes::bytes_eq(entries[j].0.as_slice(), entries[k].0.as_slice()) {
                cnt += 1;
            }
            j += 1;
        }
        let fin = if cnt >= 1 {
            let mut f = copy_bytes(pkg_display);
            push_all(&mut f, entries[k].0.as_slice());
            assert(f@ =~= pkg_display@ + ev[k as int].0);
            f
        } else {
            copy_bytes(&entries[k].0)
        };
        push_all(&mut out, "import * as ".as_bytes());
        push_all(&mut out, fin.as_slice());
        push_all(&mut out, " from '".as_bytes());
        push_all(&mut out, entries[k].1.as_slice());
        push_all(&mut out, "';\n".as_bytes());
        push_all(&mut out, "export { ".as_bytes());
        push_all(&mut out, fin.as_slice());
        push_all(&mut out, " };\n".as_bytes());
        proof {
            let cur = ev.subrange(0, k + 1 as int);
            assert(cur.drop_last() =~= ev.subrange(0, k as int));
            assert(cur.last() == ev[k as int]);
            assert(out@ =~= reexport_lines_spec(pkg_display@, cur));
        }
        k += 1;
    }
    proof {
        assert(ev.subrange(0, entries@.len() as int) =~= ev);
    }
    out
}

/// The name of the isolated script-ecosystem package directory of one
/// dependency: the dependency's identity under a fixed scope.
pub open spec fn ts_package_dir_spec(p: crate::name::PkgName) -> Seq<u8> {
    "@spin-deps/".spec_bytes() + p.ns + seq![('-' as u8)] + p.name + match p.version {
        Some(v) => seq![('@' as u8)] + v,
        None => Seq::<u8>::empty(),
    }
}

/// Renders the isolated package directory name for a dependency.
pub fn ts_package_dir_name(p: &crate::name::PackageName) -> (r: Vec<u8>)
    ensures
        r@ == ts_package_dir_spec(p@),
{
    let mut out = vstd::slice::slice_to_vec("@spin-deps/".as_bytes());
    push_all(&mut out, p.namespace.as_slice());
    out.push('-' as u8);
    push_all(&mut out, p.name.as_slice());
    match &p.version {
        Some(v) => {
            out.push('@' as u8);
            push_all(&mut out, v.as_slice());
        },
        None => {},
    }
    assert(out@ =~= ts_package_dir_spec(p@));
    out
}

/// The module-index content of the generated bindings directory: one
/// public module declaration per generated file.
pub open spec fn module_index_spec(names: Seq<Seq<u8>>) -> Seq<u8>
    decreases names.len(),
{
    if names.len() == 0 {
        Seq::<u8>::empty()
    } else {
        module_index_spec(names.drop_last()) + pub_prefix() + mod_decl(names.last()) + seq![10u8]
    }
}

/// Renders the module-index content for the generated bindings directory.
pub fn module_index_content(names: &Vec<Vec<u8>>) -> (r: Vec<u8>)
    ensures
        r@ == module_index_spec(names.deep_view()),
{
    let ghost nv = names.deep_view();
    let mut out: Vec<u8> = Vec::new();
    let mut k: usize = 0;
    proof {
        assert(nv.subrange(0, 0) =~= Seq::<Seq<u8>>::empty());
    }
    while k < names.len()
        invariant
            k <= names@.len(),
            nv == names.deep_view(),
            nv.len() == names@.len(),
            out@ == module_index_spec(nv.subrange(0, k as int)),
        decreases names.len() - k,
    {
        assert(nv[k as int] == names@[k as int]@);
        out.push('p' as u8);
        out.push('u' as u8);
        out.push('b' as u8);
        out.push(' ' as u8);
        let d = build_mod_decl(&names[k]);
        push_all(&mut out, d.as_slice());
        out.push(10u8);
        proof {
            let cur = nv.subrange(0, k + 1 as int);
            assert(cur.drop_last() =~= nv.subrange(0, k as int));
            assert(cur.last() == nv[k as int]);
            assert(out@ =~= module_index_spec(cur));
        }
        k += 1;
    }
    proof {
        assert(nv.subrange(0, names@.len() as int) =~= nv);
    }
    out
}

/// The content of the generated package descriptor of the script
/// ecosystem's isolated dependency directory.
pub open spec fn package_json_spec(name: Seq<u8>, world: Seq<u8>) -> Seq<u8> {
    "{\n    \"name\": \"".spec_bytes() + name
        + "\",\n    \"version\": \"0.1.0\",\n    \"description\": \"Generated Package for ".spec_bytes()
        + name
        + "\",\n    \"main\": \"index.js\",\n    \"scripts\": {\n    },\n    \"author\": \"\",\n    \"license\": \"ISC\",\n    \"config\": {\n        \"witDeps\": \n        [\n            {\n            \"witPath\": \"./wit\",\n            \"package\": \"root:component\",\n            \"world\": \"".spec_bytes()
        + world + "\"\n            }\n        ]\n    }\n}".spec_bytes()
}

/// Renders the package descriptor of the isolated dependency directory.
pub fn package_json_content(package_name: &Vec<u8>, world: &Vec<u8>) -> (r: Vec<u8>)
    ensures
        r@ == package_json_spec(package_name@, world@),
{
    let mut out = vstd::slice::slice_to_vec("{\n    \"name\": \"".as_bytes());
    push_all(&mut out, package_name.as_slice());
    push_all(
        &mut out,
        "\",\n    \"version\": \"0.1.0\",\n    \"description\": \"Generated Package for ".as_bytes(),
    );
    push_all(&mut out, package_name.as_slice());
    push_all(
        &mut out,
        "\",\n    \"main\": \"index.js\",\n    \"scripts\": {\n    },\n    \"author\": \"\",\n    \"license\": \"ISC\",\n    \"config\": {\n        \"witDeps\": \n        [\n            {\n            \"witPath\": \"./wit\",\n            \"package\": \"root:component\",\n            \"world\": \"".as_bytes(),
    );
    push_all(&mut out, world.as_slice());
    push_all(&mut out, "\"\n            }\n        ]\n    }\n}".as_bytes());
    assert(out@ =~= package_json_spec(package_name@, world@));
    out
}

/// Renders the type-checker configuration of the isolated dependency
/// directory.
pub fn tsconfig_content() -> (r: Vec<u8>)
    ensures
        r@
            == "{\n    \"compilerOptions\": {\n        \"target\": \"ES2020\",\n        \"module\": \"ES2020\",\n        \"lib\": [\n            \"ES2020\"\n        ],\n        \"moduleResolution\": \"node\",\n        \"declaration\": true,\n        \"outDir\": \"dist\",\n        \"strict\": true,\n        \"esModuleInterop\": true,\n    },\n    \"exclude\": [\n        \"node_modules\",\n        \"dist\"\n    ]\n}".spec_bytes(),
{
    vstd::slice::slice_to_vec(
        "{\n    \"compilerOptions\": {\n        \"target\": \"ES2020\",\n        \"module\": \"ES2020\",\n        \"lib\": [\n            \"ES2020\"\n        ],\n        \"moduleResolution\": \"node\",\n        \"declaration\": true,\n        \"outDir\": \"dist\",\n        \"strict\": true,\n        \"esModuleInterop\": true,\n    },\n    \"exclude\": [\n        \"node_modules\",\n        \"dist\"\n    ]\n}".as_bytes(),
    )
}

} // verus!
