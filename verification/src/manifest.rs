//! The build manifest's dependency table: per local component, a mapping
//! from capability qualified name to the dependency source that provides
//! it. Only the one component's table subtree is replaced; the surrounding
//! document's structure, ordering and comments are preserved by the
//! formatting-preserving editor.

use vstd::prelude::*;
use vstd::string::*;

use crate::DepsError;
use crate::name::copy_bytes;
use crate::source::{ComponentSource, SourceV};

verus! {

broadcast use crate::bytes::lemma_bytes_deep_view;

/// Mathematical form of a dependency source entry.
pub ghost enum DepV {
    Version { version: Seq<u8> },
    Package { version: Seq<u8>, registry: Option<Seq<u8>>, package: Option<Seq<u8>> },
    Local { path: Seq<u8> },
    Http { url: Seq<u8>, digest: Seq<u8> },
}

/// One dependency source recorded in the manifest: a bare version
/// requirement, a registry package, a local path, or an HTTP URL with its
/// digest.
pub enum ComponentDependency {
    Version { version: Vec<u8> },
    Package { version: Vec<u8>, registry: Option<Vec<u8>>, package: Option<Vec<u8>> },
    Local { path: Vec<u8> },
    Http { url: Vec<u8>, digest: Vec<u8> },
}

impl View for ComponentDependency {
    type V = DepV;

    open spec fn view(&self) -> DepV {
        match self {
            ComponentDependency::Version { version } => DepV::Version { version: version@ },
            ComponentDependency::Package { version, registry, package } => DepV::Package {
                version: version@,
                registry: match registry {
                    Some(r) => Some(r@),
                    None => None,
                },
                package: match package {
                    Some(p) => Some(p@),
                    None => None,
                },
            },
            ComponentDependency::Local { path } => DepV::Local { path: path@ },
            ComponentDependency::Http { url, digest } => DepV::Http {
                url: url@,
                digest: digest@,
            },
        }
    }
}

impl ComponentDependency {
    /// Returns a copy of this dependency source.
    pub fn dup(&self) -> (r: ComponentDependency)
        ensures
            r@ == self@,
    {
        match self {
            ComponentDependency::Version { version } => ComponentDependency::Version {
                version: copy_bytes(version),
            },
            ComponentDependency::Package { version, registry, package } => {
                ComponentDependency::Package {
                    version: copy_bytes(version),
                    registry: match registry {
                        Some(r) => Some(copy_bytes(r)),
                        None => None,
                    },
                    package: match package {
                        Some(p) => Some(copy_bytes(p)),
                        None => None,
                    },
                }
            },
            ComponentDependency::Local { path } => ComponentDependency::Local {
                path: copy_bytes(path),
            },
            ComponentDependency::Http { url, digest } => ComponentDependency::Http {
                url: copy_bytes(url),
                digest: copy_bytes(digest),
            },
        }
    }
}

/// What the `add` flow records for a selected capability, derived from the
/// component source that produced it: local paths record the path, HTTP
/// sources the canonical URL and a `sha256:`-prefixed digest, registry
/// sources the version requirement with the package and optional registry.
pub fn source_to_dependency(src: &ComponentSource) -> (r: ComponentDependency)
    ensures
        r@ == match src@ {
            SourceV::Local { path } => DepV::Local { path },
            SourceV::Http { url, digest } => DepV::Http {
                url,
                digest: "sha256:".spec_bytes() + digest,
            },
            SourceV::Registry { package, version, registry } => DepV::Package {
                version,
                registry,
                package: Some(package),
            },
        },
{
    match src {
        ComponentSource::Local { path } => ComponentDependency::Local { path: copy_bytes(path) },
        ComponentSource::Http { url, digest } => {
            let mut d = vstd::slice::slice_to_vec("sha256:".as_bytes());
            crate::bytes::push_all(&mut d, digest.as_slice());
            ComponentDependency::Http { url: copy_bytes(url), digest: d }
        },
        ComponentSource::Registry { package, version, registry } => ComponentDependency::Package {
            version: copy_bytes(version),
            registry: match registry {
                Some(r) => Some(copy_bytes(r)),
                None => None,
            },
            package: Some(copy_bytes(package)),
        },
    }
}

/// The table entries after inserting or overwriting one key: an existing
/// entry keeps its position, a new key is appended.
pub open spec fn upsert(
    entries: Seq<(Seq<u8>, DepV)>,
    k: Seq<u8>,
    v: DepV,
) -> Seq<(Seq<u8>, DepV)>
    decreases entries.len(),
{
    if entries.len() == 0 {
        seq![(k, v)]
    } else if entries[0].0 == k {
        seq![(k, v)] + entries.drop_first()
    } else {
        seq![entries[0]] + upsert(entries.drop_first(), k, v)
    }
}

/// The source recorded for a key, if any.
pub open spec fn lookup(entries: Seq<(Seq<u8>, DepV)>, k: Seq<u8>) -> Option<DepV>
    decreases entries.len(),
{
    if entries.len() == 0 {
        None
    } else if entries[0].0 == k {
        Some(entries[0].1)
    } else {
        lookup(entries.drop_first(), k)
    }
}

/// Upserting a key records exactly that source for it and leaves every
/// other key's entry unchanged.
pub proof fn lemma_upsert_lookup(entries: Seq<(Seq<u8>, DepV)>, k: Seq<u8>, v: DepV, q: Seq<u8>)
    ensures
        lookup(upsert(entries, k, v), q) == if q == k {
            Some(v)
        } else {
            lookup(entries, q)
        },
    decreases entries.len(),
{
    if entries.len() == 0 {
        let u = upsert(entries, k, v);
        assert(u[0] == (k, v));
        assert(u.drop_first() =~= Seq::<(Seq<u8>, DepV)>::empty());
        assert(lookup(u.drop_first(), q) is None);
        if q == k {
            assert(lookup(u, q) == Some(v));
        } else {
            assert(lookup(u, q) == lookup(u.drop_first(), q));
        }
    } else if entries[0].0 == k {
        let u = upsert(entries, k, v);
        assert(u[0] == (k, v));
        assert(u.drop_first() =~= entries.drop_first());
        if q == k {
            assert(lookup(u, q) == Some(v));
        } else {
            assert(lookup(u, q) == lookup(entries.drop_first(), q));
            assert(lookup(entries, q) == lookup(entries.drop_first(), q));
        }
    } else {
        lemma_upsert_lookup(entries.drop_first(), k, v, q);
        let u = upsert(entries, k, v);
        assert(u[0] == entries[0]);
        assert(u.drop_first() =~= upsert(entries.drop_first(), k, v));
        if q == entries[0].0 {
            assert(lookup(u, q) == Some(entries[0].1));
            assert(lookup(entries, q) == Some(entries[0].1));
        } else {
            assert(lookup(u, q) == lookup(u.drop_first(), q));
            assert(lookup(entries, q) == lookup(entries.drop_first(), q));
        }
    }
}

/// The views of executable table entries.
pub open spec fn entries_view(s: Seq<(Vec<u8>, ComponentDependency)>) -> Seq<(Seq<u8>, DepV)> {
    s.map_values(|pr: (Vec<u8>, ComponentDependency)| (pr.0@, pr.1@))
}

/// One component's dependency table: capability qualified name to
/// dependency source, in first-recorded order.
pub struct DependencyTable {
    pub entries: Vec<(Vec<u8>, ComponentDependency)>,
}

impl View for DependencyTable {
    type V = Seq<(Seq<u8>, DepV)>;

    open spec fn view(&self) -> Seq<(Seq<u8>, DepV)> {
        entries_view(self.entries@)
    }
}

impl DependencyTable {
    /// Returns an empty table.
    pub fn new() -> (r: DependencyTable)
        ensures
            r@ == Seq::<(Seq<u8>, DepV)>::empty(),
    {
        let t = DependencyTable { entries: Vec::new() };
        proof {
            assert(t@ =~= Seq::<(Seq<u8>, DepV)>::empty());
        }
        t
    }

    /// Inserts or overwrites the entry for one capability.
    pub fn insert(&mut self, name: Vec<u8>, dep: ComponentDependency)
        ensures
            final(self)@ == upsert(old(self)@, name@, dep@),
    {
        let ghost pre = self@;
        let mut k: usize = 0;
        while k < self.entries.len()
            invariant
                k <= self.entries@.len(),
                pre == self@,
                pre == old(self)@,
                pre == entries_view(self.entries@),
                forall|j: int| 0 <= j < k ==> (#[trigger] entries_view(self.entries@)[j]).0
                    != name@,
            decreases self.entries.len() - k,
        {
            assert(entries_view(self.entries@)[k as int] == (
                self.entries@[k as int].0@,
                self.entries@[k as int].1@,
            ));
            if crate::bytes::bytes_eq(self.entries[k].0.as_slice(), name.as_slice()) {
                let ghost before = self.entries@;
                let mut tmp: (Vec<u8>, ComponentDependency) = (name, dep);
                vstd::pervasive::VecAdditionalExecFns::set_and_swap(&mut self.entries, k, &mut tmp);
                proof {
                    lemma_upsert_at(pre, name@, dep@, k as int);
                    assert(self@ =~= pre.update(k as int, (name@, dep@))) by {
                        assert forall|j: int|
                            0 <= j < self.entries@.len() implies entries_view(self.entries@)[j]
                            == pre.update(k as int, (name@, dep@))[j] by {
                            assert(entries_view(self.entries@)[j] == (
                                self.entries@[j].0@,
                                self.entries@[j].1@,
                            ));
                            assert(pre[j] == (before[j].0@, before[j].1@));
                            if j != k {
                                assert(self.entries@[j] == before[j]);
                            }
                        }
                    }
                    assert(pre[k as int].0 == name@);
                }
                return ;
            }
            k += 1;
        }
        self.entries.push((name, dep));
        proof {
            lemma_upsert_missing(pre, name@, dep@);
            assert(self@ =~= pre.push((name@, dep@)));
        }
    }

    /// Records the given source for every capability of the selection:
    /// after the update each selected qualified name maps to exactly this
    /// source, and entries of unrelated names are untouched.
    pub fn update_for_selection(&mut self, names: &Vec<Vec<u8>>, source: &ComponentDependency)
        ensures
            forall|j: int|
                0 <= j < names.deep_view().len() ==> lookup(
                    final(self)@,
                    #[trigger] names.deep_view()[j],
                ) == Some(source@),
            forall|q: Seq<u8>|
                !names.deep_view().contains(q) ==> #[trigger] lookup(final(self)@, q) == lookup(
                    old(self)@,
                    q,
                ),
    {
        let ghost nv = names.deep_view();
        let ghost orig = self@;
        let mut k: usize = 0;
        while k < names.len()
            invariant
                k <= names@.len(),
                nv == names.deep_view(),
                nv.len() == names@.len(),
                forall|j: int|
                    0 <= j < k ==> lookup(self@, #[trigger] nv[j]) == Some(source@),
                forall|q: Seq<u8>|
                    !nv.contains(q) ==> #[trigger] lookup(self@, q) == lookup(orig, q),
            decreases names.len() - k,
        {
            assert(nv[k as int] == names@[k as int]@);
            let ghost pre = self@;
            self.insert(copy_bytes(&names[k]), source.dup());
            proof {
                assert forall|j: int|
                    0 <= j < k + 1 implies lookup(self@, #[trigger] nv[j]) == Some(source@) by {
                    lemma_upsert_lookup(pre, nv[k as int], source@, nv[j]);
                }
                assert forall|q: Seq<u8>|
                    !nv.contains(q) implies #[trigger] lookup(self@, q) == lookup(orig, q) by {
                    lemma_upsert_lookup(pre, nv[k as int], source@, q);
                    assert(q != nv[k as int]);
                }
            }
            k += 1;
        }
    }
}

/// Upserting a key held at position `k`, with no earlier occurrence,
/// updates that entry in place.
proof fn lemma_upsert_at(entries: Seq<(Seq<u8>, DepV)>, k: Seq<u8>, v: DepV, at: int)
    requires
        0 <= at < entries.len(),
        entries[at].0 == k,
        forall|j: int| 0 <= j < at ==> (#[trigger] entries[j]).0 != k,
    ensures
        upsert(entries, k, v) == entries.update(at, (k, v)),
    decreases at,
{
    if at == 0 {
        assert(upsert(entries, k, v) =~= entries.update(0, (k, v)));
    } else {
        assert forall|j: int| 0 <= j < at - 1 implies (#[trigger] entries.drop_first()[j]).0
            != k by {
            assert(entries.drop_first()[j] == entries[j + 1]);
        }
        assert(entries.drop_first()[at - 1] == entries[at]);
        lemma_upsert_at(entries.drop_first(), k, v, at - 1);
        assert(upsert(entries, k, v) =~= entries.update(at, (k, v)));
    }
}

/// Upserting a key no entry holds appends a new entry.
proof fn lemma_upsert_missing(entries: Seq<(Seq<u8>, DepV)>, k: Seq<u8>, v: DepV)
    requires
        forall|j: int| 0 <= j < entries.len() ==> (#[trigger] entries[j]).0 != k,
    ensures
        upsert(entries, k, v) == entries.push((k, v)),
    decreases entries.len(),
{
    if entries.len() == 0 {
        assert(upsert(entries, k, v) =~= entries.push((k, v)));
    } else {
        assert forall|j: int|
            0 <= j < entries.drop_first().len() implies (#[trigger] entries.drop_first()[j]).0
            != k by {
            assert(entries.drop_first()[j] == entries[j + 1]);
        }
        lemma_upsert_missing(entries.drop_first(), k, v);
        assert(upsert(entries, k, v) =~= entries.push((k, v)));
    }
}

/// The key/value string pairs of one dependency source's manifest entry.
pub open spec fn dep_pairs_spec(d: DepV) -> Seq<(Seq<u8>, Seq<u8>)> {
    match d {
        DepV::Version { version } => seq![("version".spec_bytes(), version)],
        DepV::Package { version, registry, package } => seq![("version".spec_bytes(), version)]
            + (match registry {
            Some(r) => seq![("registry".spec_bytes(), r)],
            None => Seq::<(Seq<u8>, Seq<u8>)>::empty(),
        }) + (match package {
            Some(p) => seq![("package".spec_bytes(), p)],
            None => Seq::<(Seq<u8>, Seq<u8>)>::empty(),
        }),
        DepV::Local { path } => seq![("path".spec_bytes(), path)],
        DepV::Http { url, digest } => seq![
            ("url".spec_bytes(), url),
            ("digest".spec_bytes(), digest),
        ],
    }
}

/// Computes the key/value pairs written into one dependency's inline
/// table, exactly as `dep_pairs_spec` lays them out.
pub fn dep_pairs(d: &ComponentDependency) -> (r: Vec<(Vec<u8>, Vec<u8>)>)
    ensures
        r@.len() == dep_pairs_spec(d@).len(),
        forall|j: int|
            0 <= j < r@.len() ==> ((#[trigger] r@[j]).0@, r@[j].1@) == dep_pairs_spec(d@)[j],
{
    let mut out: Vec<(Vec<u8>, Vec<u8>)> = Vec::new();
    match d {
        ComponentDependency::Version { version } => {
            out.push((vstd::slice::slice_to_vec("version".as_bytes()), copy_bytes(version)));
        },
        ComponentDependency::Package { version, registry, package } => {
            out.push((vstd::slice::slice_to_vec("version".as_bytes()), copy_bytes(version)));
            match registry {
                Some(r) => {
                    out.push((vstd::slice::slice_to_vec("registry".as_bytes()), copy_bytes(r)));
                },
                None => {},
            }
            match package {
                Some(p) => {
                    out.push((vstd::slice::slice_to_vec("package".as_bytes()), copy_bytes(p)));
                },
                None => {},
            }
        },
        ComponentDependency::Local { path } => {
            out.push((vstd::slice::slice_to_vec("path".as_bytes()), copy_bytes(path)));
        },
        ComponentDependency::Http { url, digest } => {
            out.push((vstd::slice::slice_to_vec("url".as_bytes()), copy_bytes(url)));
            out.push((vstd::slice::slice_to_vec("digest".as_bytes()), copy_bytes(digest)));
        },
    }
    out
}

/// Declares toml_edit's table.
#[verifier::external_type_specification]
#[verifier::external_body]
pub struct ExTable(toml_edit::Table);

/// Declares toml_edit's inline table.
#[verifier::external_type_specification]
#[verifier::external_body]
pub struct ExInlineTable(toml_edit::InlineTable);

/// What one of the editor's inline tables holds: its string entries, in
/// insertion order.
pub uninterp spec fn inline_contents(t: toml_edit::InlineTable) -> Seq<(Seq<u8>, Seq<u8>)>;

/// What one of the editor's tables holds: each key with its inline-table
/// value's entries, in insertion order.
pub uninterp spec fn table_contents(t: toml_edit::Table) -> Seq<(Seq<u8>, Seq<(Seq<u8>, Seq<u8>)>)>;

/// Insert-or-replace over string entries: an existing key keeps its
/// position and takes the new value, a new key is appended — the editor's
/// map discipline.
pub open spec fn pairs_upsert(
    s: Seq<(Seq<u8>, Seq<u8>)>,
    k: Seq<u8>,
    v: Seq<u8>,
) -> Seq<(Seq<u8>, Seq<u8>)>
    decreases s.len(),
{
    if s.len() == 0 {
        seq![(k, v)]
    } else if s[0].0 == k {
        seq![(k, v)] + s.drop_first()
    } else {
        seq![s[0]] + pairs_upsert(s.drop_first(), k, v)
    }
}

/// Insert-or-replace over table entries, with the same discipline.
pub open spec fn contents_upsert(
    s: Seq<(Seq<u8>, Seq<(Seq<u8>, Seq<u8>)>)>,
    k: Seq<u8>,
    v: Seq<(Seq<u8>, Seq<u8>)>,
) -> Seq<(Seq<u8>, Seq<(Seq<u8>, Seq<u8>)>)>
    decreases s.len(),
{
    if s.len() == 0 {
        seq![(k, v)]
    } else if s[0].0 == k {
        seq![(k, v)] + s.drop_first()
    } else {
        seq![s[0]] + contents_upsert(s.drop_first(), k, v)
    }
}

/// Relies on toml_edit's `Table::new`: a fresh, empty table.
#[verifier::external_body]
fn table_new() -> (r: toml_edit::Table)
    ensures
        table_contents(r) == Seq::<(Seq<u8>, Seq<(Seq<u8>, Seq<u8>)>)>::empty(),
{
    toml_edit::Table::new()
}

/// Relies on toml_edit's `InlineTable::default`: a fresh, empty inline
/// table.
#[verifier::external_body]
fn inline_table_new() -> (r: toml_edit::InlineTable)
    ensures
        inline_contents(r) == Seq::<(Seq<u8>, Seq<u8>)>::empty(),
{
    toml_edit::InlineTable::default()
}

/// Relies on toml_edit's `InlineTable::insert`: inserts or replaces the
/// string value at the key, keeping an existing key's position and
/// appending a new one. The key and value must be ASCII: the editor takes
/// strings, and only bytes that survive UTF-8 decoding unchanged are
/// stored as given.
#[verifier::external_body]
fn inline_insert(t: &mut toml_edit::InlineTable, key: &[u8], val: &[u8])
    requires
        crate::bytes::ascii_bytes(key@),
        crate::bytes::ascii_bytes(val@),
    ensures
        inline_contents(*final(t)) == pairs_upsert(inline_contents(*old(t)), key@, val@),
{
    t.insert(
        String::from_utf8_lossy(key).as_ref(),
        toml_edit::Value::from(String::from_utf8_lossy(val).as_ref()),
    );
}

/// Relies on toml_edit's `Table::insert` with an inline-table value:
/// inserts or replaces at the key, keeping an existing key's position and
/// appending a new one. The key must be ASCII, for the same reason as the
/// inline insert's.
#[verifier::external_body]
fn table_insert_inline(t: &mut toml_edit::Table, key: &[u8], val: toml_edit::InlineTable)
    requires
        crate::bytes::ascii_bytes(key@),
    ensures
        table_contents(*final(t)) == contents_upsert(
            table_contents(*old(t)),
            key@,
            inline_contents(val),
        ),
{
    t.insert(
        String::from_utf8_lossy(key).as_ref(),
        toml_edit::Item::Value(toml_edit::Value::InlineTable(val)),
    );
}

/// What editing a manifest yields: the document with exactly the subtree
/// `component.<id>.dependencies` replaced by the staged table and all
/// other content re-rendered as parsed; nothing when the text does not
/// parse or the component path is blocked by a non-table binding. A
/// function of the text, the id and the staged contents alone.
pub uninterp spec fn edited_manifest_of(
    text: Seq<u8>,
    id: Seq<u8>,
    entries: Seq<(Seq<u8>, Seq<(Seq<u8>, Seq<u8>)>)>,
) -> Option<Seq<u8>>;

/// Relies on toml_edit's `FromStr` for `DocumentMut`, `Table::entry` with
/// `or_insert`, `Table::insert` and `Display`: parses the manifest text
/// preserving its formatting, walks to the component's table creating
/// missing levels, replaces its `dependencies` subtree wholesale, and
/// re-renders. Returns nothing — rather than panicking — when the text
/// does not parse or when `component` or the component id is bound to
/// something that is not a standard table.
#[verifier::external_body]
fn doc_edit(text: &[u8], component_id: &[u8], table: toml_edit::Table) -> (r: Option<Vec<u8>>)
    ensures
        match r {
            Some(t) => edited_manifest_of(text@, component_id@, table_contents(table)) == Some(
                t@,
            ),
            None => edited_manifest_of(text@, component_id@, table_contents(table)) is None,
        },
{
    let mut doc: toml_edit::DocumentMut = core::str::from_utf8(text).ok()?.parse().ok()?;
    let root = doc.as_table_mut();
    let slot = root.entry("component").or_insert(toml_edit::Item::Table(toml_edit::Table::new()));
    let toml_edit::Item::Table(components) = slot else { return None };
    let id = String::from_utf8_lossy(component_id).into_owned();
    let slot = components.entry(&id).or_insert(toml_edit::Item::Table(toml_edit::Table::new()));
    let toml_edit::Item::Table(component) = slot else { return None };
    component.insert("dependencies", toml_edit::Item::Table(table));
    Some(doc.to_string().into_bytes())
}

/// All keys and values of one entry's pairs are ASCII.
pub open spec fn pairs_ascii(pairs: Seq<(Seq<u8>, Seq<u8>)>) -> bool {
    forall|j: int|
        0 <= j < pairs.len() ==> crate::bytes::ascii_bytes((#[trigger] pairs[j]).0)
            && crate::bytes::ascii_bytes(pairs[j].1)
}

/// Every staged name and every staged pair of the table is ASCII — the
/// bytes the string-keyed editor can store as given.
pub open spec fn table_ascii(entries: Seq<(Seq<u8>, DepV)>) -> bool {
    forall|j: int|
        0 <= j < entries.len() ==> crate::bytes::ascii_bytes((#[trigger] entries[j]).0)
            && pairs_ascii(dep_pairs_spec(entries[j].1))
}

/// The staged pairs of one dependency entry, folded with the editor's
/// insert discipline.
pub open spec fn folded_pairs(pairs: Seq<(Seq<u8>, Seq<u8>)>) -> Seq<(Seq<u8>, Seq<u8>)>
    decreases pairs.len(),
{
    if pairs.len() == 0 {
        Seq::<(Seq<u8>, Seq<u8>)>::empty()
    } else {
        pairs_upsert(folded_pairs(pairs.drop_last()), pairs.last().0, pairs.last().1)
    }
}

/// The staged table of a whole dependency list: one inline table per
/// entry, keyed by qualified name, later entries overwriting earlier ones.
pub open spec fn staged_contents(entries: Seq<(Seq<u8>, DepV)>) -> Seq<
    (Seq<u8>, Seq<(Seq<u8>, Seq<u8>)>),
>
    decreases entries.len(),
{
    if entries.len() == 0 {
        Seq::<(Seq<u8>, Seq<(Seq<u8>, Seq<u8>)>)>::empty()
    } else {
        contents_upsert(
            staged_contents(entries.drop_last()),
            entries.last().0,
            folded_pairs(dep_pairs_spec(entries.last().1)),
        )
    }
}

/// Rewrites one component's dependency table in the manifest document,
/// preserving the rest of the document: the result is exactly the edit of
/// the input text at `component.<id>.dependencies` with the staged table
/// of the entries, and an error comes exactly when that edit is
/// impossible (unparsable text, a non-table binding in the way, or
/// non-ASCII bytes in the staged entries, which the string-keyed editor
/// could not store as given).
pub fn edit_component_deps_in_manifest(
    manifest_text: &Vec<u8>,
    component_id: &Vec<u8>,
    deps: &DependencyTable,
) -> (r: Result<Vec<u8>, DepsError>)
    ensures
        match r {
            Ok(t) => table_ascii(deps@) && edited_manifest_of(
                manifest_text@,
                component_id@,
                staged_contents(deps@),
            ) == Some(t@),
            Err(e) => (!table_ascii(deps@) || edited_manifest_of(
                manifest_text@,
                component_id@,
                staged_contents(deps@),
            ) is None) && (e is IoFailure),
        },
{
    let ghost dv = deps@;
    let mut table = table_new();
    let n = deps.entries.len();
    proof {
        assert(dv.subrange(0, 0) =~= Seq::<(Seq<u8>, DepV)>::empty());
        assert(staged_contents(dv.subrange(0, 0)) == Seq::<
            (Seq<u8>, Seq<(Seq<u8>, Seq<u8>)>),
        >::empty());
    }
    let mut k: usize = 0;
    while k < n
        invariant
            n == deps.entries@.len(),
            dv == deps@,
            dv.len() == n,
            k <= n,
            forall|q: int|
                0 <= q < k ==> crate::bytes::ascii_bytes((#[trigger] dv[q]).0) && pairs_ascii(
                    dep_pairs_spec(dv[q].1),
                ),
            table_contents(table) == staged_contents(dv.subrange(0, k as int)),
        decreases n - k,
    {
        proof {
            assert(dv[k as int] == (deps.entries@[k as int].0@, deps.entries@[k as int].1@));
        }
        if !crate::bytes::is_ascii_bytes(deps.entries[k].0.as_slice()) {
            proof {
                assert(!table_ascii(dv));
            }
            return Err(DepsError::IoFailure { detail: copy_bytes(component_id) });
        }
        let pairs = dep_pairs(&deps.entries[k].1);
        let ghost pv = dep_pairs_spec(dv[k as int].1);
        proof {
            assert forall|j: int| 0 <= j < pairs@.len() implies (
            #[trigger] pairs@[j].0@,
                pairs@[j].1@,
            ) == pv[j] by {}
        }
        let mut it = inline_table_new();
        let np = pairs.len();
        proof {
            assert(pv.subrange(0, 0) =~= Seq::<(Seq<u8>, Seq<u8>)>::empty());
            assert(folded_pairs(pv.subrange(0, 0)) == Seq::<(Seq<u8>, Seq<u8>)>::empty());
        }
        let mut j: usize = 0;
        while j < np
            invariant
                dv == deps@,
                dv.len() == n,
                k < n,
                dv[k as int] == (deps.entries@[k as int].0@, deps.entries@[k as int].1@),
                np == pairs@.len(),
                pv == dep_pairs_spec(dv[k as int].1),
                pv.len() == np,
                j <= np,
                forall|q: int| 0 <= q < np ==> ((#[trigger] pairs@[q].0@), pairs@[q].1@) == pv[q],
                forall|q: int|
                    0 <= q < j ==> crate::bytes::ascii_bytes((#[trigger] pv[q]).0)
                        && crate::bytes::ascii_bytes(pv[q].1),
                inline_contents(it) == folded_pairs(pv.subrange(0, j as int)),
            decreases np - j,
        {
            if !crate::bytes::is_ascii_bytes(pairs[j].0.as_slice()) || !crate::bytes::is_ascii_bytes(
                pairs[j].1.as_slice(),
            ) {
                proof {
                    assert(!pairs_ascii(pv));
                    assert(!table_ascii(dv));
                }
                return Err(DepsError::IoFailure { detail: copy_bytes(component_id) });
            }
            inline_insert(&mut it, pairs[j].0.as_slice(), pairs[j].1.as_slice());
            proof {
                let cur = pv.subrange(0, j + 1 as int);
                assert(cur.drop_last() =~= pv.subrange(0, j as int));
                assert(cur.last() == pv[j as int]);
            }
            j += 1;
        }
        proof {
            assert(pv.subrange(0, np as int) =~= pv);
            assert(pairs_ascii(pv));
        }
        table_insert_inline(&mut table, deps.entries[k].0.as_slice(), it);
        proof {
            let cur = dv.subrange(0, k + 1 as int);
            assert(cur.drop_last() =~= dv.subrange(0, k as int));
            assert(cur.last() == dv[k as int]);
        }
        k += 1;
    }
    proof {
        assert(table_ascii(dv));
    }
    proof {
        assert(dv.subrange(0, n as int) =~= dv);
    }
    match doc_edit(manifest_text.as_slice(), component_id.as_slice(), table) {
        Some(t) => Ok(t),
        None => Err(DepsError::IoFailure { detail: copy_bytes(component_id) }),
    }
}

/// What the manifest's component table declares: the component ids in
/// document order, empty when the text does not parse or declares no
/// component table; a function of the text alone.
pub uninterp spec fn component_ids_of(text: Seq<u8>) -> Seq<Seq<u8>>;

/// Relies on toml_edit's `DocumentMut` parse and `Table` iteration: lists
/// the ids under the manifest's `component` table, in document order.
#[verifier::external_body]
pub fn get_component_ids(manifest_text: &[u8]) -> (r: Vec<Vec<u8>>)
    ensures
        r.deep_view() == component_ids_of(manifest_text@),
{
    let Ok(text) = core::str::from_utf8(manifest_text) else { return Vec::new() };
    let Ok(doc) = text.parse::<toml_edit::DocumentMut>() else { return Vec::new() };
    match doc.get("component").and_then(|c| c.as_table()) {
        Some(table) => table.iter().map(|(id, _)| id.as_bytes().to_vec()).collect(),
        None => Vec::new(),
    }
}

/// Checks that the target component exists in the manifest's component
/// list; a missing id is the fatal `ManifestComponentNotFound`.
pub fn require_component(ids: &Vec<Vec<u8>>, id: &Vec<u8>) -> (r: Result<(), DepsError>)
    ensures
        match r {
            Ok(_) => ids.deep_view().contains(id@),
            Err(e) => !ids.deep_view().contains(id@) && (match e {
                DepsError::ManifestComponentNotFound { component } => component@ == id@,
                _ => false,
            }),
        },
{
    let mut k: usize = 0;
    while k < ids.len()
        invariant
            k <= ids@.len(),
            ids.deep_view().len() == ids@.len(),
            forall|j: int| 0 <= j < k ==> ids.deep_view()[j] != id@,
        decreases ids.len() - k,
    {
        assert(ids.deep_view()[k as int] == ids@[k as int]@);
        if crate::bytes::bytes_eq(ids[k].as_slice(), id.as_slice()) {
            assert(ids.deep_view().contains(id@));
            return Ok(());
        }
        k += 1;
    }
    proof {
        if ids.deep_view().contains(id@) {
            let j = choose|j: int| 0 <= j < ids.deep_view().len() && ids.deep_view()[j] == id@;
            assert(false);
        }
    }
    Err(DepsError::ManifestComponentNotFound { component: copy_bytes(id) })
}

} // verus!
