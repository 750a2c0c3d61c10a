//! The aggregate dependency descriptor: one document per local component,
//! holding a single world named `deps` whose imports are the union of all
//! capabilities selected so far. The document is rendered to canonical
//! line-oriented IDL text and parsed back; rendering is deterministic, so an
//! unchanged descriptor reproduces byte-identical output.
//!
//! The persisted document models each interface as its qualified name plus
//! opaque signature lines and carries no type definitions: enough for
//! deduplication by qualified name and for signature-conflict detection,
//! narrower than the full interface-definition language. Full-fidelity
//! interface text for each dependency is kept separately, produced by the
//! external printer.

use vstd::prelude::*;

use crate::DepsError;

use crate::graph::{
    graph_wf, item_key, item_wf, itf_key, itf_wf, world_wf, CapabilityGraph, GraphV, InterfaceDef,
    ItemV, ItfV, WorldDef, WorldItem, WorldV,
};
use crate::name::{
    find_byte_spec, itf_qname, lemma_find_byte_concat, lemma_find_byte_props, pkg_qname,
    valid_ident, valid_pkg_name, valid_version, version_byte, PackageName, PkgName,
};

verus! {

broadcast use crate::bytes::lemma_bytes_deep_view;

/// The newline byte that terminates every rendered line.
pub open spec fn nl() -> u8 {
    10u8
}

/// `"package "`.
pub open spec fn txt_package() -> Seq<u8> {
    seq![
        ('p' as u8),
        ('a' as u8),
        ('c' as u8),
        ('k' as u8),
        ('a' as u8),
        ('g' as u8),
        ('e' as u8),
        (' ' as u8),
    ]
}

/// `"world "`.
pub open spec fn txt_world() -> Seq<u8> {
    seq![('w' as u8), ('o' as u8), ('r' as u8), ('l' as u8), ('d' as u8), (' ' as u8)]
}

/// `"  import "`.
pub open spec fn txt_import() -> Seq<u8> {
    seq![
        (' ' as u8),
        (' ' as u8),
        ('i' as u8),
        ('m' as u8),
        ('p' as u8),
        ('o' as u8),
        ('r' as u8),
        ('t' as u8),
        (' ' as u8),
    ]
}

/// `"  interface "`.
pub open spec fn txt_interface() -> Seq<u8> {
    seq![
        (' ' as u8),
        (' ' as u8),
        ('i' as u8),
        ('n' as u8),
        ('t' as u8),
        ('e' as u8),
        ('r' as u8),
        ('f' as u8),
        ('a' as u8),
        ('c' as u8),
        ('e' as u8),
        (' ' as u8),
    ]
}

/// `"    "`, the indentation of a function line.
pub open spec fn txt_indent() -> Seq<u8> {
    seq![(' ' as u8), (' ' as u8), (' ' as u8), (' ' as u8)]
}

/// `" {"`.
pub open spec fn txt_open() -> Seq<u8> {
    seq![(' ' as u8), ('{' as u8)]
}

/// `"}"`.
pub open spec fn line_close() -> Seq<u8> {
    seq![('}' as u8)]
}

/// `"  }"`.
pub open spec fn line_close2() -> Seq<u8> {
    seq![(' ' as u8), (' ' as u8), ('}' as u8)]
}

/// `"package <qname>;"`.
pub open spec fn root_line(p: PkgName) -> Seq<u8> {
    txt_package() + pkg_qname(p) + seq![(';' as u8)]
}

/// `"world <name> {"`.
pub open spec fn world_open_line(name: Seq<u8>) -> Seq<u8> {
    txt_world() + name + txt_open()
}

/// `"  import <key>;"`.
pub open spec fn import_line(key: Seq<u8>) -> Seq<u8> {
    txt_import() + key + seq![(';' as u8)]
}

/// `"package <qname> {"`.
pub open spec fn pkg_open_line(p: PkgName) -> Seq<u8> {
    txt_package() + pkg_qname(p) + txt_open()
}

/// `"  interface <name> {"`.
pub open spec fn itf_open_line(name: Seq<u8>) -> Seq<u8> {
    txt_interface() + name + txt_open()
}

/// `"    <func>"`.
pub open spec fn func_line(f: Seq<u8>) -> Seq<u8> {
    txt_indent() + f
}

/// Joins lines into text, terminating each with a newline.
pub open spec fn join_lines(lines: Seq<Seq<u8>>) -> Seq<u8>
    decreases lines.len(),
{
    if lines.len() == 0 {
        Seq::<u8>::empty()
    } else {
        lines[0] + seq![nl()] + join_lines(lines.drop_first())
    }
}

/// Splits text at newlines; a final unterminated line is kept.
pub open spec fn split_lines(s: Seq<u8>) -> Seq<Seq<u8>>
    decreases s.len(),
{
    if s.len() == 0 {
        Seq::<Seq<u8>>::empty()
    } else {
        match find_byte_spec(s, nl()) {
            None => seq![s],
            Some(i) => if 0 <= i < s.len() {
                seq![s.subrange(0, i)] + split_lines(s.subrange(i + 1, s.len() as int))
            } else {
                seq![s]
            },
        }
    }
}

/// Joining distributes over concatenation of line lists.
pub proof fn lemma_join_concat(a: Seq<Seq<u8>>, b: Seq<Seq<u8>>)
    ensures
        join_lines(a + b) == join_lines(a) + join_lines(b),
    decreases a.len(),
{
    if a.len() == 0 {
        assert(a + b =~= b);
        assert(join_lines(a) + join_lines(b) =~= join_lines(b));
    } else {
        assert((a + b).drop_first() =~= a.drop_first() + b);
        assert((a + b)[0] == a[0]);
        lemma_join_concat(a.drop_first(), b);
        assert(join_lines(a + b) =~= join_lines(a) + join_lines(b));
    }
}

/// Joining a single line appends just that line and a newline.
pub proof fn lemma_join_single(l: Seq<u8>)
    ensures
        join_lines(seq![l]) == l + seq![nl()],
{
    let s: Seq<Seq<u8>> = seq![l];
    assert(s.drop_first() =~= Seq::<Seq<u8>>::empty());
    assert(join_lines(s.drop_first()) =~= Seq::<u8>::empty());
    assert(join_lines(s) =~= l + seq![nl()]);
}

/// Splitting the joined text recovers the lines, provided no line holds a
/// newline.
pub proof fn lemma_split_join(lines: Seq<Seq<u8>>)
    requires
        forall|i: int, j: int|
            0 <= i < lines.len() && 0 <= j < lines[i].len() ==> #[trigger] lines[i][j] != nl(),
    ensures
        split_lines(join_lines(lines)) == lines,
    decreases lines.len(),
{
    if lines.len() > 0 {
        let l0 = lines[0];
        let rest = join_lines(lines.drop_first());
        let s = join_lines(lines);
        assert(s == l0 + seq![nl()] + rest);
        assert forall|j: int| 0 <= j < l0.len() implies l0[j] != nl() by {
            assert(lines[0][j] != nl());
        }
        assert(s =~= l0 + (seq![nl()] + rest));
        lemma_find_byte_concat(l0, seq![nl()] + rest, nl());
        assert(find_byte_spec(seq![nl()] + rest, nl()) == Some(0int));
        assert(find_byte_spec(s, nl()) == Some(l0.len() as int));
        assert(s.len() > 0);
        assert(s.subrange(0, l0.len() as int) =~= l0);
        assert(s.subrange(l0.len() as int + 1, s.len() as int) =~= rest);
        assert forall|i: int, j: int|
            0 <= i < lines.drop_first().len() && 0 <= j < lines.drop_first()[i].len()
                implies #[trigger] lines.drop_first()[i][j] != nl() by {
            assert(lines.drop_first()[i] == lines[i + 1]);
        }
        lemma_split_join(lines.drop_first());
        assert(split_lines(s) =~= seq![l0] + lines.drop_first());
        assert(seq![l0] + lines.drop_first() =~= lines);
    }
}

/// `"deps"`: the name of the aggregate world, and the namespace of the
/// descriptor's own root package.
pub open spec fn deps_world_name() -> Seq<u8> {
    seq![('d' as u8), ('e' as u8), ('p' as u8), ('s' as u8)]
}

/// `deps:component`, the root package of a freshly synthesized descriptor.
pub open spec fn default_root_name() -> PkgName {
    PkgName {
        ns: deps_world_name(),
        name: seq![
            ('c' as u8),
            ('o' as u8),
            ('m' as u8),
            ('p' as u8),
            ('o' as u8),
            ('n' as u8),
            ('e' as u8),
            ('n' as u8),
            ('t' as u8),
        ],
        version: None,
    }
}

/// Descriptor shape: a root package and a world named `deps` owned by it,
/// with no exports.
pub open spec fn is_descriptor(g: GraphV, dw: int) -> bool {
    &&& g.packages.len() >= 1
    &&& 0 <= dw < g.worlds.len()
    &&& g.worlds[dw].name == deps_world_name()
    &&& g.worlds[dw].package == 0
    &&& g.worlds[dw].exports.len() == 0
}

/// The persisted aggregate dependency descriptor of one local component: a
/// capability graph whose world `deps` collects every selected capability.
pub struct Descriptor {
    pub graph: CapabilityGraph,
    pub deps_world: usize,
}

impl Descriptor {
    /// Well-formedness: the graph is well-formed and has descriptor shape.
    pub open spec fn wf(&self) -> bool {
        &&& self.graph.wf()
        &&& is_descriptor(self.graph@, self.deps_world as int)
    }

    /// The keys of the capabilities currently imported, in first-seen order.
    pub open spec fn imported(&self) -> Seq<Seq<u8>> {
        crate::merge::items_keys(
            self.graph@,
            self.graph@.worlds[self.deps_world as int].imports,
        )
    }

    /// Checks the descriptor's well-formedness executably, so that callers
    /// outside the verified world can establish it.
    pub fn check(&self) -> (r: bool)
        ensures
            r == self.wf(),
    {
        if !crate::graph::check_graph_wf(&self.graph) {
            return false;
        }
        if self.graph.packages.len() == 0 || self.deps_world >= self.graph.worlds.len() {
            return false;
        }
        proof {
            assert(self.graph@.worlds[self.deps_world as int] == self.graph.worlds@[self.deps_world as int]@);
        }
        let w = &self.graph.worlds[self.deps_world];
        let deps = deps_name_vec();
        let r = w.package == 0 && w.exports.len() == 0 && crate::bytes::bytes_eq(
            w.name.as_slice(),
            deps.as_slice(),
        );
        proof {
            if r {
                assert(is_descriptor(self.graph@, self.deps_world as int));
            } else {
                assert(!is_descriptor(self.graph@, self.deps_world as int));
            }
        }
        r
    }
}

/// One rendered import line per world item.
pub open spec fn import_lines(g: GraphV, items: Seq<ItemV>) -> Seq<Seq<u8>> {
    items.map_values(|it: ItemV| import_line(item_key(g, it)))
}

/// The rendered block of one interface: header, one line per function,
/// closing brace.
pub open spec fn itf_block(g: GraphV, i: int) -> Seq<Seq<u8>> {
    seq![itf_open_line(g.interfaces[i].name)] + g.interfaces[i].funcs.map_values(
        |f: Seq<u8>| func_line(f),
    ) + seq![line_close2()]
}

/// The rendered blocks of all interfaces of package `p`, in arena order,
/// scanning from interface `i`.
pub open spec fn itf_blocks(g: GraphV, p: int, i: int) -> Seq<Seq<u8>>
    decreases g.interfaces.len() - i,
{
    if i < 0 || i >= g.interfaces.len() {
        Seq::<Seq<u8>>::empty()
    } else {
        (if g.interfaces[i].package == p {
            itf_block(g, i)
        } else {
            Seq::<Seq<u8>>::empty()
        }) + itf_blocks(g, p, i + 1)
    }
}

/// The rendered block of one foreign package: header, its interfaces,
/// closing brace.
pub open spec fn pkg_block(g: GraphV, p: int) -> Seq<Seq<u8>> {
    seq![pkg_open_line(g.packages[p])] + itf_blocks(g, p, 0) + seq![line_close()]
}

/// The rendered blocks of all packages from index `p` on.
pub open spec fn pkg_blocks(g: GraphV, p: int) -> Seq<Seq<u8>>
    decreases g.packages.len() - p,
{
    if p < 0 || p >= g.packages.len() {
        Seq::<Seq<u8>>::empty()
    } else {
        pkg_block(g, p) + pkg_blocks(g, p + 1)
    }
}

/// All lines of the canonical rendering: root package declaration, the
/// `deps` world with its imports, then every foreign package with its
/// interface shapes.
pub open spec fn render_lines(g: GraphV, dw: int) -> Seq<Seq<u8>> {
    seq![root_line(g.packages[0])] + seq![world_open_line(g.worlds[dw].name)] + import_lines(
        g,
        g.worlds[dw].imports,
    ) + seq![line_close()] + pkg_blocks(g, 1)
}

/// The canonical text of a descriptor graph.
pub open spec fn spec_render(g: GraphV, dw: int) -> Seq<u8> {
    join_lines(render_lines(g, dw))
}

/// Builds a byte vector for `"deps"`.
pub fn deps_name_vec() -> (r: Vec<u8>)
    ensures
        r@ == deps_world_name(),
{
    let a: [u8; 4] = [('d' as u8), ('e' as u8), ('p' as u8), ('s' as u8)];
    let v = vstd::slice::slice_to_vec(a.as_slice());
    assert(v@ =~= deps_world_name());
    v
}

/// Builds the root package name of a fresh descriptor.
pub fn default_root_pkg() -> (r: PackageName)
    ensures
        r@ == default_root_name(),
{
    let a: [u8; 9] = [
        ('c' as u8),
        ('o' as u8),
        ('m' as u8),
        ('p' as u8),
        ('o' as u8),
        ('n' as u8),
        ('e' as u8),
        ('n' as u8),
        ('t' as u8),
    ];
    let name = vstd::slice::slice_to_vec(a.as_slice());
    assert(name@ =~= default_root_name().name);
    PackageName { namespace: deps_name_vec(), name, version: None }
}

/// Synthesizes the minimal skeleton descriptor: one root package and one
/// empty world named `deps`.
pub fn empty_descriptor() -> (r: Descriptor)
    ensures
        r.wf(),
        r.graph@.packages.len() == 1,
        r.graph@.packages[0] == default_root_name(),
        r.graph@.interfaces.len() == 0,
        r.graph@.worlds.len() == 1,
        r.deps_world == 0,
        r.imported() == Seq::<Seq<u8>>::empty(),
{
    let mut packages: Vec<PackageName> = Vec::new();
    packages.push(default_root_pkg());
    let mut worlds: Vec<WorldDef> = Vec::new();
    worlds.push(
        WorldDef { name: deps_name_vec(), package: 0, imports: Vec::new(), exports: Vec::new() },
    );
    let graph = CapabilityGraph { packages, interfaces: Vec::new(), worlds };
    let d = Descriptor { graph, deps_world: 0 };
    proof {
        assert(d.graph@.packages =~= seq![default_root_name()]);
        assert(d.graph@.interfaces =~= Seq::<ItfV>::empty());
        assert(d.graph.worlds@[0].imports.deep_view() =~= Seq::<ItemV>::empty());
        assert(d.graph.worlds@[0].exports.deep_view() =~= Seq::<ItemV>::empty());
        assert(d.graph@.worlds =~= seq![
            WorldV {
                name: deps_world_name(),
                package: 0,
                imports: Seq::<ItemV>::empty(),
                exports: Seq::<ItemV>::empty(),
            },
        ]);
        assert(valid_pkg_name(default_root_name()));
        assert(valid_version(deps_world_name()));
        assert(graph_wf(d.graph@));
        assert(d.imported() =~= Seq::<Seq<u8>>::empty());
    }
    d
}

/// Appends `line` and a newline to `out`.
fn emit_line(out: &mut Vec<u8>, line: &Vec<u8>)
    ensures
        final(out)@ == old(out)@ + line@ + seq![nl()],
{
    crate::bytes::push_all(out, line.as_slice());
    out.push(10u8);
    assert(out@ =~= old(out)@ + line@ + seq![nl()]);
}

/// Builds `"package "`.
fn txt_package_vec() -> (r: Vec<u8>)
    ensures
        r@ == txt_package(),
{
    let a: [u8; 8] = [
        ('p' as u8),
        ('a' as u8),
        ('c' as u8),
        ('k' as u8),
        ('a' as u8),
        ('g' as u8),
        ('e' as u8),
        (' ' as u8),
    ];
    let v = vstd::slice::slice_to_vec(a.as_slice());
    assert(v@ =~= txt_package());
    v
}

/// Builds `"  interface "`.
fn txt_interface_vec() -> (r: Vec<u8>)
    ensures
        r@ == txt_interface(),
{
    let a: [u8; 12] = [
        (' ' as u8),
        (' ' as u8),
        ('i' as u8),
        ('n' as u8),
        ('t' as u8),
        ('e' as u8),
        ('r' as u8),
        ('f' as u8),
        ('a' as u8),
        ('c' as u8),
        ('e' as u8),
        (' ' as u8),
    ];
    let v = vstd::slice::slice_to_vec(a.as_slice());
    assert(v@ =~= txt_interface());
    v
}

/// Builds `"  import "`.
fn txt_import_vec() -> (r: Vec<u8>)
    ensures
        r@ == txt_import(),
{
    let a: [u8; 9] = [
        (' ' as u8),
        (' ' as u8),
        ('i' as u8),
        ('m' as u8),
        ('p' as u8),
        ('o' as u8),
        ('r' as u8),
        ('t' as u8),
        (' ' as u8),
    ];
    let v = vstd::slice::slice_to_vec(a.as_slice());
    assert(v@ =~= txt_import());
    v
}

/// Builds `"world "`.
fn txt_world_vec() -> (r: Vec<u8>)
    ensures
        r@ == txt_world(),
{
    let a: [u8; 6] = [('w' as u8), ('o' as u8), ('r' as u8), ('l' as u8), ('d' as u8), (' ' as u8)];
    let v = vstd::slice::slice_to_vec(a.as_slice());
    assert(v@ =~= txt_world());
    v
}

/// Builds `"package <qname>;"`.
fn build_root_line(p: &PackageName) -> (r: Vec<u8>)
    ensures
        r@ == root_line(p@),
{
    let mut out = txt_package_vec();
    crate::bytes::push_all(&mut out, p.render_qname().as_slice());
    out.push(';' as u8);
    assert(out@ =~= root_line(p@));
    out
}

/// Builds `"world <name> {"`.
fn build_world_open(name: &Vec<u8>) -> (r: Vec<u8>)
    ensures
        r@ == world_open_line(name@),
{
    let mut out = txt_world_vec();
    crate::bytes::push_all(&mut out, name.as_slice());
    out.push(' ' as u8);
    out.push('{' as u8);
    assert(out@ =~= world_open_line(name@));
    out
}

/// Builds `"  import <key>;"`.
fn build_import_line(key: &Vec<u8>) -> (r: Vec<u8>)
    ensures
        r@ == import_line(key@),
{
    let mut out = txt_import_vec();
    crate::bytes::push_all(&mut out, key.as_slice());
    out.push(';' as u8);
    assert(out@ =~= import_line(key@));
    out
}

/// Builds `"package <qname> {"`.
fn build_pkg_open(p: &PackageName) -> (r: Vec<u8>)
    ensures
        r@ == pkg_open_line(p@),
{
    let mut out = txt_package_vec();
    crate::bytes::push_all(&mut out, p.render_qname().as_slice());
    out.push(' ' as u8);
    out.push('{' as u8);
    assert(out@ =~= pkg_open_line(p@));
    out
}

/// Builds `"  interface <name> {"`.
fn build_itf_open(name: &Vec<u8>) -> (r: Vec<u8>)
    ensures
        r@ == itf_open_line(name@),
{
    let mut out = txt_interface_vec();
    crate::bytes::push_all(&mut out, name.as_slice());
    out.push(' ' as u8);
    out.push('{' as u8);
    assert(out@ =~= itf_open_line(name@));
    out
}

/// Builds `"    <func>"`.
fn build_func_line(f: &Vec<u8>) -> (r: Vec<u8>)
    ensures
        r@ == func_line(f@),
{
    let mut out: Vec<u8> = Vec::new();
    out.push(' ' as u8);
    out.push(' ' as u8);
    out.push(' ' as u8);
    out.push(' ' as u8);
    crate::bytes::push_all(&mut out, f.as_slice());
    assert(out@ =~= func_line(f@));
    out
}

/// Builds `"}"`.
fn build_close() -> (r: Vec<u8>)
    ensures
        r@ == line_close(),
{
    let mut out: Vec<u8> = Vec::new();
    out.push('}' as u8);
    assert(out@ =~= line_close());
    out
}

/// Builds `"  }"`.
fn build_close2() -> (r: Vec<u8>)
    ensures
        r@ == line_close2(),
{
    let mut out: Vec<u8> = Vec::new();
    out.push(' ' as u8);
    out.push(' ' as u8);
    out.push('}' as u8);
    assert(out@ =~= line_close2());
    out
}

/// The key carried by an import line, when the line has import shape and a
/// well-formed qualified name or plain name.
pub open spec fn line_import_key(l: Seq<u8>) -> Option<Seq<u8>> {
    if l.len() >= txt_import().len() + 1 && l.subrange(0, txt_import().len() as int)
        == txt_import() && l[l.len() - 1] == (';' as u8) {
        let mid = l.subrange(txt_import().len() as int, l.len() - 1);
        if crate::name::parse_itf_qname_spec(mid) is Some || valid_ident(mid) {
            Some(mid)
        } else {
            None
        }
    } else {
        None
    }
}

/// The keys of all import lines of a document, in order.
pub open spec fn extract_import_keys(lines: Seq<Seq<u8>>) -> Seq<Seq<u8>>
    decreases lines.len(),
{
    if lines.len() == 0 {
        Seq::<Seq<u8>>::empty()
    } else {
        (match line_import_key(lines[0]) {
            Some(k) => seq![k],
            None => Seq::<Seq<u8>>::empty(),
        }) + extract_import_keys(lines.drop_first())
    }
}

/// Extraction distributes over concatenation of line lists.
pub proof fn lemma_extract_concat(a: Seq<Seq<u8>>, b: Seq<Seq<u8>>)
    ensures
        extract_import_keys(a + b) == extract_import_keys(a) + extract_import_keys(b),
    decreases a.len(),
{
    if a.len() == 0 {
        assert(a + b =~= b);
        assert(extract_import_keys(a) + extract_import_keys(b) =~= extract_import_keys(b));
    } else {
        assert((a + b).drop_first() =~= a.drop_first() + b);
        assert((a + b)[0] == a[0]);
        lemma_extract_concat(a.drop_first(), b);
        assert(extract_import_keys(a + b) =~= extract_import_keys(a) + extract_import_keys(b));
    }
}

/// Item keys survive growing the package arena, growing the interface
/// arena, and changes to function shapes: a key reads only interface names,
/// their package indices and package names.
pub proof fn lemma_keys_stable_grow(g1: GraphV, g2: GraphV, items: Seq<ItemV>)
    requires
        g1.packages.is_prefix_of(g2.packages),
        g1.interfaces.len() <= g2.interfaces.len(),
        forall|i: int|
            0 <= i < g1.interfaces.len() ==> #[trigger] g2.interfaces[i].name
                == g1.interfaces[i].name && g2.interfaces[i].package == g1.interfaces[i].package,
        forall|i: int|
            0 <= i < g1.interfaces.len() ==> 0 <= #[trigger] g1.interfaces[i].package
                < g1.packages.len(),
        forall|k: int| 0 <= k < items.len() ==> item_wf(g1, #[trigger] items[k]),
    ensures
        crate::merge::items_keys(g2, items) == crate::merge::items_keys(g1, items),
{
    assert forall|k: int|
        0 <= k < items.len() implies crate::merge::items_keys(g2, items)[k]
        == crate::merge::items_keys(g1, items)[k] by {
        match items[k] {
            ItemV::Itf { id } => {
                assert(item_wf(g1, items[k]));
                assert(g2.interfaces[id].name == g1.interfaces[id].name);
                let p = g1.interfaces[id].package;
                assert(g1.packages[p] == g1.packages.subrange(0, g1.packages.len() as int)[p]);
                assert(g2.packages[p] == g1.packages[p]);
            },
            ItemV::Func { name } => {},
            ItemV::Ty { name } => {},
        }
    }
    assert(crate::merge::items_keys(g2, items) =~= crate::merge::items_keys(g1, items));
}

/// Finds the first occurrence of a newline at or after `start`.
fn find_nl_from(s: &[u8], start: usize) -> (r: Option<usize>)
    requires
        start <= s@.len(),
    ensures
        match r {
            Some(j) => start <= j < s@.len() && find_byte_spec(
                s@.subrange(start as int, s@.len() as int),
                nl(),
            ) == Some(j - start),
            None => find_byte_spec(s@.subrange(start as int, s@.len() as int), nl()) is None,
        },
{
    let ghost sub = s@.subrange(start as int, s@.len() as int);
    proof {
        lemma_find_byte_props(sub, nl());
    }
    let n = s.len();
    let mut j = start;
    while j < n
        invariant
            start <= j <= n,
            n == s@.len(),
            sub == s@.subrange(start as int, s@.len() as int),
            forall|t: int| start <= t < j ==> s@[t] != nl(),
            match find_byte_spec(sub, nl()) {
                Some(i) => 0 <= i < sub.len() && sub[i] == nl() && forall|t: int|
                    0 <= t < i ==> sub[t] != nl(),
                None => forall|t: int| 0 <= t < sub.len() ==> sub[t] != nl(),
            },
        decreases n - j,
    {
        if s[j] == 10 {
            proof {
                assert(sub[j - start] == s@[j as int]);
                assert forall|t: int| 0 <= t < j - start implies sub[t] != nl() by {
                    assert(sub[t] == s@[start + t]);
                }
                match find_byte_spec(sub, nl()) {
                    Some(i) => {
                        if i < j - start {
                            assert(sub[i] == nl());
                            assert(false);
                        }
                        if i > j - start {
                            assert(sub[j - start] != nl());
                            assert(false);
                        }
                    },
                    None => {
                        assert(sub[j - start] == nl());
                        assert(false);
                    },
                }
            }
            return Some(j);
        }
        j += 1;
    }
    proof {
        match find_byte_spec(sub, nl()) {
            Some(i) => {
                assert(sub[i] == s@[start + i]);
                assert(false);
            },
            None => {},
        }
    }
    None
}

/// Splits text into its lines.
pub fn split_lines_vec(s: &[u8]) -> (r: Vec<Vec<u8>>)
    ensures
        r.deep_view() == split_lines(s@),
{
    let mut out: Vec<Vec<u8>> = Vec::new();
    let n = s.len();
    proof {
        assert(s@.subrange(0, s@.len() as int) =~= s@);
        assert(out.deep_view() =~= Seq::<Seq<u8>>::empty());
        assert(out.deep_view() + split_lines(s@) =~= split_lines(s@));
    }
    let mut start: usize = 0;
    while start < n
        invariant
            start <= n,
            n == s@.len(),
            out.deep_view() + split_lines(s@.subrange(start as int, s@.len() as int))
                == split_lines(s@),
        decreases n - start,
    {
        let ghost sub = s@.subrange(start as int, s@.len() as int);
        let ghost pre = out.deep_view();
        match find_nl_from(s, start) {
            Some(j) => {
                let line = crate::name::sub_vec(s, start, j);
                out.push(line);
                proof {
                    assert(sub.len() > 0);
                    assert(find_byte_spec(sub, nl()) == Some(j - start));
                    assert(sub.subrange(0, j - start) =~= s@.subrange(start as int, j as int));
                    assert(sub.subrange(j - start + 1, sub.len() as int) =~= s@.subrange(
                        j + 1,
                        s@.len() as int,
                    ));
                    assert(split_lines(sub) == seq![s@.subrange(start as int, j as int)]
                        + split_lines(s@.subrange(j + 1, s@.len() as int)));
                    assert(out.deep_view() =~= pre.push(s@.subrange(start as int, j as int)));
                    assert(out.deep_view() + split_lines(s@.subrange(j + 1, s@.len() as int)) =~= pre
                        + split_lines(sub));
                }
                start = j + 1;
            },
            None => {
                let line = crate::name::sub_vec(s, start, n);
                out.push(line);
                proof {
                    assert(sub.len() > 0);
                    assert(split_lines(sub) == seq![sub]);
                    assert(out.deep_view() =~= pre.push(sub));
                    assert(out.deep_view() + split_lines(s@.subrange(n as int, s@.len() as int))
                        =~= pre + split_lines(sub)) by {
                        assert(split_lines(s@.subrange(n as int, s@.len() as int))
                            =~= Seq::<Seq<u8>>::empty());
                    }
                }
                start = n;
            },
        }
    }
    proof {
        assert(split_lines(s@.subrange(n as int, s@.len() as int)) =~= Seq::<Seq<u8>>::empty());
        assert(out.deep_view() + Seq::<Seq<u8>>::empty() =~= out.deep_view());
    }
    out
}

/// The graph a parse state denotes: the accumulated packages and
/// interfaces, and one `deps` world holding the accumulated imports.
pub open spec fn parse_graph(pkgs: Seq<PkgName>, itfs: Seq<ItfV>, imps: Seq<ItemV>) -> GraphV {
    GraphV {
        packages: pkgs,
        interfaces: itfs,
        worlds: seq![
            WorldV {
                name: deps_world_name(),
                package: 0,
                imports: imps,
                exports: Seq::<ItemV>::empty(),
            },
        ],
    }
}

/// Well-formedness of a parse state: names valid, indices in range,
/// qualified names unique.
pub open spec fn parse_state_wf(pkgs: Seq<PkgName>, itfs: Seq<ItfV>, imps: Seq<ItemV>) -> bool {
    &&& pkgs.len() >= 1
    &&& forall|p: int| 0 <= p < pkgs.len() ==> valid_pkg_name(#[trigger] pkgs[p])
    &&& forall|p1: int, p2: int|
        0 <= p1 < pkgs.len() && 0 <= p2 < pkgs.len() && p1 != p2 ==> #[trigger] pkgs[p1]
            != #[trigger] pkgs[p2]
    &&& forall|i: int|
        0 <= i < itfs.len() ==> 0 <= (#[trigger] itfs[i]).package < pkgs.len() && valid_ident(
            itfs[i].name,
        ) && (forall|k: int|
            0 <= k < itfs[i].funcs.len() ==> crate::graph::func_line_ok(#[trigger] itfs[i].funcs[k]))
    &&& forall|i1: int, i2: int|
        0 <= i1 < itfs.len() && 0 <= i2 < itfs.len() && i1 != i2 && #[trigger] itfs[i1].package
            == #[trigger] itfs[i2].package ==> itfs[i1].name != itfs[i2].name
    &&& forall|k: int|
        0 <= k < imps.len() ==> match #[trigger] imps[k] {
            ItemV::Itf { id } => 0 <= id < itfs.len(),
            ItemV::Func { name } => valid_ident(name),
            ItemV::Ty { name } => valid_ident(name),
        }
}

/// Extraction from a single line.
pub proof fn lemma_extract_single(l: Seq<u8>)
    ensures
        extract_import_keys(seq![l]) == match line_import_key(l) {
            Some(k) => seq![k],
            None => Seq::<Seq<u8>>::empty(),
        },
{
    let s: Seq<Seq<u8>> = seq![l];
    assert(s.drop_first() =~= Seq::<Seq<u8>>::empty());
    assert(extract_import_keys(s.drop_first()) =~= Seq::<Seq<u8>>::empty());
    match line_import_key(l) {
        Some(k) => {
            assert(extract_import_keys(s) =~= seq![k]);
        },
        None => {
            assert(extract_import_keys(s) =~= Seq::<Seq<u8>>::empty());
        },
    }
}

/// Finds the index of a package with this name in the accumulated list.
fn find_pkg_in(packages: &Vec<PackageName>, p: &PackageName) -> (r: Option<usize>)
    ensures
        match r {
            Some(q) => q < packages.deep_view().len() && packages.deep_view()[q as int] == p@,
            None => forall|j: int|
                0 <= j < packages.deep_view().len() ==> packages.deep_view()[j] != p@,
        },
{
    let mut q: usize = 0;
    while q < packages.len()
        invariant
            q <= packages@.len(),
            packages.deep_view().len() == packages@.len(),
            forall|j: int| 0 <= j < q ==> packages.deep_view()[j] != p@,
        decreases packages.len() - q,
    {
        assert(packages.deep_view()[q as int] == packages@[q as int]@);
        if crate::merge::pkg_name_eq(&packages[q], p) {
            return Some(q);
        }
        q += 1;
    }
    None
}

/// Finds the index of an interface of package `pkg` with this name in the
/// accumulated list.
fn find_itf_in(interfaces: &Vec<InterfaceDef>, pkg: usize, name: &[u8]) -> (r: Option<usize>)
    ensures
        match r {
            Some(i) => i < interfaces.deep_view().len() && interfaces.deep_view()[i as int].package
                == pkg as int && interfaces.deep_view()[i as int].name == name@,
            None => forall|j: int|
                0 <= j < interfaces.deep_view().len() ==> !(interfaces.deep_view()[j].package
                    == pkg as int && interfaces.deep_view()[j].name == name@),
        },
{
    let mut i: usize = 0;
    while i < interfaces.len()
        invariant
            i <= interfaces@.len(),
            interfaces.deep_view().len() == interfaces@.len(),
            forall|j: int|
                0 <= j < i ==> !(interfaces.deep_view()[j].package == pkg as int
                    && interfaces.deep_view()[j].name == name@),
        decreases interfaces.len() - i,
    {
        assert(interfaces.deep_view()[i as int] == interfaces@[i as int]@);
        if interfaces[i].package == pkg && crate::bytes::bytes_eq(
            interfaces[i].name.as_slice(),
            name,
        ) {
            return Some(i);
        }
        i += 1;
    }
    None
}

/// Appends one function line to interface `i`.
fn push_func_line(interfaces: &mut Vec<InterfaceDef>, i: usize, f: Vec<u8>)
    requires
        i < old(interfaces)@.len(),
    ensures
        final(interfaces).deep_view() == old(interfaces).deep_view().update(
            i as int,
            ItfV {
                name: old(interfaces).deep_view()[i as int].name,
                package: old(interfaces).deep_view()[i as int].package,
                funcs: old(interfaces).deep_view()[i as int].funcs.push(f@),
            },
        ),
{
    let ghost pre = interfaces.deep_view();
    let mut tmp = InterfaceDef { name: Vec::new(), package: 0, funcs: Vec::new() };
    vstd::pervasive::VecAdditionalExecFns::set_and_swap(interfaces, i, &mut tmp);
    tmp.funcs.push(f);
    vstd::pervasive::VecAdditionalExecFns::set_and_swap(interfaces, i, &mut tmp);
    proof {
        assert(interfaces.deep_view() =~= pre.update(
            i as int,
            ItfV { name: pre[i as int].name, package: pre[i as int].package, funcs: pre[i as int].funcs.push(f@) },
        )) by {
            assert(interfaces.deep_view().len() == interfaces@.len());
            assert forall|j: int|
                0 <= j < interfaces@.len() implies interfaces.deep_view()[j] == pre.update(
                i as int,
                ItfV {
                    name: pre[i as int].name,
                    package: pre[i as int].package,
                    funcs: pre[i as int].funcs.push(f@),
                },
            )[j] by {
                assert(interfaces.deep_view()[j] == interfaces@[j]@);
                if j != i {
                    assert(interfaces@[j] == old(interfaces)@[j]);
                    assert(pre[j] == old(interfaces)@[j]@);
                } else {
                    assert(pre[i as int] == old(interfaces)@[i as int]@);
                    assert(interfaces@[i as int]@.funcs =~= pre[i as int].funcs.push(f@));
                }
            }
        }
    }
}

/// Returns whether every byte of the line is printable ASCII.
fn is_func_ok(f: &[u8]) -> (r: bool)
    ensures
        r == crate::graph::func_line_ok(f@),
{
    let mut i: usize = 0;
    while i < f.len()
        invariant
            i <= f@.len(),
            forall|j: int| 0 <= j < i ==> 32 <= #[trigger] f@[j] <= 126,
        decreases f.len() - i,
    {
        if f[i] < 32 || f[i] > 126 {
            return false;
        }
        i += 1;
    }
    true
}

/// Renders the descriptor to its canonical text: deterministic, ordered by
/// the arenas, documentation-free.
#[verifier::rlimit(60)]
pub fn render_descriptor(d: &Descriptor) -> (r: Vec<u8>)
    requires
        d.wf(),
    ensures
        r@ == spec_render(d.graph@, d.deps_world as int),
{
    let ghost gv = d.graph@;
    let ghost dw = d.deps_world as int;
    let mut out: Vec<u8> = Vec::new();

    proof {
        assert(gv.packages[0] == d.graph.packages@[0]@);
        assert(gv.worlds[dw] == d.graph.worlds@[dw]@);
    }
    let l0 = build_root_line(&d.graph.packages[0]);
    emit_line(&mut out, &l0);
    let l1 = build_world_open(&d.graph.worlds[d.deps_world].name);
    emit_line(&mut out, &l1);
    proof {
        assert(out@ =~= join_lines(seq![root_line(gv.packages[0])] + seq![
            world_open_line(gv.worlds[dw].name),
        ])) by {
            lemma_join_concat(
                seq![root_line(gv.packages[0])],
                seq![world_open_line(gv.worlds[dw].name)],
            );
            lemma_join_single(root_line(gv.packages[0]));
            lemma_join_single(world_open_line(gv.worlds[dw].name));
        }
    }
    let ghost head = seq![root_line(gv.packages[0])] + seq![world_open_line(gv.worlds[dw].name)];

    // Import lines of the deps world.
    let ghost imps = gv.worlds[dw].imports;
    proof {
        assert(world_wf(gv, dw));
        assert forall|k: int| 0 <= k < imps.len() implies item_wf(gv, #[trigger] imps[k]) by {}
    }
    let n = d.graph.worlds[d.deps_world].imports.len();
    let mut k: usize = 0;
    while k < n
        invariant
            d.wf(),
            gv == d.graph@,
            dw == d.deps_world as int,
            imps == gv.worlds[dw].imports,
            head == seq![root_line(gv.packages[0])] + seq![world_open_line(gv.worlds[dw].name)],
            n == imps.len(),
            k <= n,
            forall|k2: int| 0 <= k2 < imps.len() ==> item_wf(gv, #[trigger] imps[k2]),
            out@ == join_lines(head + import_lines(gv, imps.subrange(0, k as int))),
        decreases n - k,
    {
        proof {
            assert(gv.worlds[dw] == d.graph.worlds@[dw]@);
            assert(imps[k as int] == d.graph.worlds@[dw].imports@[k as int]@);
        }
        let key = crate::graph::item_key_of(&d.graph, &d.graph.worlds[d.deps_world].imports[k]);
        let line = build_import_line(&key);
        emit_line(&mut out, &line);
        proof {
            let pre = head + import_lines(gv, imps.subrange(0, k as int));
            let cur = head + import_lines(gv, imps.subrange(0, k + 1 as int));
            assert(import_lines(gv, imps.subrange(0, k + 1 as int)) =~= import_lines(
                gv,
                imps.subrange(0, k as int),
            ).push(import_line(item_key(gv, imps[k as int])))) by {
                assert(imps.subrange(0, k + 1 as int).drop_last() =~= imps.subrange(0, k as int));
            }
            assert(cur =~= pre.push(import_line(item_key(gv, imps[k as int]))));
            lemma_join_concat(pre, seq![import_line(item_key(gv, imps[k as int]))]);
            assert(pre + seq![import_line(item_key(gv, imps[k as int]))] =~= cur);
            lemma_join_single(import_line(item_key(gv, imps[k as int])));
        }
        k += 1;
    }
    proof {
        assert(imps.subrange(0, n as int) =~= imps);
    }
    let lc = build_close();
    emit_line(&mut out, &lc);
    let ghost mid = head + import_lines(gv, imps) + seq![line_close()];
    proof {
        lemma_join_concat(head + import_lines(gv, imps), seq![line_close()]);
        lemma_join_single(line_close());
        assert(out@ =~= join_lines(mid));
    }

    // Foreign package blocks.
    proof {
        assert(gv.packages.len() == d.graph.packages@.len());
        assert(gv.interfaces.len() == d.graph.interfaces@.len());
    }
    proof {
        lemma_join_concat(mid, pkg_blocks(gv, 1));
    }
    let np = d.graph.packages.len();
    let mut p: usize = 1;
    while p < np
        invariant
            d.wf(),
            gv == d.graph@,
            dw == d.deps_world as int,
            mid == seq![root_line(gv.packages[0])] + seq![world_open_line(gv.worlds[dw].name)]
                + import_lines(gv, gv.worlds[dw].imports) + seq![line_close()],
            np == gv.packages.len(),
            d.graph.packages@.len() == np,
            d.graph.interfaces@.len() == gv.interfaces.len(),
            1 <= p <= np,
            out@ + join_lines(pkg_blocks(gv, p as int)) == join_lines(mid + pkg_blocks(gv, 1)),
        decreases np - p,
    {
        proof {
            assert(gv.packages[p as int] == d.graph.packages@[p as int]@);
        }
        let lopen = build_pkg_open(&d.graph.packages[p]);
        emit_line(&mut out, &lopen);
        let ghost out_after_open = out@;

        // Interface blocks of this package.
        let ni = d.graph.interfaces.len();
        let mut i: usize = 0;
        while i < ni
            invariant
                d.wf(),
                gv == d.graph@,
                ni == gv.interfaces.len(),
                d.graph.interfaces@.len() == ni,
                i <= ni,
                p < gv.packages.len(),
                out@ + join_lines(itf_blocks(gv, p as int, i as int)) == out_after_open + join_lines(
                    itf_blocks(gv, p as int, 0),
                ),
            decreases ni - i,
        {
            proof {
                assert(gv.interfaces[i as int] == d.graph.interfaces@[i as int]@);
                assert(itf_wf(gv, i as int));
            }
            if d.graph.interfaces[i].package == p {
                let ghost before = out@;
                let iopen = build_itf_open(&d.graph.interfaces[i].name);
                emit_line(&mut out, &iopen);
                let nf = d.graph.interfaces[i].funcs.len();
                let ghost funcs = gv.interfaces[i as int].funcs;
                proof {
                    assert(funcs.len() == d.graph.interfaces@[i as int].funcs@.len());
                    assert(funcs.subrange(0, 0).map_values(|x: Seq<u8>| func_line(x))
                        =~= Seq::<Seq<u8>>::empty());
                    assert(seq![itf_open_line(gv.interfaces[i as int].name)]
                        + Seq::<Seq<u8>>::empty() =~= seq![
                        itf_open_line(gv.interfaces[i as int].name),
                    ]);
                    lemma_join_single(itf_open_line(gv.interfaces[i as int].name));
                }
                let mut f: usize = 0;
                while f < nf
                    invariant
                        d.wf(),
                        gv == d.graph@,
                        i < gv.interfaces.len(),
                        funcs == gv.interfaces[i as int].funcs,
                        nf == funcs.len(),
                        d.graph.interfaces@[i as int].funcs@.len() == nf,
                        f <= nf,
                        before + join_lines(seq![itf_open_line(gv.interfaces[i as int].name)]
                            + funcs.subrange(0, f as int).map_values(|x: Seq<u8>| func_line(x)))
                            == out@,
                    decreases nf - f,
                {
                    proof {
                        assert(gv.interfaces[i as int] == d.graph.interfaces@[i as int]@);
                        assert(funcs[f as int] == d.graph.interfaces@[i as int].funcs@[f as int]@);
                    }
                    let fl = build_func_line(&d.graph.interfaces[i].funcs[f]);
                    emit_line(&mut out, &fl);
                    proof {
                        let prefix = seq![itf_open_line(gv.interfaces[i as int].name)]
                            + funcs.subrange(0, f as int).map_values(|x: Seq<u8>| func_line(x));
                        let nxt = seq![itf_open_line(gv.interfaces[i as int].name)]
                            + funcs.subrange(0, f + 1 as int).map_values(
                            |x: Seq<u8>| func_line(x),
                        );
                        assert(funcs.subrange(0, f + 1 as int).map_values(|x: Seq<u8>| func_line(x))
                            =~= funcs.subrange(0, f as int).map_values(
                            |x: Seq<u8>| func_line(x),
                        ).push(func_line(funcs[f as int]))) by {
                            assert(funcs.subrange(0, f + 1 as int).drop_last() =~= funcs.subrange(
                                0,
                                f as int,
                            ));
                        }
                        assert(nxt =~= prefix.push(func_line(funcs[f as int])));
                        lemma_join_concat(prefix, seq![func_line(funcs[f as int])]);
                        assert(prefix + seq![func_line(funcs[f as int])] =~= nxt);
                        lemma_join_single(func_line(funcs[f as int]));
                    }
                    f += 1;
                }
                let ic = build_close2();
                emit_line(&mut out, &ic);
                proof {
                    assert(funcs.subrange(0, nf as int) =~= funcs);
                    let blk = itf_block(gv, i as int);
                    assert(blk =~= (seq![itf_open_line(gv.interfaces[i as int].name)]
                        + funcs.map_values(|x: Seq<u8>| func_line(x))).push(line_close2()));
                    lemma_join_concat(
                        seq![itf_open_line(gv.interfaces[i as int].name)] + funcs.map_values(
                            |x: Seq<u8>| func_line(x),
                        ),
                        seq![line_close2()],
                    );
                    assert((seq![itf_open_line(gv.interfaces[i as int].name)] + funcs.map_values(
                        |x: Seq<u8>| func_line(x),
                    )) + seq![line_close2()] =~= blk);
                    lemma_join_single(line_close2());
                    assert(out@ =~= before + join_lines(blk));
                    // Advance the block equation by one interface.
                    assert(itf_blocks(gv, p as int, i as int) == blk + itf_blocks(
                        gv,
                        p as int,
                        i + 1,
                    ));
                    lemma_join_concat(blk, itf_blocks(gv, p as int, i + 1));
                }
            } else {
                proof {
                    assert(itf_blocks(gv, p as int, i as int) =~= Seq::<Seq<u8>>::empty()
                        + itf_blocks(gv, p as int, i + 1));
                    assert(itf_blocks(gv, p as int, i as int) == itf_blocks(gv, p as int, i + 1));
                }
            }
            i += 1;
        }
        let pc = build_close();
        emit_line(&mut out, &pc);
        proof {
            assert(itf_blocks(gv, p as int, ni as int) =~= Seq::<Seq<u8>>::empty());
            assert(join_lines(itf_blocks(gv, p as int, ni as int)) =~= Seq::<u8>::empty());
            // out (before close) == out_after_open + join(itf_blocks(gv,p,0))
            let blk = pkg_block(gv, p as int);
            assert(blk =~= (seq![pkg_open_line(gv.packages[p as int])] + itf_blocks(
                gv,
                p as int,
                0,
            )).push(line_close()));
            lemma_join_concat(
                seq![pkg_open_line(gv.packages[p as int])],
                itf_blocks(gv, p as int, 0),
            );
            lemma_join_concat(
                seq![pkg_open_line(gv.packages[p as int])] + itf_blocks(gv, p as int, 0),
                seq![line_close()],
            );
            assert((seq![pkg_open_line(gv.packages[p as int])] + itf_blocks(gv, p as int, 0))
                + seq![line_close()] =~= blk);
            lemma_join_single(pkg_open_line(gv.packages[p as int]));
            lemma_join_single(line_close());
            assert(pkg_blocks(gv, p as int) == blk + pkg_blocks(gv, p + 1));
            lemma_join_concat(blk, pkg_blocks(gv, p + 1));
        }
        p += 1;
    }
    proof {
        assert(pkg_blocks(gv, np as int) =~= Seq::<Seq<u8>>::empty());
        assert(join_lines(pkg_blocks(gv, np as int)) =~= Seq::<u8>::empty());
        assert(out@ + Seq::<u8>::empty() =~= out@);
        assert(render_lines(gv, dw) =~= mid + pkg_blocks(gv, 1));
        assert(out@ == spec_render(gv, dw));
    }
    out
}

/// A line holds no newline byte.
pub open spec fn line_clean(l: Seq<u8>) -> bool {
    forall|j: int| 0 <= j < l.len() ==> #[trigger] l[j] != nl()
}

/// Every byte of a rendered package qualified name is a version byte or a
/// separator.
proof fn lemma_pkg_qname_bytes(p: PkgName)
    requires
        valid_pkg_name(p),
    ensures
        forall|j: int|
            0 <= j < pkg_qname(p).len() ==> (version_byte(#[trigger] pkg_qname(p)[j]) || pkg_qname(
                p,
            )[j] == (':' as u8) || pkg_qname(p)[j] == ('@' as u8)),
{
    let q = pkg_qname(p);
    assert forall|j: int|
        0 <= j < q.len() implies (version_byte(#[trigger] q[j]) || q[j] == (':' as u8) || q[j] == (
        '@' as u8)) by {
        let ns = p.ns;
        if j < ns.len() {
            assert(q[j] == ns[j]);
        } else if j == ns.len() {
        } else {
            let k = j - ns.len() - 1;
            match p.version {
                None => {
                    assert(q[j] == p.name[k]);
                },
                Some(v) => {
                    if k < p.name.len() {
                        assert(q[j] == p.name[k]);
                    } else if k == p.name.len() {
                    } else {
                        assert(q[j] == v[k - p.name.len() - 1]);
                    }
                },
            }
        }
    }
}

/// Every byte of a rendered interface qualified name is a version byte or a
/// separator.
proof fn lemma_itf_qname_bytes(p: PkgName, n: Seq<u8>)
    requires
        valid_pkg_name(p),
        valid_ident(n),
    ensures
        forall|j: int|
            0 <= j < itf_qname(p, n).len() ==> (version_byte(#[trigger] itf_qname(p, n)[j])
                || itf_qname(p, n)[j] == (':' as u8) || itf_qname(p, n)[j] == ('/' as u8)
                || itf_qname(p, n)[j] == ('@' as u8)),
{
    let q = itf_qname(p, n);
    let ns = p.ns;
    let nm = p.name;
    assert forall|j: int|
        0 <= j < q.len() implies (version_byte(#[trigger] q[j]) || q[j] == (':' as u8) || q[j] == (
        '/' as u8) || q[j] == ('@' as u8)) by {
        if j < ns.len() {
            assert(q[j] == ns[j]);
        } else if j == ns.len() {
        } else if j < ns.len() + 1 + nm.len() {
            assert(q[j] == nm[j - ns.len() - 1]);
        } else if j == ns.len() + 1 + nm.len() {
        } else if j < ns.len() + 1 + nm.len() + 1 + n.len() {
            assert(q[j] == n[j - ns.len() - nm.len() - 2]);
        } else {
            let k = j - (ns.len() + nm.len() + n.len() + 2);
            match p.version {
                None => {
                    assert(false);
                },
                Some(v) => {
                    if k == 0 {
                    } else {
                        assert(q[j] == v[k - 1]);
                    }
                },
            }
        }
    }
}

/// A well-formed item's key is non-empty, holds no newline, and reads back
/// as an interface qualified name or a plain identifier.
proof fn lemma_key_ok(g: GraphV, it: ItemV)
    requires
        graph_wf(g),
        item_wf(g, it),
    ensures
        item_key(g, it).len() > 0,
        line_clean(item_key(g, it)),
        crate::name::parse_itf_qname_spec(item_key(g, it)) is Some || valid_ident(item_key(g, it)),
{
    match it {
        ItemV::Itf { id } => {
            assert(itf_wf(g, id));
            let p = g.packages[g.interfaces[id].package];
            let n = g.interfaces[id].name;
            assert(valid_pkg_name(p));
            crate::name::lemma_itf_qname_round_trip(p, n);
            lemma_itf_qname_bytes(p, n);
            assert forall|j: int| 0 <= j < item_key(g, it).len() implies #[trigger] item_key(
                g,
                it,
            )[j] != nl() by {
                assert(version_byte(item_key(g, it)[j]) || item_key(g, it)[j] == (':' as u8)
                    || item_key(g, it)[j] == ('/' as u8) || item_key(g, it)[j] == ('@' as u8));
            }
        },
        ItemV::Func { name } => {},
        ItemV::Ty { name } => {},
    }
}

/// An import line carries its key, and nothing else does. The helper facts
/// below classify every rendered line shape.
proof fn lemma_import_line_key(key: Seq<u8>)
    requires
        key.len() > 0,
        crate::name::parse_itf_qname_spec(key) is Some || valid_ident(key),
    ensures
        line_import_key(import_line(key)) == Some(key),
{
    let l = import_line(key);
    assert(l.len() == txt_import().len() + key.len() + 1);
    assert(l.subrange(0, txt_import().len() as int) =~= txt_import());
    assert(l[l.len() - 1] == (';' as u8));
    assert(l.subrange(txt_import().len() as int, l.len() - 1) =~= key);
}

/// A line whose first byte is not a blank cannot be an import line.
proof fn lemma_not_import_head(l: Seq<u8>)
    requires
        l.len() > 0,
        l[0] != (' ' as u8) || (l.len() > 3 && (l[2] != ('i' as u8) || l[3] != ('m' as u8))),
    ensures
        line_import_key(l) is None,
{
    if l.len() >= txt_import().len() + 1 && l.subrange(0, txt_import().len() as int)
        == txt_import() && l[l.len() - 1] == (';' as u8) {
        assert(l[0] == txt_import()[0]);
        assert(l[2] == txt_import()[2]);
        assert(l[3] == txt_import()[3]);
        assert(false);
    }
}

/// Short lines cannot be import lines.
proof fn lemma_not_import_short(l: Seq<u8>)
    requires
        l.len() < txt_import().len() + 1,
    ensures
        line_import_key(l) is None,
{
}

/// Lines that never carry an import key contribute nothing to extraction.
proof fn lemma_extract_none(lines: Seq<Seq<u8>>)
    requires
        forall|i: int| 0 <= i < lines.len() ==> line_import_key(#[trigger] lines[i]) is None,
    ensures
        extract_import_keys(lines) == Seq::<Seq<u8>>::empty(),
    decreases lines.len(),
{
    if lines.len() > 0 {
        assert forall|i: int|
            0 <= i < lines.drop_first().len() implies line_import_key(
            #[trigger] lines.drop_first()[i],
        ) is None by {
            assert(lines.drop_first()[i] == lines[i + 1]);
        }
        lemma_extract_none(lines.drop_first());
        assert(extract_import_keys(lines) =~= Seq::<Seq<u8>>::empty());
    }
}

/// Facts about the interface blocks of one package: every line is clean and
/// none is an import line.
proof fn lemma_itf_blocks_props(g: GraphV, p: int, i: int)
    requires
        graph_wf(g),
        0 <= i,
    ensures
        forall|a: int|
            0 <= a < itf_blocks(g, p, i).len() ==> line_clean(#[trigger] itf_blocks(g, p, i)[a])
                && line_import_key(itf_blocks(g, p, i)[a]) is None,
    decreases g.interfaces.len() - i,
{
    if i < g.interfaces.len() {
        lemma_itf_blocks_props(g, p, i + 1);
        if g.interfaces[i].package == p {
            assert(itf_wf(g, i));
            let nm = g.interfaces[i].name;
            let funcs = g.interfaces[i].funcs;
            let blk = itf_block(g, i);
            assert forall|a: int|
                0 <= a < blk.len() implies line_clean(#[trigger] blk[a]) && line_import_key(
                blk[a],
            ) is None by {
                if a == 0 {
                    assert(blk[0] == itf_open_line(nm));
                    assert forall|j: int|
                        0 <= j < itf_open_line(nm).len() implies #[trigger] itf_open_line(nm)[j]
                        != nl() by {
                        if 12 <= j < 12 + nm.len() {
                            assert(itf_open_line(nm)[j] == nm[j - 12]);
                            assert(crate::name::ident_byte(nm[j - 12]));
                        }
                    }
                    assert(itf_open_line(nm)[3] == ('n' as u8));
                    lemma_not_import_head(itf_open_line(nm));
                } else if a <= funcs.len() {
                    assert(blk[a] == funcs.map_values(|f: Seq<u8>| func_line(f))[a - 1]);
                    let fl = func_line(funcs[a - 1]);
                    assert(blk[a] == fl);
                    assert(crate::graph::func_line_ok(funcs[a - 1]));
                    assert forall|j: int| 0 <= j < fl.len() implies #[trigger] fl[j] != nl() by {
                        if j >= 4 {
                            assert(fl[j] == funcs[a - 1][j - 4]);
                            assert(32 <= funcs[a - 1][j - 4] <= 126);
                        }
                    }
                    assert(fl[2] == (' ' as u8));
                    lemma_not_import_head(fl);
                } else {
                    assert(blk[a] == line_close2());
                    lemma_not_import_short(line_close2());
                }
            }
            assert forall|a: int|
                0 <= a < itf_blocks(g, p, i).len() implies line_clean(
                #[trigger] itf_blocks(g, p, i)[a],
            ) && line_import_key(itf_blocks(g, p, i)[a]) is None by {
                if a < blk.len() {
                    assert(itf_blocks(g, p, i)[a] == blk[a]);
                } else {
                    assert(itf_blocks(g, p, i)[a] == itf_blocks(g, p, i + 1)[a - blk.len()]);
                }
            }
        } else {
            assert(itf_blocks(g, p, i) =~= itf_blocks(g, p, i + 1));
        }
    }
}

/// Facts about the package blocks from index `p` on: every line is clean
/// and none is an import line.
proof fn lemma_pkg_blocks_props(g: GraphV, p: int)
    requires
        graph_wf(g),
        0 <= p,
    ensures
        forall|a: int|
            0 <= a < pkg_blocks(g, p).len() ==> line_clean(#[trigger] pkg_blocks(g, p)[a])
                && line_import_key(pkg_blocks(g, p)[a]) is None,
    decreases g.packages.len() - p,
{
    if p < g.packages.len() {
        lemma_pkg_blocks_props(g, p + 1);
        lemma_itf_blocks_props(g, p, 0);
        let blk = pkg_block(g, p);
        let open = pkg_open_line(g.packages[p]);
        assert(valid_pkg_name(g.packages[p]));
        lemma_pkg_qname_bytes(g.packages[p]);
        assert forall|a: int|
            0 <= a < blk.len() implies line_clean(#[trigger] blk[a]) && line_import_key(
            blk[a],
        ) is None by {
            if a == 0 {
                assert(blk[0] == open);
                assert forall|j: int| 0 <= j < open.len() implies #[trigger] open[j] != nl() by {
                    if 8 <= j < 8 + pkg_qname(g.packages[p]).len() {
                        assert(open[j] == pkg_qname(g.packages[p])[j - 8]);
                    }
                }
                assert(open[0] == ('p' as u8));
                lemma_not_import_head(open);
            } else if a <= itf_blocks(g, p, 0).len() {
                assert(blk[a] == itf_blocks(g, p, 0)[a - 1]);
            } else {
                assert(blk[a] == line_close());
                lemma_not_import_short(line_close());
            }
        }
        assert forall|a: int|
            0 <= a < pkg_blocks(g, p).len() implies line_clean(#[trigger] pkg_blocks(g, p)[a])
            && line_import_key(pkg_blocks(g, p)[a]) is None by {
            if a < blk.len() {
                assert(pkg_blocks(g, p)[a] == blk[a]);
            } else {
                assert(pkg_blocks(g, p)[a] == pkg_blocks(g, p + 1)[a - blk.len()]);
            }
        }
    }
}

/// Extraction over the import lines of a world returns exactly the item
/// keys, in order.
proof fn lemma_extract_import_lines(g: GraphV, items: Seq<ItemV>)
    requires
        graph_wf(g),
        forall|k: int| 0 <= k < items.len() ==> item_wf(g, #[trigger] items[k]),
    ensures
        extract_import_keys(import_lines(g, items)) == crate::merge::items_keys(g, items),
    decreases items.len(),
{
    if items.len() == 0 {
        assert(import_lines(g, items) =~= Seq::<Seq<u8>>::empty());
        assert(crate::merge::items_keys(g, items) =~= Seq::<Seq<u8>>::empty());
    } else {
        assert forall|k: int|
            0 <= k < items.drop_first().len() implies item_wf(
            g,
            #[trigger] items.drop_first()[k],
        ) by {
            assert(items.drop_first()[k] == items[k + 1]);
        }
        lemma_extract_import_lines(g, items.drop_first());
        lemma_key_ok(g, items[0]);
        lemma_import_line_key(item_key(g, items[0]));
        assert(import_lines(g, items)[0] == import_line(item_key(g, items[0])));
        assert(import_lines(g, items).drop_first() =~= import_lines(g, items.drop_first()));
        assert(extract_import_keys(import_lines(g, items)) =~= seq![item_key(g, items[0])]
            + extract_import_keys(import_lines(g, items.drop_first())));
        assert(crate::merge::items_keys(g, items) =~= seq![item_key(g, items[0])]
            + crate::merge::items_keys(g, items.drop_first())) by {
            assert(crate::merge::items_keys(g, items).drop_first() =~= crate::merge::items_keys(
                g,
                items.drop_first(),
            ));
        }
    }
}

/// Round trip of the canonical rendering: splitting the rendered text back
/// into lines and extracting its import keys reproduces exactly the keys of
/// the `deps` world, in order. Together with the parser's contract, parsing
/// a rendered descriptor reproduces an equivalent world: the same import
/// set by qualified name.
pub proof fn lemma_descriptor_round_trip(g: GraphV, dw: int)
    requires
        graph_wf(g),
        is_descriptor(g, dw),
    ensures
        extract_import_keys(split_lines(spec_render(g, dw))) == crate::merge::items_keys(
            g,
            g.worlds[dw].imports,
        ),
{
    let lines = render_lines(g, dw);
    let imps = g.worlds[dw].imports;
    let head2: Seq<Seq<u8>> = seq![root_line(g.packages[0])] + seq![
        world_open_line(g.worlds[dw].name),
    ];
    let il = import_lines(g, imps);
    assert(world_wf(g, dw));
    assert forall|k: int| 0 <= k < imps.len() implies item_wf(g, #[trigger] imps[k]) by {}

    // Every rendered line is clean and classified.
    assert(valid_pkg_name(g.packages[0]));
    lemma_pkg_qname_bytes(g.packages[0]);
    let rl = root_line(g.packages[0]);
    assert forall|j: int| 0 <= j < rl.len() implies #[trigger] rl[j] != nl() by {
        if 8 <= j < 8 + pkg_qname(g.packages[0]).len() {
            assert(rl[j] == pkg_qname(g.packages[0])[j - 8]);
        }
    }
    assert(rl[0] == ('p' as u8));
    lemma_not_import_head(rl);
    let wl = world_open_line(g.worlds[dw].name);
    assert(crate::graph::valid_world_name(g.worlds[dw].name));
    assert forall|j: int| 0 <= j < wl.len() implies #[trigger] wl[j] != nl() by {
        if 6 <= j < 6 + g.worlds[dw].name.len() {
            assert(wl[j] == g.worlds[dw].name[j - 6]);
            assert(version_byte(g.worlds[dw].name[j - 6]));
        }
    }
    assert(wl[0] == ('w' as u8));
    lemma_not_import_head(wl);
    assert forall|a: int| 0 <= a < il.len() implies line_clean(#[trigger] il[a]) by {
        assert(il[a] == import_line(item_key(g, imps[a])));
        lemma_key_ok(g, imps[a]);
        let l = import_line(item_key(g, imps[a]));
        assert forall|j: int| 0 <= j < l.len() implies #[trigger] l[j] != nl() by {
            if 9 <= j < 9 + item_key(g, imps[a]).len() {
                assert(l[j] == item_key(g, imps[a])[j - 9]);
            }
        }
    }
    lemma_not_import_short(line_close());
    lemma_pkg_blocks_props(g, 1);

    // All lines are clean, so splitting the join recovers them.
    assert forall|i: int, j: int|
        0 <= i < lines.len() && 0 <= j < lines[i].len() implies #[trigger] lines[i][j] != nl() by {
        if i == 0 {
            assert(lines[i] == rl);
        } else if i == 1 {
            assert(lines[i] == wl);
        } else if i < 2 + il.len() {
            assert(lines[i] == il[i - 2]);
            assert(line_clean(il[i - 2]));
        } else if i == 2 + il.len() {
            assert(lines[i] == line_close());
        } else {
            assert(lines[i] == pkg_blocks(g, 1)[i - 3 - il.len()]);
            assert(line_clean(pkg_blocks(g, 1)[i - 3 - il.len()]));
        }
    }
    lemma_split_join(lines);

    // Extraction sees only the import lines.
    lemma_extract_concat(seq![rl], seq![wl]);
    lemma_extract_concat(head2, il);
    lemma_extract_concat(head2 + il, seq![line_close()]);
    lemma_extract_concat(head2 + il + seq![line_close()], pkg_blocks(g, 1));
    lemma_extract_single(rl);
    lemma_extract_single(wl);
    lemma_extract_single(line_close());
    lemma_extract_import_lines(g, imps);
    assert forall|a: int|
        0 <= a < pkg_blocks(g, 1).len() implies line_import_key(
        #[trigger] pkg_blocks(g, 1)[a],
    ) is None by {}
    lemma_extract_none(pkg_blocks(g, 1));
    assert(lines =~= head2 + il + seq![line_close()] + pkg_blocks(g, 1));
    assert(extract_import_keys(lines) =~= crate::merge::items_keys(g, imps));
}

/// Adding the same capability set twice yields an aggregate identical to
/// adding it once: when a descriptor's imports already union the prior
/// imports with the added keys, rendering it, re-parsing, and folding the
/// same keys in again reproduces exactly the import list it already holds.
pub proof fn lemma_refold_is_noop(prior: Seq<Seq<u8>>, add: Seq<Seq<u8>>, g: GraphV, dw: int)
    requires
        graph_wf(g),
        is_descriptor(g, dw),
        crate::merge::items_keys(g, g.worlds[dw].imports) == crate::merge::union_keys(prior, add),
    ensures
        crate::merge::union_keys(extract_import_keys(split_lines(spec_render(g, dw))), add)
            == crate::merge::items_keys(g, g.worlds[dw].imports),
{
    lemma_descriptor_round_trip(g, dw);
    crate::merge::lemma_union_keys_idempotent(prior, add);
}

/// Keys do not depend on worlds: equal package and interface arenas give
/// equal keys.
pub proof fn lemma_keys_same_arenas(g1: GraphV, g2: GraphV, items: Seq<ItemV>)
    requires
        g1.packages == g2.packages,
        g1.interfaces == g2.interfaces,
    ensures
        crate::merge::items_keys(g2, items) == crate::merge::items_keys(g1, items),
{
    assert forall|k: int|
        0 <= k < items.len() implies crate::merge::items_keys(g2, items)[k]
        == crate::merge::items_keys(g1, items)[k] by {
        match items[k] {
            ItemV::Itf { id } => {},
            ItemV::Func { name } => {},
            ItemV::Ty { name } => {},
        }
    }
    assert(crate::merge::items_keys(g2, items) =~= crate::merge::items_keys(g1, items));
}

/// Loads the persisted descriptor, or synthesizes the empty skeleton when
/// none exists yet.
pub fn load_descriptor(existing: Option<&Vec<u8>>) -> (r: Descriptor)
    ensures
        r.wf(),
        r.imported() == match existing {
            Some(t) => extract_import_keys(split_lines(t@)),
            None => Seq::<Seq<u8>>::empty(),
        },
{
    match existing {
        Some(t) => parse_descriptor(t),
        None => empty_descriptor(),
    }
}

/// Folds one candidate import-only world into the aggregate: the candidate
/// graph is merged with full identifier translation, then the world's
/// imports are union-merged into `deps`, deduplicating by qualified name.
/// A shape conflict aborts with the descriptor untouched.
pub fn add_candidate_world(d: &mut Descriptor, cand: &CapabilityGraph, cand_world: usize) -> (r:
    Result<(), DepsError>)
    requires
        old(d).wf(),
        cand.wf(),
        cand_world < cand@.worlds.len(),
    ensures
        match r {
            Ok(_) => final(d).wf() && final(d).deps_world == old(d).deps_world
                && final(d).imported() == crate::merge::union_keys(
                old(d).imported(),
                crate::merge::items_keys(cand@, cand@.worlds[cand_world as int].imports),
            ) && !crate::merge::graphs_conflict(old(d).graph@, cand@) && ((
            crate::merge::all_entities_matched(old(d).graph@, cand@)
                && crate::merge::keys_all_present(
                old(d).imported(),
                crate::merge::items_keys(cand@, cand@.worlds[cand_world as int].imports),
            )) ==> final(d).graph@ == old(d).graph@),
            Err(e) => final(d).graph@ == old(d).graph@ && final(d).deps_world == old(d).deps_world
                && crate::merge::graphs_conflict(old(d).graph@, cand@) && match e {
                DepsError::CompositionConflict { qname } => crate::merge::conflict_qname_ok(
                    old(d).graph@,
                    cand@,
                    qname@,
                ),
                _ => false,
            },
        },
{
    let ghost g0 = d.graph@;
    let ghost dw = d.deps_world as int;
    let ghost cand_keys = crate::merge::items_keys(cand@, cand@.worlds[cand_world as int].imports);
    let tr = match crate::merge::merge_graphs(&mut d.graph, cand) {
        Ok(tr) => tr,
        Err(e) => {
            return Err(e);
        },
    };
    let ghost g1 = d.graph@;
    let src = tr.world_map[cand_world];
    let dst = d.deps_world;
    proof {
        assert(g1.worlds[src as int].name == cand@.worlds[cand_world as int].name);
        assert(crate::merge::items_keys(g1, g1.worlds[src as int].imports) == cand_keys);
        // The deps world survived the merge untouched, and its keys are
        // unchanged because the arenas only grew.
        assert(g0.worlds[dw] == g1.worlds[dw]) by {
            assert(g0.worlds[dw] == g0.worlds.subrange(0, g0.worlds.len() as int)[dw]);
        }
        assert(world_wf(g0, dw));
        assert forall|k: int|
            0 <= k < g0.worlds[dw].imports.len() implies item_wf(
            g0,
            #[trigger] g0.worlds[dw].imports[k],
        ) by {}
        crate::merge::lemma_items_keys_stable(g0, g1, g0.worlds[dw].imports);
    }
    if src == dst {
        proof {
            let base = g1.worlds[dw].imports;
            assert forall|j: int|
                0 <= j < base.len() implies crate::merge::items_keys(g1, base).contains(
                item_key(g1, #[trigger] base[j]),
            ) by {
                assert(crate::merge::items_keys(g1, base)[j] == item_key(g1, base[j]));
            }
            crate::merge::lemma_union_items_absorbed(g1, base, base);
            crate::merge::lemma_union_items_keys(g1, base, base);
            crate::merge::lemma_union_keys_complete(
                crate::merge::items_keys(g1, base),
                crate::merge::items_keys(g1, base),
            );
            assert(d.imported() == crate::merge::union_keys(old(d).imported(), cand_keys));
            if crate::merge::all_entities_matched(g0, cand@) {
                assert(d.graph@ == g0);
            }
        }
        return Ok(());
    }
    crate::merge::merge_world_imports(&mut d.graph, dst, src);
    proof {
        let g2 = d.graph@;
        assert(g2.worlds[dw].imports == crate::merge::union_items(
            g1,
            g1.worlds[dw].imports,
            g1.worlds[src as int].imports,
        ));
        crate::merge::lemma_union_items_keys(
            g1,
            g1.worlds[dw].imports,
            g1.worlds[src as int].imports,
        );
        lemma_keys_same_arenas(g1, g2, g2.worlds[dw].imports);
        assert(d.imported() == crate::merge::union_keys(old(d).imported(), cand_keys));
        // Re-adding a fully matched candidate is a no-op on the graph: the
        // merge appended nothing, and every key the union would add is
        // already present.
        if crate::merge::all_entities_matched(g0, cand@) && crate::merge::keys_all_present(
            crate::merge::items_keys(g0, g0.worlds[dw].imports),
            cand_keys,
        ) {
            assert(g1 == g0);
            let base = g1.worlds[dw].imports;
            let add = g1.worlds[src as int].imports;
            assert forall|j: int|
                0 <= j < add.len() implies crate::merge::items_keys(g1, base).contains(
                item_key(g1, #[trigger] add[j]),
            ) by {
                assert(crate::merge::items_keys(g1, add)[j] == item_key(g1, add[j]));
                assert(cand_keys[j] == item_key(g1, add[j]));
            }
            crate::merge::lemma_union_items_absorbed(g1, base, add);
            assert(g2.worlds[dw].imports == base);
            assert(g2.worlds =~= g1.worlds) by {
                assert forall|w2: int| 0 <= w2 < g2.worlds.len() implies g2.worlds[w2]
                    == g1.worlds[w2] by {}
            }
            assert(g2 =~= g1);
            assert(d.graph@ == g0);
        }
    }
    Ok(())
}

/// The complete merge step of one invocation: fold the candidate's
/// import-only world into the loaded aggregate and render the canonical
/// text. The merge succeeds exactly when no same-named entity clashes; on
/// conflict the aggregate is untouched, so no partial write can happen,
/// and the error carries an offending qualified name. Re-adding a fully
/// matched candidate whose keys are all present is a no-op on the bytes:
/// the aggregate is unchanged and the returned text is its canonical text.
pub fn merge_dependency(d: &mut Descriptor, cand: &CapabilityGraph, cand_world: usize) -> (r:
    Result<Vec<u8>, DepsError>)
    requires
        old(d).wf(),
        cand.wf(),
        cand_world < cand@.worlds.len(),
    ensures
        match r {
            Ok(text) => final(d).wf() && final(d).deps_world == old(d).deps_world && text@
                == spec_render(final(d).graph@, final(d).deps_world as int) && final(d).imported()
                == crate::merge::union_keys(
                old(d).imported(),
                crate::merge::items_keys(cand@, cand@.worlds[cand_world as int].imports),
            ) && !crate::merge::graphs_conflict(old(d).graph@, cand@) && ((
            crate::merge::all_entities_matched(old(d).graph@, cand@)
                && crate::merge::keys_all_present(
                old(d).imported(),
                crate::merge::items_keys(cand@, cand@.worlds[cand_world as int].imports),
            )) ==> (final(d).graph@ == old(d).graph@ && text@ == spec_render(
                old(d).graph@,
                old(d).deps_world as int,
            ))),
            Err(e) => final(d).graph@ == old(d).graph@ && final(d).deps_world == old(d).deps_world
                && crate::merge::graphs_conflict(old(d).graph@, cand@) && match e {
                DepsError::CompositionConflict { qname } => crate::merge::conflict_qname_ok(
                    old(d).graph@,
                    cand@,
                    qname@,
                ),
                _ => false,
            },
        },
{
    match add_candidate_world(d, cand, cand_world) {
        Ok(_) => {},
        Err(e) => {
            return Err(e);
        },
    }
    Ok(render_descriptor(d))
}

/// Builds `"    "`.
fn txt_indent_vec() -> (r: Vec<u8>)
    ensures
        r@ == txt_indent(),
{
    let a: [u8; 4] = [(' ' as u8), (' ' as u8), (' ' as u8), (' ' as u8)];
    let v = vstd::slice::slice_to_vec(a.as_slice());
    assert(v@ =~= txt_indent());
    v
}

/// Parses descriptor text, recovering every well-formed declaration and
/// skipping lines it cannot read: parsing never fails, and parsing the
/// canonical rendering reproduces the deps world's import set exactly.
#[verifier::rlimit(100)]
pub fn parse_descriptor(text: &Vec<u8>) -> (r: Descriptor)
    ensures
        r.wf(),
        r.deps_world == 0,
        r.graph@.worlds.len() == 1,
        r.graph@.worlds[0].exports.len() == 0,
        r.imported() == extract_import_keys(split_lines(text@)),
{
    let lines = split_lines_vec(text.as_slice());
    let ghost lls = lines.deep_view();
    let imp_prefix = txt_import_vec();
    let itf_prefix = txt_interface_vec();
    let pkg_prefix = txt_package_vec();
    let ind_prefix = txt_indent_vec();

    let mut packages: Vec<PackageName> = Vec::new();
    packages.push(default_root_pkg());
    let mut interfaces: Vec<InterfaceDef> = Vec::new();
    let mut imports: Vec<WorldItem> = Vec::new();
    let mut cur_pkg: Option<usize> = None;
    let mut cur_itf: Option<usize> = None;

    proof {
        assert(packages.deep_view() =~= seq![default_root_name()]);
        assert(interfaces.deep_view() =~= Seq::<ItfV>::empty());
        assert(imports.deep_view() =~= Seq::<ItemV>::empty());
        assert(valid_pkg_name(default_root_name()));
        assert(parse_state_wf(packages.deep_view(), interfaces.deep_view(), imports.deep_view()));
        assert(lls.subrange(0, 0) =~= Seq::<Seq<u8>>::empty());
        assert(extract_import_keys(lls.subrange(0, 0)) =~= Seq::<Seq<u8>>::empty());
        assert(crate::merge::items_keys(
            parse_graph(packages.deep_view(), interfaces.deep_view(), imports.deep_view()),
            imports.deep_view(),
        ) =~= Seq::<Seq<u8>>::empty());
    }

    let nlines = lines.len();
    let mut li: usize = 0;
    while li < nlines
        invariant
            lls == lines.deep_view(),
            nlines == lines@.len(),
            lls.len() == lines@.len(),
            li <= nlines,
            imp_prefix@ == txt_import(),
            itf_prefix@ == txt_interface(),
            pkg_prefix@ == txt_package(),
            ind_prefix@ == txt_indent(),
            parse_state_wf(packages.deep_view(), interfaces.deep_view(), imports.deep_view()),
            match cur_pkg {
                Some(cp) => cp < packages.deep_view().len(),
                None => true,
            },
            match cur_itf {
                Some(ci) => ci < interfaces.deep_view().len(),
                None => true,
            },
            crate::merge::items_keys(
                parse_graph(packages.deep_view(), interfaces.deep_view(), imports.deep_view()),
                imports.deep_view(),
            ) == extract_import_keys(lls.subrange(0, li as int)),
        decreases nlines - li,
    {
        let ghost pkgs0 = packages.deep_view();
        let ghost itfs0 = interfaces.deep_view();
        let ghost imps0 = imports.deep_view();
        let ghost g_before = parse_graph(pkgs0, itfs0, imps0);
        proof {
            assert(lls[li as int] == lines@[li as int]@);
        }
        let l = &lines[li];
        let ls = l.as_slice();
        let ghost lv = l@;

        if crate::bytes::starts_with(ls, imp_prefix.as_slice()) && l.len() > imp_prefix.len()
            && ls[l.len() - 1] == (';' as u8) {
            let mid = crate::name::sub_vec(ls, 9, l.len() - 1);
            proof {
                assert(txt_import().len() == 9);
                assert(mid@ == lv.subrange(txt_import().len() as int, lv.len() - 1));
            }
            match crate::name::parse_itf_qname(mid.as_slice()) {
                Some((pn, iname)) => {
                    proof {
                        crate::name::lemma_parse_itf_qname_renders(mid@);
                        assert(line_import_key(lv) == Some(mid@));
                        assert(itf_qname(pn@, iname@) == mid@);
                        assert(valid_pkg_name(pn@) && valid_ident(iname@)) by {
                            crate::name::lemma_find_byte_props(mid@, (':' as u8));
                        }
                    }
                    let pidx = match find_pkg_in(&packages, &pn) {
                        Some(q) => q,
                        None => {
                            let idx = packages.len();
                            packages.push(pn);
                            proof {
                                assert(packages.deep_view() =~= pkgs0.push(pn@));
                            }
                            idx
                        },
                    };
                    proof {
                        assert(pkgs0.is_prefix_of(packages.deep_view()));
                        assert(packages.deep_view()[pidx as int] == pn@);
                        assert(parse_state_wf(
                            packages.deep_view(),
                            interfaces.deep_view(),
                            imports.deep_view(),
                        ));
                    }
                    let ghost pkgs1 = packages.deep_view();
                    let iid = match find_itf_in(&interfaces, pidx, iname.as_slice()) {
                        Some(i) => i,
                        None => {
                            let idx = interfaces.len();
                            interfaces.push(
                                InterfaceDef { name: iname, package: pidx, funcs: Vec::new() },
                            );
                            proof {
                                assert(interfaces.deep_view() =~~= itfs0.push(
                                    ItfV {
                                        name: iname@,
                                        package: pidx as int,
                                        funcs: Seq::<Seq<u8>>::empty(),
                                    },
                                ));
                            }
                            idx
                        },
                    };
                    proof {
                        assert(interfaces.deep_view()[iid as int].name == iname@);
                        assert(interfaces.deep_view()[iid as int].package == pidx as int);
                        assert(parse_state_wf(pkgs1, interfaces.deep_view(), imports.deep_view()));
                    }
                    imports.push(WorldItem::Interface { id: iid });
                    proof {
                        let pkgs2 = packages.deep_view();
                        let itfs2 = interfaces.deep_view();
                        let imps2 = imports.deep_view();
                        assert(imps2 =~= imps0.push(ItemV::Itf { id: iid as int }));
                        let g_now = parse_graph(pkgs2, itfs2, imps2);
                        let g_mid = parse_graph(pkgs2, itfs2, imps0);
                        lemma_keys_stable_grow(g_before, g_mid, imps0);
                        assert(crate::merge::items_keys(g_mid, imps0) == crate::merge::items_keys(
                            g_before,
                            imps0,
                        ));
                        assert(crate::merge::items_keys(g_now, imps0) =~= crate::merge::items_keys(
                            g_mid,
                            imps0,
                        ));
                        assert(item_key(g_now, ItemV::Itf { id: iid as int }) == itf_qname(
                            pn@,
                            iname@,
                        ));
                        assert(crate::merge::items_keys(g_now, imps2) =~= crate::merge::items_keys(
                            g_now,
                            imps0,
                        ).push(mid@));
                        assert(parse_state_wf(pkgs2, itfs2, imps2));
                    }
                },
                None => {
                    if crate::name::is_valid_ident(mid.as_slice()) {
                        proof {
                            assert(line_import_key(lv) == Some(mid@));
                        }
                        imports.push(WorldItem::Function { name: mid });
                        proof {
                            let imps2 = imports.deep_view();
                            assert(imps2 =~= imps0.push(ItemV::Func { name: mid@ }));
                            let g_now = parse_graph(pkgs0, itfs0, imps2);
                            assert(crate::merge::items_keys(g_now, imps0)
                                =~= crate::merge::items_keys(g_before, imps0));
                            assert(crate::merge::items_keys(g_now, imps2)
                                =~= crate::merge::items_keys(g_now, imps0).push(mid@));
                            assert(parse_state_wf(pkgs0, itfs0, imps2));
                        }
                    } else {
                        proof {
                            assert(line_import_key(lv) is None);
                        }
                    }
                },
            }
        } else {
            proof {
                assert(line_import_key(lv) is None) by {
                    if lv.len() >= txt_import().len() + 1 && lv.subrange(
                        0,
                        txt_import().len() as int,
                    ) == txt_import() && lv[lv.len() - 1] == (';' as u8) {
                        assert(false);
                    }
                }
            }
            if crate::bytes::starts_with(ls, itf_prefix.as_slice()) && l.len() >= itf_prefix.len()
                + 3 && ls[l.len() - 2] == (' ' as u8) && ls[l.len() - 1] == ('{' as u8) {
                let name = crate::name::sub_vec(ls, 12, l.len() - 2);
                match cur_pkg {
                    Some(cp) => {
                        if crate::name::is_valid_ident(name.as_slice()) {
                            match find_itf_in(&interfaces, cp, name.as_slice()) {
                                Some(i) => {
                                    cur_itf = Some(i);
                                },
                                None => {
                                    let idx = interfaces.len();
                                    interfaces.push(
                                        InterfaceDef { name, package: cp, funcs: Vec::new() },
                                    );
                                    proof {
                                        assert(interfaces.deep_view() =~~= itfs0.push(
                                            ItfV {
                                                name: lv.subrange(12, lv.len() - 2),
                                                package: cp as int,
                                                funcs: Seq::<Seq<u8>>::empty(),
                                            },
                                        ));
                                    }
                                    cur_itf = Some(idx);
                                },
                            }
                            proof {
                                let g_now = parse_graph(
                                    packages.deep_view(),
                                    interfaces.deep_view(),
                                    imps0,
                                );
                                lemma_keys_stable_grow(g_before, g_now, imps0);
                                assert(parse_state_wf(
                                    packages.deep_view(),
                                    interfaces.deep_view(),
                                    imps0,
                                ));
                            }
                        } else {
                            cur_itf = None;
                        }
                    },
                    None => {
                        cur_itf = None;
                    },
                }
            } else if crate::bytes::starts_with(ls, pkg_prefix.as_slice()) && l.len()
                >= pkg_prefix.len() + 3 && ls[l.len() - 2] == (' ' as u8) && ls[l.len() - 1] == (
            '{' as u8) {
                let mid = crate::name::sub_vec(ls, 8, l.len() - 2);
                match crate::name::parse_pkg_qname(mid.as_slice()) {
                    Some(pn) => {
                        proof {
                            crate::name::lemma_find_byte_props(mid@, (':' as u8));
                        }
                        let pidx = match find_pkg_in(&packages, &pn) {
                            Some(q) => q,
                            None => {
                                let idx = packages.len();
                                packages.push(pn);
                                proof {
                                    assert(packages.deep_view() =~= pkgs0.push(
                                        crate::name::parse_pkg_qname_spec(mid@).unwrap(),
                                    ));
                                }
                                idx
                            },
                        };
                        proof {
                            let g_now = parse_graph(packages.deep_view(), itfs0, imps0);
                            lemma_keys_stable_grow(g_before, g_now, imps0);
                            assert(parse_state_wf(packages.deep_view(), itfs0, imps0));
                        }
                        cur_pkg = Some(pidx);
                        cur_itf = None;
                    },
                    None => {
                        cur_pkg = None;
                        cur_itf = None;
                    },
                }
            } else if crate::bytes::starts_with(ls, pkg_prefix.as_slice()) && l.len()
                > pkg_prefix.len() && ls[l.len() - 1] == (';' as u8) {
                // Root package declaration: adopt the name while the state
                // is still pristine, so no existing key can be disturbed.
                if packages.len() == 1 && interfaces.len() == 0 && imports.len() == 0 {
                    let mid = crate::name::sub_vec(ls, 8, l.len() - 1);
                    match crate::name::parse_pkg_qname(mid.as_slice()) {
                        Some(pn) => {
                            proof {
                                crate::name::lemma_find_byte_props(mid@, (':' as u8));
                            }
                            vstd::pervasive::VecAdditionalExecFns::set(&mut packages, 0, pn);
                            proof {
                                assert(packages.deep_view() =~= seq![
                                    crate::name::parse_pkg_qname_spec(mid@).unwrap(),
                                ]);
                                assert(imports.deep_view() =~= Seq::<ItemV>::empty());
                                assert(crate::merge::items_keys(
                                    parse_graph(
                                        packages.deep_view(),
                                        interfaces.deep_view(),
                                        imports.deep_view(),
                                    ),
                                    imports.deep_view(),
                                ) =~= Seq::<Seq<u8>>::empty());
                            }
                            cur_pkg = None;
                            cur_itf = None;
                        },
                        None => {},
                    }
                }
            } else if crate::bytes::starts_with(ls, ind_prefix.as_slice()) {
                match cur_itf {
                    Some(ci) => {
                        let f = crate::name::sub_vec(ls, 4, l.len());
                        if is_func_ok(f.as_slice()) {
                            push_func_line(&mut interfaces, ci, f);
                            proof {
                                let itfs2 = interfaces.deep_view();
                                let g_now = parse_graph(pkgs0, itfs2, imps0);
                                lemma_keys_stable_grow(g_before, g_now, imps0);
                                assert forall|i: int|
                                    0 <= i < itfs2.len() implies 0 <= (
                                #[trigger] itfs2[i]).package < pkgs0.len() && valid_ident(
                                    itfs2[i].name,
                                ) && (forall|k: int|
                                    0 <= k < itfs2[i].funcs.len()
                                        ==> crate::graph::func_line_ok(
                                        #[trigger] itfs2[i].funcs[k],
                                    )) by {
                                    if i == ci as int {
                                        assert(itfs2[i].funcs =~= itfs0[i].funcs.push(
                                            lv.subrange(4, lv.len() as int),
                                        ));
                                        assert forall|k: int|
                                            0 <= k < itfs2[i].funcs.len()
                                                implies crate::graph::func_line_ok(
                                            #[trigger] itfs2[i].funcs[k],
                                        ) by {
                                            if k < itfs0[i].funcs.len() {
                                                assert(itfs2[i].funcs[k] == itfs0[i].funcs[k]);
                                            }
                                        }
                                    }
                                }
                                assert(parse_state_wf(pkgs0, itfs2, imps0));
                            }
                        }
                    },
                    None => {},
                }
            } else {
                // Close braces, world headers, blank lines and anything
                // unreadable: no effect beyond leaving the current scope.
                if l.len() == 1 && ls[0] == ('}' as u8) {
                    cur_pkg = None;
                    cur_itf = None;
                } else if l.len() == 3 && ls[0] == (' ' as u8) && ls[1] == (' ' as u8) && ls[2]
                    == ('}' as u8) {
                    cur_itf = None;
                }
            }
        }
        proof {
            let pre = lls.subrange(0, li as int);
            let cur = lls.subrange(0, li + 1 as int);
            assert(cur =~= pre + seq![lv]);
            lemma_extract_concat(pre, seq![lv]);
            lemma_extract_single(lv);
        }
        li += 1;
    }
    proof {
        assert(lls.subrange(0, nlines as int) =~= lls);
    }
    let mut worlds: Vec<WorldDef> = Vec::new();
    worlds.push(
        WorldDef { name: deps_name_vec(), package: 0, imports, exports: Vec::new() },
    );
    let graph = CapabilityGraph { packages, interfaces, worlds };
    let d = Descriptor { graph, deps_world: 0 };
    proof {
        assert(d.graph@.packages == d.graph.packages.deep_view());
        assert(d.graph@.interfaces == d.graph.interfaces.deep_view());
        assert(d.graph@.worlds =~~= parse_graph(
            d.graph.packages.deep_view(),
            d.graph.interfaces.deep_view(),
            d.graph.worlds@[0].imports.deep_view(),
        ).worlds);
        assert(valid_version(deps_world_name()));
        assert(graph_wf(d.graph@)) by {
            assert(parse_state_wf(
                d.graph@.packages,
                d.graph@.interfaces,
                d.graph@.worlds[0].imports,
            ));
            assert forall|i: int| 0 <= i < d.graph@.interfaces.len() implies itf_wf(d.graph@, i) by {}
            assert forall|w2: int| 0 <= w2 < d.graph@.worlds.len() implies world_wf(d.graph@, w2) by {
                assert(d.graph@.worlds[0].exports =~= Seq::<ItemV>::empty());
            }
        }
        assert(d.imported() =~= extract_import_keys(split_lines(text@)));
    }
    d
}

} // verus!
