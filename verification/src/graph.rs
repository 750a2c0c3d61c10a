//! The capability graph: the decoded form of one or more packages, each
//! owning interfaces and worlds. Entities live in per-graph arenas and refer
//! to one another by index; indices from independently decoded graphs are
//! never comparable, only qualified names are.

use vstd::prelude::*;

use crate::bytes::push_all;
use crate::name::{
    itf_qname, qualified_itf_name, valid_ident, valid_pkg_name, valid_version, version_byte,
    PackageName, PkgName,
};

verus! {

broadcast use crate::bytes::lemma_bytes_deep_view;

/// Mathematical form of an interface definition.
#[verifier::ext_equal]
pub ghost struct ItfV {
    pub name: Seq<u8>,
    pub package: int,
    pub funcs: Seq<Seq<u8>>,
}

/// Mathematical form of a world item.
pub ghost enum ItemV {
    Itf { id: int },
    Func { name: Seq<u8> },
    Ty { name: Seq<u8> },
}

/// Mathematical form of a world definition.
#[verifier::ext_equal]
pub ghost struct WorldV {
    pub name: Seq<u8>,
    pub package: int,
    pub imports: Seq<ItemV>,
    pub exports: Seq<ItemV>,
}

/// Mathematical form of a capability graph.
#[verifier::ext_equal]
pub ghost struct GraphV {
    pub packages: Seq<PkgName>,
    pub interfaces: Seq<ItfV>,
    pub worlds: Seq<WorldV>,
}

/// A named group of functions owned by a package. Function signatures are
/// carried as opaque printable lines; they are compared, never interpreted.
pub struct InterfaceDef {
    pub name: Vec<u8>,
    pub package: usize,
    pub funcs: Vec<Vec<u8>>,
}

/// One entry of a world: an interface reference, a standalone function or a
/// type.
pub enum WorldItem {
    Interface { id: usize },
    Function { name: Vec<u8> },
    Type { name: Vec<u8> },
}

/// A named set of imports and exports owned by a package.
pub struct WorldDef {
    pub name: Vec<u8>,
    pub package: usize,
    pub imports: Vec<WorldItem>,
    pub exports: Vec<WorldItem>,
}

/// Arenas of packages, interfaces and worlds decoded together.
pub struct CapabilityGraph {
    pub packages: Vec<PackageName>,
    pub interfaces: Vec<InterfaceDef>,
    pub worlds: Vec<WorldDef>,
}

impl View for InterfaceDef {
    type V = ItfV;

    open spec fn view(&self) -> ItfV {
        ItfV { name: self.name@, package: self.package as int, funcs: self.funcs.deep_view() }
    }
}

impl DeepView for InterfaceDef {
    type V = ItfV;

    open spec fn deep_view(&self) -> ItfV {
        self.view()
    }
}

impl View for WorldItem {
    type V = ItemV;

    open spec fn view(&self) -> ItemV {
        match self {
            WorldItem::Interface { id } => ItemV::Itf { id: *id as int },
            WorldItem::Function { name } => ItemV::Func { name: name@ },
            WorldItem::Type { name } => ItemV::Ty { name: name@ },
        }
    }
}

impl DeepView for WorldItem {
    type V = ItemV;

    open spec fn deep_view(&self) -> ItemV {
        self.view()
    }
}

impl View for WorldDef {
    type V = WorldV;

    open spec fn view(&self) -> WorldV {
        WorldV {
            name: self.name@,
            package: self.package as int,
            imports: self.imports.deep_view(),
            exports: self.exports.deep_view(),
        }
    }
}

impl DeepView for WorldDef {
    type V = WorldV;

    open spec fn deep_view(&self) -> WorldV {
        self.view()
    }
}

impl DeepView for PackageName {
    type V = PkgName;

    open spec fn deep_view(&self) -> PkgName {
        self.view()
    }
}

impl View for CapabilityGraph {
    type V = GraphV;

    open spec fn view(&self) -> GraphV {
        GraphV {
            packages: self.packages.deep_view(),
            interfaces: self.interfaces.deep_view(),
            worlds: self.worlds.deep_view(),
        }
    }
}

/// A function line: printable ASCII only, so that rendered descriptors stay
/// line-oriented.
pub open spec fn func_line_ok(s: Seq<u8>) -> bool {
    forall|i: int| 0 <= i < s.len() ==> 32 <= #[trigger] s[i] <= 126
}

/// World names allow identifier bytes plus '.' and '+', as derived world
/// names carry version fragments.
pub open spec fn valid_world_name(s: Seq<u8>) -> bool {
    valid_version(s)
}

/// Well-formedness of one interface of `g`.
pub open spec fn itf_wf(g: GraphV, i: int) -> bool {
    &&& 0 <= g.interfaces[i].package < g.packages.len()
    &&& valid_ident(g.interfaces[i].name)
    &&& forall|k: int| 0 <= k < g.interfaces[i].funcs.len() ==> func_line_ok(
        #[trigger] g.interfaces[i].funcs[k],
    )
}

/// Well-formedness of one world item of `g`.
pub open spec fn item_wf(g: GraphV, it: ItemV) -> bool {
    match it {
        ItemV::Itf { id } => 0 <= id < g.interfaces.len(),
        ItemV::Func { name } => valid_ident(name),
        ItemV::Ty { name } => valid_ident(name),
    }
}

/// Well-formedness of one world of `g`.
pub open spec fn world_wf(g: GraphV, w: int) -> bool {
    &&& 0 <= g.worlds[w].package < g.packages.len()
    &&& valid_world_name(g.worlds[w].name)
    &&& forall|k: int| 0 <= k < g.worlds[w].imports.len() ==> item_wf(
        g,
        #[trigger] g.worlds[w].imports[k],
    )
    &&& forall|k: int| 0 <= k < g.worlds[w].exports.len() ==> item_wf(
        g,
        #[trigger] g.worlds[w].exports[k],
    )
}

/// Well-formedness of a capability graph: all indices in range, all names
/// valid, and qualified names unique within their scopes.
pub open spec fn graph_wf(g: GraphV) -> bool {
    &&& forall|p: int| 0 <= p < g.packages.len() ==> valid_pkg_name(#[trigger] g.packages[p])
    &&& forall|i: int| 0 <= i < g.interfaces.len() ==> #[trigger] itf_wf(g, i)
    &&& forall|w: int| 0 <= w < g.worlds.len() ==> #[trigger] world_wf(g, w)
    &&& forall|p1: int, p2: int|
        0 <= p1 < g.packages.len() && 0 <= p2 < g.packages.len() && p1 != p2
            ==> #[trigger] g.packages[p1] != #[trigger] g.packages[p2]
    &&& forall|i1: int, i2: int|
        0 <= i1 < g.interfaces.len() && 0 <= i2 < g.interfaces.len() && i1 != i2
            && #[trigger] g.interfaces[i1].package == #[trigger] g.interfaces[i2].package
            ==> g.interfaces[i1].name != g.interfaces[i2].name
    &&& forall|w1: int, w2: int|
        0 <= w1 < g.worlds.len() && 0 <= w2 < g.worlds.len() && w1 != w2
            && #[trigger] g.worlds[w1].package == #[trigger] g.worlds[w2].package
            ==> g.worlds[w1].name != g.worlds[w2].name
}

/// The qualified name of interface `i` of `g`.
pub open spec fn itf_key(g: GraphV, i: int) -> Seq<u8> {
    itf_qname(g.packages[g.interfaces[i].package], g.interfaces[i].name)
}

/// The stable qualified name of a world item: an interface's qualified name,
/// or a function's or type's own name.
pub open spec fn item_key(g: GraphV, it: ItemV) -> Seq<u8> {
    match it {
        ItemV::Itf { id } => itf_key(g, id),
        ItemV::Func { name } => name,
        ItemV::Ty { name } => name,
    }
}

impl CapabilityGraph {
    /// Well-formedness of the executable graph.
    pub open spec fn wf(&self) -> bool {
        graph_wf(self@)
    }
}

/// Returns whether every byte of the line is printable ASCII.
pub fn is_func_line_ok(f: &[u8]) -> (r: bool)
    ensures
        r == func_line_ok(f@),
{
    let mut i: usize = 0;
    while i < f.len()
        invariant
            i <= f@.len(),
            forall|j: int| 0 <= j < i ==> 32 <= #[trigger] f@[j] <= 126,
        decreases f.len() - i,
    {
        if f[i] < 32 || f[i] > 126 {
            return false;
        }
        i += 1;
    }
    true
}

/// Checks one package name executably.
pub fn check_pkg_name(p: &PackageName) -> (r: bool)
    ensures
        r == valid_pkg_name(p@),
{
    crate::name::is_valid_ident(p.namespace.as_slice()) && crate::name::is_valid_ident(
        p.name.as_slice(),
    ) && match &p.version {
        Some(v) => crate::name::is_valid_version(v.as_slice()),
        None => true,
    }
}

/// Checks a whole graph's well-formedness executably, so that callers
/// outside the verified world can establish it before merging.
#[verifier::rlimit(60)]
pub fn check_graph_wf(g: &CapabilityGraph) -> (r: bool)
    ensures
        r == g.wf(),
{
    let ghost gv = g@;
    let np = g.packages.len();
    let ni = g.interfaces.len();
    let nw = g.worlds.len();
    proof {
        assert(gv.packages.len() == np && gv.interfaces.len() == ni && gv.worlds.len() == nw);
    }

    let mut p: usize = 0;
    while p < np
        invariant
            gv == g@,
            np == g.packages@.len(),
            gv.packages.len() == np,
            p <= np,
            forall|q: int| 0 <= q < p ==> valid_pkg_name(#[trigger] gv.packages[q]),
            forall|q1: int, q2: int|
                0 <= q1 < p && 0 <= q2 < p && q1 != q2 ==> #[trigger] gv.packages[q1]
                    != #[trigger] gv.packages[q2],
        decreases np - p,
    {
        assert(gv.packages[p as int] == g.packages@[p as int]@);
        if !check_pkg_name(&g.packages[p]) {
            proof {
                assert(!valid_pkg_name(gv.packages[p as int]));
                assert(!graph_wf(gv));
            }
            return false;
        }
        let mut q: usize = 0;
        while q < p
            invariant
                gv == g@,
                np == g.packages@.len(),
                gv.packages.len() == np,
                q <= p < np,
                gv.packages[p as int] == g.packages@[p as int]@,
                forall|q2: int| 0 <= q2 < q ==> #[trigger] gv.packages[q2] != gv.packages[p as int],
            decreases p - q,
        {
            assert(gv.packages[q as int] == g.packages@[q as int]@);
            if crate::merge::pkg_name_eq(&g.packages[q], &g.packages[p]) {
                proof {
                    assert(gv.packages[q as int] == gv.packages[p as int]);
                    assert(!graph_wf(gv));
                }
                return false;
            }
            q += 1;
        }
        p += 1;
    }

    let mut i: usize = 0;
    while i < ni
        invariant
            gv == g@,
            ni == g.interfaces@.len(),
            gv.interfaces.len() == ni,
            gv.packages.len() == np,
            np == g.packages@.len(),
            i <= ni,
            forall|t: int| 0 <= t < i ==> #[trigger] itf_wf(gv, t),
            forall|t1: int, t2: int|
                0 <= t1 < i && 0 <= t2 < i && t1 != t2 && #[trigger] gv.interfaces[t1].package
                    == #[trigger] gv.interfaces[t2].package ==> gv.interfaces[t1].name
                    != gv.interfaces[t2].name,
        decreases ni - i,
    {
        assert(gv.interfaces[i as int] == g.interfaces@[i as int]@);
        let itf = &g.interfaces[i];
        if itf.package >= np || !crate::name::is_valid_ident(itf.name.as_slice()) {
            proof {
                assert(!itf_wf(gv, i as int));
                assert(!graph_wf(gv));
            }
            return false;
        }
        let nf = g.interfaces[i].funcs.len();
        let mut f: usize = 0;
        while f < nf
            invariant
                gv == g@,
                i < g.interfaces@.len(),
                gv.interfaces[i as int] == g.interfaces@[i as int]@,
                nf == g.interfaces@[i as int].funcs@.len(),
                gv.interfaces[i as int].funcs.len() == nf,
                f <= nf,
                forall|t: int|
                    0 <= t < f ==> func_line_ok(#[trigger] gv.interfaces[i as int].funcs[t]),
            decreases nf - f,
        {
            assert(gv.interfaces[i as int].funcs[f as int] == g.interfaces@[i as int].funcs@[f as int]@);
            if !is_func_line_ok(g.interfaces[i].funcs[f].as_slice()) {
                proof {
                    assert(!itf_wf(gv, i as int));
                    assert(!graph_wf(gv));
                }
                return false;
            }
            f += 1;
        }
        let mut t: usize = 0;
        while t < i
            invariant
                gv == g@,
                ni == g.interfaces@.len(),
                gv.interfaces.len() == ni,
                t <= i < ni,
                gv.interfaces[i as int] == g.interfaces@[i as int]@,
                forall|t2: int|
                    0 <= t2 < t && #[trigger] gv.interfaces[t2].package == gv.interfaces[i as int].package
                        ==> gv.interfaces[t2].name != gv.interfaces[i as int].name,
            decreases i - t,
        {
            assert(gv.interfaces[t as int] == g.interfaces@[t as int]@);
            if g.interfaces[t].package == g.interfaces[i].package && crate::bytes::bytes_eq(
                g.interfaces[t].name.as_slice(),
                g.interfaces[i].name.as_slice(),
            ) {
                proof {
                    assert(gv.interfaces[t as int].package == gv.interfaces[i as int].package);
                    assert(gv.interfaces[t as int].name == gv.interfaces[i as int].name);
                    assert(!graph_wf(gv));
                }
                return false;
            }
            t += 1;
        }
        i += 1;
    }

    let mut w: usize = 0;
    while w < nw
        invariant
            gv == g@,
            nw == g.worlds@.len(),
            gv.worlds.len() == nw,
            gv.packages.len() == np,
            np == g.packages@.len(),
            gv.interfaces.len() == ni,
            ni == g.interfaces@.len(),
            w <= nw,
            forall|x: int| 0 <= x < w ==> #[trigger] world_wf(gv, x),
            forall|x1: int, x2: int|
                0 <= x1 < w && 0 <= x2 < w && x1 != x2 && #[trigger] gv.worlds[x1].package
                    == #[trigger] gv.worlds[x2].package ==> gv.worlds[x1].name
                    != gv.worlds[x2].name,
        decreases nw - w,
    {
        assert(gv.worlds[w as int] == g.worlds@[w as int]@);
        let wd = &g.worlds[w];
        if wd.package >= np || !crate::name::is_valid_version(wd.name.as_slice()) {
            proof {
                assert(!world_wf(gv, w as int));
                assert(!graph_wf(gv));
            }
            return false;
        }
        if !check_items(g, &wd.imports, Ghost(gv.worlds[w as int].imports)) {
            proof {
                assert(!world_wf(gv, w as int));
                assert(!graph_wf(gv));
            }
            return false;
        }
        if !check_items(g, &wd.exports, Ghost(gv.worlds[w as int].exports)) {
            proof {
                assert(!world_wf(gv, w as int));
                assert(!graph_wf(gv));
            }
            return false;
        }
        let mut x: usize = 0;
        while x < w
            invariant
                gv == g@,
                nw == g.worlds@.len(),
                gv.worlds.len() == nw,
                x <= w < nw,
                gv.worlds[w as int] == g.worlds@[w as int]@,
                forall|x2: int|
                    0 <= x2 < x && #[trigger] gv.worlds[x2].package == gv.worlds[w as int].package
                        ==> gv.worlds[x2].name != gv.worlds[w as int].name,
            decreases w - x,
        {
            assert(gv.worlds[x as int] == g.worlds@[x as int]@);
            if g.worlds[x].package == g.worlds[w].package && crate::bytes::bytes_eq(
                g.worlds[x].name.as_slice(),
                g.worlds[w].name.as_slice(),
            ) {
                proof {
                    assert(gv.worlds[x as int].package == gv.worlds[w as int].package);
                    assert(gv.worlds[x as int].name == gv.worlds[w as int].name);
                    assert(!graph_wf(gv));
                }
                return false;
            }
            x += 1;
        }
        w += 1;
    }
    proof {
        assert(graph_wf(gv));
    }
    true
}

/// Checks one item list of a world.
fn check_items(g: &CapabilityGraph, items: &Vec<WorldItem>, Ghost(model): Ghost<Seq<ItemV>>) -> (r:
    bool)
    requires
        items.deep_view() == model,
    ensures
        r == forall|k: int| 0 <= k < model.len() ==> item_wf(g@, #[trigger] model[k]),
{
    let mut k: usize = 0;
    while k < items.len()
        invariant
            items.deep_view() == model,
            model.len() == items@.len(),
            k <= items@.len(),
            forall|t: int| 0 <= t < k ==> item_wf(g@, #[trigger] model[t]),
        decreases items.len() - k,
    {
        assert(model[k as int] == items@[k as int]@);
        let ok = match &items[k] {
            WorldItem::Interface { id } => *id < g.interfaces.len(),
            WorldItem::Function { name } => crate::name::is_valid_ident(name.as_slice()),
            WorldItem::Type { name } => crate::name::is_valid_ident(name.as_slice()),
        };
        if !ok {
            proof {
                assert(!item_wf(g@, model[k as int]));
            }
            return false;
        }
        k += 1;
    }
    true
}

/// Computes the stable qualified name of a world item of `g`.
pub fn item_key_of(g: &CapabilityGraph, it: &WorldItem) -> (r: Vec<u8>)
    requires
        graph_wf(g@),
        item_wf(g@, it@),
    ensures
        r@ == item_key(g@, it@),
{
    match it {
        WorldItem::Interface { id } => {
            let itf = &g.interfaces[*id];
            assert(itf_wf(g@, *id as int));
            let pkg = &g.packages[itf.package];
            qualified_itf_name(pkg, &itf.name)
        },
        WorldItem::Function { name } => crate::name::copy_bytes(name),
        WorldItem::Type { name } => crate::name::copy_bytes(name),
    }
}

/// Turns a package qualified name into a deterministic world name: ':' and
/// '/' become '-', '@' is dropped, all other bytes stay.
pub open spec fn world_name_of(s: Seq<u8>) -> Seq<u8>
    decreases s.len(),
{
    if s.len() == 0 {
        Seq::<u8>::empty()
    } else {
        let rest = world_name_of(s.drop_first());
        if s[0] == (':' as u8) || s[0] == ('/' as u8) {
            seq![('-' as u8)] + rest
        } else if s[0] == ('@' as u8) {
            rest
        } else {
            seq![s[0]] + rest
        }
    }
}

/// Derives the deterministic world name used when importizing a dependency's
/// world, from the dependency package's qualified name.
pub fn world_name_for(qname: &Vec<u8>) -> (r: Vec<u8>)
    ensures
        r@ == world_name_of(qname@),
{
    let mut out: Vec<u8> = Vec::new();
    let mut i: usize = qname.len();
    while i > 0
        invariant
            i <= qname@.len(),
            out@ == world_name_of(qname@.subrange(i as int, qname@.len() as int)),
        decreases i,
    {
        i -= 1;
        let b = qname[i];
        let ghost prev = out@;
        let ghost tail = qname@.subrange(i + 1, qname@.len() as int);
        let mut next: Vec<u8> = Vec::new();
        if b == (':' as u8) || b == ('/' as u8) {
            next.push('-' as u8);
            push_all(&mut next, out.as_slice());
        } else if b == ('@' as u8) {
            push_all(&mut next, out.as_slice());
        } else {
            next.push(b);
            push_all(&mut next, out.as_slice());
        }
        out = next;
        proof {
            let cur = qname@.subrange(i as int, qname@.len() as int);
            assert(cur.drop_first() =~= tail);
            assert(cur[0] == qname@[i as int]);
            if b == (':' as u8) || b == ('/' as u8) {
                assert(out@ =~= seq![('-' as u8)] + prev);
            } else if b == ('@' as u8) {
                assert(out@ =~= prev);
            } else {
                assert(out@ =~= seq![b] + prev);
            }
        }
    }
    proof {
        assert(qname@.subrange(0, qname@.len() as int) =~= qname@);
    }
    out
}

/// Every byte a derived world name can hold is a version byte, and a name
/// derived from a valid package qualified name is non-empty.
pub proof fn lemma_world_name_valid(p: PkgName)
    requires
        valid_pkg_name(p),
    ensures
        valid_world_name(world_name_of(crate::name::pkg_qname(p))),
{
    let q = crate::name::pkg_qname(p);
    assert forall|j: int| 0 <= j < q.len() implies version_byte(q[j]) || q[j] == (':' as u8) || q[j]
        == ('@' as u8) by {
        let ns = p.ns;
        if j < ns.len() {
            assert(q[j] == ns[j]);
        } else if j == ns.len() {
        } else {
            let k = j - ns.len() - 1;
            match p.version {
                None => {
                    assert(q[j] == p.name[k]);
                },
                Some(v) => {
                    if k < p.name.len() {
                        assert(q[j] == p.name[k]);
                    } else if k == p.name.len() {
                    } else {
                        assert(q[j] == v[k - p.name.len() - 1]);
                    }
                },
            }
        }
    }
    lemma_world_name_bytes(q);
    assert(q.len() > 0 && q[0] == p.ns[0]);
    lemma_world_name_len(q);
}

/// Bytes of a derived world name: separators map to '-', other bytes stay,
/// so version bytes in give version bytes out.
proof fn lemma_world_name_bytes(s: Seq<u8>)
    requires
        forall|j: int| 0 <= j < s.len() ==> version_byte(s[j]) || s[j] == (':' as u8) || s[j] == (
        '/' as u8) || s[j] == ('@' as u8),
    ensures
        forall|j: int| 0 <= j < world_name_of(s).len() ==> version_byte(#[trigger] world_name_of(s)[j]),
    decreases s.len(),
{
    if s.len() > 0 {
        assert forall|j: int| 0 <= j < s.drop_first().len() implies version_byte(s.drop_first()[j])
            || s.drop_first()[j] == (':' as u8) || s.drop_first()[j] == ('/' as u8)
            || s.drop_first()[j] == ('@' as u8) by {
            assert(s.drop_first()[j] == s[j + 1]);
        }
        lemma_world_name_bytes(s.drop_first());
        let rest = world_name_of(s.drop_first());
        let whole = world_name_of(s);
        if s[0] == ('@' as u8) {
            assert(whole == rest);
        } else {
            let head: Seq<u8> = if s[0] == (':' as u8) || s[0] == ('/' as u8) {
                seq![('-' as u8)]
            } else {
                seq![s[0]]
            };
            assert(whole == head + rest);
            assert(version_byte(head[0]));
            assert forall|j: int| 0 <= j < whole.len() implies version_byte(whole[j]) by {
                if j > 0 {
                    assert(whole[j] == rest[j - 1]);
                }
            }
        }
    }
}

/// A qualified name starting with a version byte derives a non-empty world
/// name.
proof fn lemma_world_name_len(s: Seq<u8>)
    requires
        s.len() > 0,
        version_byte(s[0]) || s[0] == (':' as u8) || s[0] == ('/' as u8),
    ensures
        world_name_of(s).len() > 0,
{
}

} // verus!
