//! The composition core: folds one candidate capability graph into a target
//! graph. Every identifier of the candidate is translated to an existing
//! target identifier when a structurally equal entity already exists there,
//! or to a freshly allocated one; the translation is total. Same-named
//! entities with incompatible shapes abort the merge with no partial write.

use vstd::prelude::*;

use crate::DepsError;
use crate::bytes::bytes_eq;
use crate::graph::{
    graph_wf, item_key, item_wf, itf_key, itf_wf, world_wf, CapabilityGraph, GraphV, InterfaceDef,
    ItemV, ItfV, WorldDef, WorldItem, WorldV,
};
use crate::name::{copy_bytes, qualified_itf_name, PackageName};

verus! {

broadcast use crate::bytes::lemma_bytes_deep_view;

/// Maps every identifier of a candidate graph to its identifier in the
/// merged target graph.
pub struct IdTranslation {
    pub package_map: Vec<usize>,
    pub interface_map: Vec<usize>,
    pub world_map: Vec<usize>,
}

/// The keys of a sequence of world items under graph `g`.
pub open spec fn items_keys(g: GraphV, items: Seq<ItemV>) -> Seq<Seq<u8>> {
    items.map_values(|it: ItemV| item_key(g, it))
}

/// Candidate interface `i` and target interface `j` carry the same qualified
/// name but different shapes.
pub open spec fn itf_conflict_at(t: GraphV, c: GraphV, i: int, j: int) -> bool {
    &&& 0 <= i < c.interfaces.len()
    &&& 0 <= j < t.interfaces.len()
    &&& itf_wf(c, i)
    &&& itf_wf(t, j)
    &&& t.packages[t.interfaces[j].package] == c.packages[c.interfaces[i].package]
    &&& t.interfaces[j].name == c.interfaces[i].name
    &&& t.interfaces[j].funcs != c.interfaces[i].funcs
}

/// Candidate world `w` and target world `x` carry the same qualified name
/// but different item keys.
pub open spec fn world_conflict_at(t: GraphV, c: GraphV, w: int, x: int) -> bool {
    &&& 0 <= w < c.worlds.len()
    &&& 0 <= x < t.worlds.len()
    &&& t.packages[t.worlds[x].package] == c.packages[c.worlds[w].package]
    &&& t.worlds[x].name == c.worlds[w].name
    &&& (items_keys(t, t.worlds[x].imports) != items_keys(c, c.worlds[w].imports) || items_keys(
        t,
        t.worlds[x].exports,
    ) != items_keys(c, c.worlds[w].exports))
}

/// Some same-named entity of the two graphs has incompatible shapes.
pub open spec fn graphs_conflict(t: GraphV, c: GraphV) -> bool {
    (exists|i: int, j: int| itf_conflict_at(t, c, i, j)) || (exists|w: int, x: int|
        world_conflict_at(t, c, w, x))
}

/// The error of an aborted merge carries an offending qualified name: a
/// conflicting interface's qualified name, or the conflicting world's
/// package name.
pub open spec fn conflict_qname_ok(t: GraphV, c: GraphV, q: Seq<u8>) -> bool {
    (exists|i: int, j: int| itf_conflict_at(t, c, i, j) && itf_key(c, i) == q) || (exists|
        w: int,
        x: int,
    | world_conflict_at(t, c, w, x) && crate::name::pkg_qname(c.packages[c.worlds[w].package])
        == q)
}

/// Every key of an added import list is already present among the base
/// keys: union-merging it changes nothing.
pub open spec fn keys_all_present(base_keys: Seq<Seq<u8>>, add_keys: Seq<Seq<u8>>) -> bool {
    forall|j: int| 0 <= j < add_keys.len() ==> base_keys.contains(#[trigger] add_keys[j])
}

/// Every entity of the candidate already has a structurally equal entity in
/// the target: merging changes nothing.
pub open spec fn all_entities_matched(t: GraphV, c: GraphV) -> bool {
    &&& forall|p: int|
        0 <= p < c.packages.len() ==> exists|q: int|
            0 <= q < t.packages.len() && t.packages[q] == #[trigger] c.packages[p]
    &&& forall|i: int|
        0 <= i < c.interfaces.len() ==> exists|j: int|
            0 <= j < t.interfaces.len() && t.packages[#[trigger] t.interfaces[j].package]
                == c.packages[#[trigger] c.interfaces[i].package] && t.interfaces[j].name
                == c.interfaces[i].name
    &&& forall|w: int|
        0 <= w < c.worlds.len() ==> exists|x: int|
            0 <= x < t.worlds.len() && t.packages[#[trigger] t.worlds[x].package] == c.packages[
                #[trigger] c.worlds[w].package
            ] && t.worlds[x].name == c.worlds[w].name
}

/// What a successful merge guarantees: the target grew monotonically, the
/// translation is total, and every translated entity carries the candidate
/// entity's qualified name and shape.
pub open spec fn merged_ok(old_g: GraphV, new_g: GraphV, c: GraphV, tr: IdTranslation) -> bool {
    &&& graph_wf(new_g)
    &&& old_g.packages.is_prefix_of(new_g.packages)
    &&& old_g.interfaces.is_prefix_of(new_g.interfaces)
    &&& old_g.worlds.is_prefix_of(new_g.worlds)
    &&& tr.package_map@.len() == c.packages.len()
    &&& forall|p: int|
        0 <= p < c.packages.len() ==> 0 <= #[trigger] tr.package_map@[p] < new_g.packages.len()
            && new_g.packages[tr.package_map@[p] as int] == c.packages[p]
    &&& tr.interface_map@.len() == c.interfaces.len()
    &&& forall|i: int|
        0 <= i < c.interfaces.len() ==> 0 <= #[trigger] tr.interface_map@[i]
            < new_g.interfaces.len() && new_g.interfaces[tr.interface_map@[i] as int].name
            == c.interfaces[i].name && new_g.packages[new_g.interfaces[tr.interface_map@[i] as int].package]
            == c.packages[c.interfaces[i].package] && new_g.interfaces[tr.interface_map@[i] as int].funcs
            == c.interfaces[i].funcs && itf_key(new_g, tr.interface_map@[i] as int) == itf_key(c, i)
    &&& tr.world_map@.len() == c.worlds.len()
    &&& forall|w: int|
        0 <= w < c.worlds.len() ==> 0 <= #[trigger] tr.world_map@[w] < new_g.worlds.len()
            && new_g.worlds[tr.world_map@[w] as int].name == c.worlds[w].name && new_g.packages[
            new_g.worlds[tr.world_map@[w] as int].package
        ] == c.packages[c.worlds[w].package] && items_keys(
            new_g,
            new_g.worlds[tr.world_map@[w] as int].imports,
        ) == items_keys(c, c.worlds[w].imports) && items_keys(
            new_g,
            new_g.worlds[tr.world_map@[w] as int].exports,
        ) == items_keys(c, c.worlds[w].exports)
}

/// Returns whether the two package names are equal.
pub fn pkg_name_eq(a: &PackageName, b: &PackageName) -> (r: bool)
    ensures
        r == (a@ == b@),
{
    let ns = bytes_eq(a.namespace.as_slice(), b.namespace.as_slice());
    let nm = bytes_eq(a.name.as_slice(), b.name.as_slice());
    let ver = match (&a.version, &b.version) {
        (None, None) => true,
        (Some(x), Some(y)) => bytes_eq(x.as_slice(), y.as_slice()),
        _ => false,
    };
    ns && nm && ver
}

/// Finds the index of a package with this name, if one exists.
pub fn find_package(g: &CapabilityGraph, p: &PackageName) -> (r: Option<usize>)
    ensures
        match r {
            Some(q) => q < g@.packages.len() && g@.packages[q as int] == p@,
            None => forall|j: int| 0 <= j < g@.packages.len() ==> g@.packages[j] != p@,
        },
{
    let mut q: usize = 0;
    while q < g.packages.len()
        invariant
            q <= g.packages.len(),
            g@.packages.len() == g.packages.len(),
            forall|j: int| 0 <= j < q ==> g@.packages[j] != p@,
        decreases g.packages.len() - q,
    {
        assert(g@.packages[q as int] == g.packages@[q as int]@);
        if pkg_name_eq(&g.packages[q], p) {
            return Some(q);
        }
        q += 1;
    }
    None
}

/// Finds the index of an interface of package `pkg` with this name, if one
/// exists.
pub fn find_interface(g: &CapabilityGraph, pkg: usize, name: &[u8]) -> (r: Option<usize>)
    ensures
        match r {
            Some(i) => i < g@.interfaces.len() && g@.interfaces[i as int].package == pkg as int
                && g@.interfaces[i as int].name == name@,
            None => forall|j: int|
                0 <= j < g@.interfaces.len() ==> !(g@.interfaces[j].package == pkg as int
                    && g@.interfaces[j].name == name@),
        },
{
    let mut i: usize = 0;
    while i < g.interfaces.len()
        invariant
            i <= g.interfaces.len(),
            g@.interfaces.len() == g.interfaces.len(),
            forall|j: int|
                0 <= j < i ==> !(g@.interfaces[j].package == pkg as int && g@.interfaces[j].name
                    == name@),
        decreases g.interfaces.len() - i,
    {
        assert(g@.interfaces[i as int] == g.interfaces@[i as int]@);
        if g.interfaces[i].package == pkg && bytes_eq(g.interfaces[i].name.as_slice(), name) {
            return Some(i);
        }
        i += 1;
    }
    None
}

/// Finds the index of a world of package `pkg` with this name, if one
/// exists.
pub fn find_world(g: &CapabilityGraph, pkg: usize, name: &[u8]) -> (r: Option<usize>)
    ensures
        match r {
            Some(w) => w < g@.worlds.len() && g@.worlds[w as int].package == pkg as int
                && g@.worlds[w as int].name == name@,
            None => forall|j: int|
                0 <= j < g@.worlds.len() ==> !(g@.worlds[j].package == pkg as int
                    && g@.worlds[j].name == name@),
        },
{
    let mut w: usize = 0;
    while w < g.worlds.len()
        invariant
            w <= g.worlds.len(),
            g@.worlds.len() == g.worlds.len(),
            forall|j: int|
                0 <= j < w ==> !(g@.worlds[j].package == pkg as int && g@.worlds[j].name == name@),
        decreases g.worlds.len() - w,
    {
        assert(g@.worlds[w as int] == g.worlds@[w as int]@);
        if g.worlds[w].package == pkg && bytes_eq(g.worlds[w].name.as_slice(), name) {
            return Some(w);
        }
        w += 1;
    }
    None
}

/// Returns whether two lists of byte vectors are equal element for element.
pub fn byte_seqs_eq(a: &Vec<Vec<u8>>, b: &Vec<Vec<u8>>) -> (r: bool)
    ensures
        r == (a.deep_view() == b.deep_view()),
{
    if a.len() != b.len() {
        assert(a.deep_view().len() != b.deep_view().len());
        return false;
    }
    let mut i: usize = 0;
    while i < a.len()
        invariant
            i <= a.len(),
            a@.len() == b@.len(),
            a.deep_view().len() == a@.len(),
            b.deep_view().len() == b@.len(),
            forall|j: int| 0 <= j < i ==> a.deep_view()[j] == b.deep_view()[j],
        decreases a.len() - i,
    {
        assert(a.deep_view()[i as int] == a@[i as int]@);
        assert(b.deep_view()[i as int] == b@[i as int]@);
        if !bytes_eq(a[i].as_slice(), b[i].as_slice()) {
            return false;
        }
        i += 1;
    }
    assert(a.deep_view() =~= b.deep_view());
    true
}

/// Returns a copy of a list of byte vectors.
pub fn copy_byte_seqs(a: &Vec<Vec<u8>>) -> (r: Vec<Vec<u8>>)
    ensures
        r.deep_view() == a.deep_view(),
{
    let mut out: Vec<Vec<u8>> = Vec::new();
    let mut i: usize = 0;
    while i < a.len()
        invariant
            i <= a.len(),
            a.deep_view().len() == a@.len(),
            out.deep_view() == a.deep_view().subrange(0, i as int),
        decreases a.len() - i,
    {
        let ghost pre_out = out.deep_view();
        out.push(copy_bytes(&a[i]));
        proof {
            let pre = a.deep_view().subrange(0, i as int);
            let cur = a.deep_view().subrange(0, i + 1 as int);
            assert(cur.drop_last() =~= pre);
            assert(a.deep_view()[i as int] == a@[i as int].deep_view());
            assert(out.deep_view() =~= pre_out.push(a.deep_view()[i as int]));
            assert(cur =~= pre.push(a.deep_view()[i as int]));
        }
        i += 1;
    }
    assert(a.deep_view().subrange(0, a@.len() as int) =~= a.deep_view());
    out
}

/// Computes the keys of a list of world items under `g`.
pub fn keys_of_items(g: &CapabilityGraph, items: &Vec<WorldItem>) -> (r: Vec<Vec<u8>>)
    requires
        graph_wf(g@),
        forall|k: int| 0 <= k < items.deep_view().len() ==> item_wf(g@, #[trigger] items.deep_view()[k]),
    ensures
        r.deep_view() == items_keys(g@, items.deep_view()),
{
    let mut out: Vec<Vec<u8>> = Vec::new();
    let mut i: usize = 0;
    while i < items.len()
        invariant
            i <= items.len(),
            items.deep_view().len() == items@.len(),
            graph_wf(g@),
            forall|k: int|
                0 <= k < items.deep_view().len() ==> item_wf(g@, #[trigger] items.deep_view()[k]),
            out.deep_view() == items_keys(g@, items.deep_view().subrange(0, i as int)),
        decreases items.len() - i,
    {
        assert(items.deep_view()[i as int] == items@[i as int]@);
        let key = crate::graph::item_key_of(g, &items[i]);
        out.push(key);
        proof {
            let pre = items.deep_view().subrange(0, i as int);
            let cur = items.deep_view().subrange(0, i + 1 as int);
            assert(cur.drop_last() =~= pre);
            assert(items_keys(g@, cur) =~= items_keys(g@, pre).push(
                item_key(g@, items.deep_view()[i as int]),
            ));
            assert(out.deep_view() =~= items_keys(g@, cur));
        }
        i += 1;
    }
    assert(items.deep_view().subrange(0, items@.len() as int) =~= items.deep_view());
    out
}

/// Item keys do not change when a graph grows by appending entities.
pub proof fn lemma_item_key_stable(g1: GraphV, g2: GraphV, it: ItemV)
    requires
        g1.packages.is_prefix_of(g2.packages),
        g1.interfaces.is_prefix_of(g2.interfaces),
        graph_wf(g1),
        item_wf(g1, it),
    ensures
        item_key(g2, it) == item_key(g1, it),
{
    match it {
        ItemV::Itf { id } => {
            assert(g1.interfaces[id] == g1.interfaces.subrange(0, g1.interfaces.len() as int)[id]);
            assert(g2.interfaces[id] == g1.interfaces[id]);
            assert(itf_wf(g1, id));
            let p = g1.interfaces[id].package;
            assert(g2.packages[p] == g1.packages[p]);
        },
        ItemV::Func { name } => {},
        ItemV::Ty { name } => {},
    }
}

/// Keys of a list of items do not change when the graph grows by appending
/// entities.
pub proof fn lemma_items_keys_stable(g1: GraphV, g2: GraphV, items: Seq<ItemV>)
    requires
        g1.packages.is_prefix_of(g2.packages),
        g1.interfaces.is_prefix_of(g2.interfaces),
        graph_wf(g1),
        forall|k: int| 0 <= k < items.len() ==> item_wf(g1, #[trigger] items[k]),
    ensures
        items_keys(g2, items) == items_keys(g1, items),
{
    assert forall|k: int| 0 <= k < items.len() implies items_keys(g2, items)[k] == items_keys(
        g1,
        items,
    )[k] by {
        lemma_item_key_stable(g1, g2, items[k]);
    }
    assert(items_keys(g2, items) =~= items_keys(g1, items));
}

/// Returns a copy of a world item.
pub fn item_dup(it: &WorldItem) -> (r: WorldItem)
    ensures
        r@ == it@,
{
    match it {
        WorldItem::Interface { id } => WorldItem::Interface { id: *id },
        WorldItem::Function { name } => WorldItem::Function { name: copy_bytes(name) },
        WorldItem::Type { name } => WorldItem::Type { name: copy_bytes(name) },
    }
}

/// Merges the candidate graph into the target graph. Entities that already
/// exist in the target (by qualified name) are reused; all others are
/// appended; the returned translation maps every candidate identifier. When
/// two same-named entities have incompatible shapes the merge fails with
/// `CompositionConflict` and the target is left untouched.
#[verifier::rlimit(60)]
pub fn merge_graphs(target: &mut CapabilityGraph, cand: &CapabilityGraph) -> (r: Result<
    IdTranslation,
    DepsError,
>)
    requires
        old(target).wf(),
        cand.wf(),
    ensures
        match r {
            Ok(tr) => merged_ok(old(target)@, final(target)@, cand@, tr) && !graphs_conflict(
                old(target)@,
                cand@,
            ) && (all_entities_matched(old(target)@, cand@) ==> final(target)@ == old(target)@),
            Err(e) => final(target)@ == old(target)@ && graphs_conflict(old(target)@, cand@)
                && match e {
                DepsError::CompositionConflict { qname } => conflict_qname_ok(
                    old(target)@,
                    cand@,
                    qname@,
                ),
                _ => false,
            },
        },
{
    let ghost g0 = target@;
    let ghost c = cand@;

    // Pass 1: interface conflict scan; the target is not touched, so a
    // conflict aborts with no partial write.
    let mut i: usize = 0;
    while i < cand.interfaces.len()
        invariant
            target@ == g0,
            graph_wf(g0),
            cand.wf(),
            c == cand@,
            i <= cand.interfaces.len(),
            c.interfaces.len() == cand.interfaces.len(),
            forall|i2: int, j: int| 0 <= i2 < i ==> !itf_conflict_at(g0, c, i2, j),
        decreases cand.interfaces.len() - i,
    {
        let ci = &cand.interfaces[i];
        assert(c.interfaces[i as int] == ci@);
        assert(itf_wf(c, i as int));
        match find_package(target, &cand.packages[ci.package]) {
            None => {
                proof {
                    assert(c.packages[ci.package as int] == cand.packages@[ci.package as int]@);
                    assert forall|j: int| !itf_conflict_at(g0, c, i as int, j) by {
                        if 0 <= j < g0.interfaces.len() && itf_conflict_at(g0, c, i as int, j) {
                            assert(g0.packages[g0.interfaces[j].package] == c.packages[ci.package as int]);
                        }
                    }
                }
            },
            Some(pj) => {
                proof {
                    assert(g0.packages[pj as int] == c.packages[ci.package as int]);
                }
                match find_interface(target, pj, ci.name.as_slice()) {
                    None => {
                        proof {
                            assert forall|j: int| !itf_conflict_at(g0, c, i as int, j) by {
                                if 0 <= j < g0.interfaces.len() && itf_conflict_at(
                                    g0,
                                    c,
                                    i as int,
                                    j,
                                ) {
                                    let q = g0.interfaces[j].package;
                                    assert(g0.packages[q] == g0.packages[pj as int]);
                                    assert(q == pj as int);
                                }
                            }
                        }
                    },
                    Some(j) => {
                        assert(g0.interfaces[j as int] == target.interfaces@[j as int]@);
                        if !byte_seqs_eq(&target.interfaces[j].funcs, &ci.funcs) {
                            proof {
                                assert(itf_conflict_at(g0, c, i as int, j as int));
                            }
                            let qname = qualified_itf_name(&cand.packages[ci.package], &ci.name);
                            proof {
                                assert(c.packages[ci.package as int] == cand.packages@[ci.package as int]@);
                                assert(qname@ == itf_key(c, i as int));
                                assert(conflict_qname_ok(g0, c, qname@));
                            }
                            return Err(DepsError::CompositionConflict { qname });
                        }
                        proof {
                            assert forall|j2: int| !itf_conflict_at(g0, c, i as int, j2) by {
                                if 0 <= j2 < g0.interfaces.len() && itf_conflict_at(
                                    g0,
                                    c,
                                    i as int,
                                    j2,
                                ) {
                                    let q = g0.interfaces[j2].package;
                                    assert(g0.packages[q] == g0.packages[pj as int]);
                                    assert(q == pj as int);
                                    assert(j2 == j as int);
                                }
                            }
                        }
                    },
                }
            },
        }
        i += 1;
    }
    assert(forall|i2: int, j: int| !itf_conflict_at(g0, c, i2, j));

    // Pass 2: world conflict scan.
    let mut w: usize = 0;
    while w < cand.worlds.len()
        invariant
            target@ == g0,
            graph_wf(g0),
            cand.wf(),
            c == cand@,
            w <= cand.worlds.len(),
            c.worlds.len() == cand.worlds.len(),
            forall|i2: int, j: int| !itf_conflict_at(g0, c, i2, j),
            forall|w2: int, x: int| 0 <= w2 < w ==> !world_conflict_at(g0, c, w2, x),
        decreases cand.worlds.len() - w,
    {
        let cw = &cand.worlds[w];
        assert(c.worlds[w as int] == cw@);
        assert(world_wf(c, w as int));
        match find_package(target, &cand.packages[cw.package]) {
            None => {
                proof {
                    assert(c.packages[cw.package as int] == cand.packages@[cw.package as int]@);
                    assert forall|x: int| !world_conflict_at(g0, c, w as int, x) by {
                        if 0 <= x < g0.worlds.len() && world_conflict_at(g0, c, w as int, x) {
                            assert(world_wf(g0, x));
                            assert(g0.packages[g0.worlds[x].package] == c.packages[cw.package as int]);
                        }
                    }
                }
            },
            Some(pj) => {
                proof {
                    assert(g0.packages[pj as int] == c.packages[cw.package as int]);
                }
                match find_world(target, pj, cw.name.as_slice()) {
                    None => {
                        proof {
                            assert forall|x: int| !world_conflict_at(g0, c, w as int, x) by {
                                if 0 <= x < g0.worlds.len() && world_conflict_at(g0, c, w as int, x) {
                                    assert(world_wf(g0, x));
                                    let q = g0.worlds[x].package;
                                    assert(g0.packages[q] == g0.packages[pj as int]);
                                    assert(q == pj as int);
                                }
                            }
                        }
                    },
                    Some(x) => {
                        assert(g0.worlds[x as int] == target.worlds@[x as int]@);
                        assert(world_wf(g0, x as int));
                        proof {
                            assert(target.worlds@[x as int]@.imports == g0.worlds[x as int].imports);
                            assert(target.worlds@[x as int]@.exports == g0.worlds[x as int].exports);
                            assert forall|k: int|
                                0 <= k < g0.worlds[x as int].imports.len() implies item_wf(
                                g0,
                                #[trigger] g0.worlds[x as int].imports[k],
                            ) by {}
                            assert forall|k: int|
                                0 <= k < g0.worlds[x as int].exports.len() implies item_wf(
                                g0,
                                #[trigger] g0.worlds[x as int].exports[k],
                            ) by {}
                            assert(cand.worlds@[w as int]@.imports == c.worlds[w as int].imports);
                            assert(cand.worlds@[w as int]@.exports == c.worlds[w as int].exports);
                            assert forall|k: int|
                                0 <= k < c.worlds[w as int].imports.len() implies item_wf(
                                c,
                                #[trigger] c.worlds[w as int].imports[k],
                            ) by {}
                            assert forall|k: int|
                                0 <= k < c.worlds[w as int].exports.len() implies item_wf(
                                c,
                                #[trigger] c.worlds[w as int].exports[k],
                            ) by {}
                        }
                        let t_imp = keys_of_items(target, &target.worlds[x].imports);
                        let t_exp = keys_of_items(target, &target.worlds[x].exports);
                        let c_imp = keys_of_items(cand, &cand.worlds[w].imports);
                        let c_exp = keys_of_items(cand, &cand.worlds[w].exports);
                        if !byte_seqs_eq(&t_imp, &c_imp) || !byte_seqs_eq(&t_exp, &c_exp) {
                            proof {
                                assert(world_conflict_at(g0, c, w as int, x as int));
                            }
                            let qname = cand.packages[cw.package].render_qname();
                            proof {
                                assert(c.packages[cw.package as int] == cand.packages@[cw.package as int]@);
                                assert(qname@ == crate::name::pkg_qname(
                                    c.packages[c.worlds[w as int].package],
                                ));
                                assert(conflict_qname_ok(g0, c, qname@));
                            }
                            return Err(DepsError::CompositionConflict { qname });
                        }
                        proof {
                            assert forall|x2: int| !world_conflict_at(g0, c, w as int, x2) by {
                                if 0 <= x2 < g0.worlds.len() && world_conflict_at(
                                    g0,
                                    c,
                                    w as int,
                                    x2,
                                ) {
                                    assert(world_wf(g0, x2));
                                    let q = g0.worlds[x2].package;
                                    assert(g0.packages[q] == g0.packages[pj as int]);
                                    assert(q == pj as int);
                                    assert(x2 == x as int);
                                }
                            }
                        }
                    },
                }
            },
        }
        w += 1;
    }
    assert(forall|w2: int, x: int| !world_conflict_at(g0, c, w2, x));
    assert(!graphs_conflict(g0, c));

    // Pass 3: map or append packages.
    let mut package_map: Vec<usize> = Vec::new();
    let mut p: usize = 0;
    while p < cand.packages.len()
        invariant
            graph_wf(target@),
            cand.wf(),
            c == cand@,
            p <= cand.packages.len(),
            c.packages.len() == cand.packages.len(),
            package_map@.len() == p,
            graph_wf(g0),
            g0.packages.is_prefix_of(target@.packages),
            target@.interfaces == g0.interfaces,
            target@.worlds == g0.worlds,
            forall|q: int|
                0 <= q < p ==> 0 <= #[trigger] package_map@[q] < target@.packages.len()
                    && target@.packages[package_map@[q] as int] == c.packages[q],
            all_entities_matched(g0, c) ==> target@ == g0,
        decreases cand.packages.len() - p,
    {
        assert(c.packages[p as int] == cand.packages@[p as int]@);
        match find_package(target, &cand.packages[p]) {
            Some(q) => {
                package_map.push(q);
            },
            None => {
                proof {
                    if all_entities_matched(g0, c) {
                        assert(exists|q: int|
                            0 <= q < g0.packages.len() && g0.packages[q] == c.packages[p as int]);
                        assert(false);
                    }
                }
                let idx = target.packages.len();
                let ghost before = target@;
                target.packages.push(cand.packages[p].dup());
                package_map.push(idx);
                proof {
                    assert(target@.packages =~= before.packages.push(c.packages[p as int]));
                    assert(target@.interfaces =~= before.interfaces);
                    assert(target@.worlds =~= before.worlds);
                    assert(g0.packages.is_prefix_of(target@.packages));
                    assert forall|w2: int| 0 <= w2 < target@.worlds.len() implies world_wf(
                        target@,
                        w2,
                    ) by {
                        assert(world_wf(before, w2));
                    }
                    assert forall|i2: int| 0 <= i2 < target@.interfaces.len() implies itf_wf(
                        target@,
                        i2,
                    ) by {
                        assert(itf_wf(before, i2));
                    }
                    assert(graph_wf(target@));
                }
            },
        }
        p += 1;
    }
    let ghost g_b = target@;

    // Pass 4: map or append interfaces.
    let mut interface_map: Vec<usize> = Vec::new();
    let mut i: usize = 0;
    while i < cand.interfaces.len()
        invariant
            graph_wf(target@),
            cand.wf(),
            c == cand@,
            i <= cand.interfaces.len(),
            c.interfaces.len() == cand.interfaces.len(),
            interface_map@.len() == i,
            graph_wf(g0),
            forall|i2: int, j: int| !itf_conflict_at(g0, c, i2, j),
            target@.packages == g_b.packages,
            g0.packages.is_prefix_of(target@.packages),
            g0.interfaces.is_prefix_of(target@.interfaces),
            target@.worlds == g0.worlds,
            package_map@.len() == c.packages.len(),
            forall|q: int|
                0 <= q < c.packages.len() ==> 0 <= #[trigger] package_map@[q]
                    < target@.packages.len() && target@.packages[package_map@[q] as int]
                    == c.packages[q],
            forall|i2: int|
                0 <= i2 < i ==> 0 <= #[trigger] interface_map@[i2] < target@.interfaces.len()
                    && target@.interfaces[interface_map@[i2] as int].name == c.interfaces[i2].name
                    && target@.interfaces[interface_map@[i2] as int].package == package_map@[c.interfaces[i2].package as int] as int
                    && target@.interfaces[interface_map@[i2] as int].funcs == c.interfaces[i2].funcs,
            forall|j: int|
                g0.interfaces.len() <= j < target@.interfaces.len() ==> exists|i2: int|
                    0 <= i2 < i && #[trigger] target@.interfaces[j].name == c.interfaces[i2].name
                        && target@.interfaces[j].package == package_map@[c.interfaces[i2].package as int] as int,
            all_entities_matched(g0, c) ==> target@ == g0,
        decreases cand.interfaces.len() - i,
    {
        let ci = &cand.interfaces[i];
        assert(c.interfaces[i as int] == ci@);
        assert(itf_wf(c, i as int));
        let tp = package_map[ci.package];
        assert(target@.packages[tp as int] == c.packages[ci.package as int]);
        match find_interface(target, tp, ci.name.as_slice()) {
            Some(j) => {
                proof {
                    // A freshly appended interface cannot match: its source
                    // candidate interface would share this one's package and
                    // name, which candidate well-formedness forbids.
                    if j as int >= g0.interfaces.len() {
                        let i2 = choose|i2: int|
                            0 <= i2 < i && #[trigger] target@.interfaces[j as int].name
                                == c.interfaces[i2].name && target@.interfaces[j as int].package
                                == package_map@[c.interfaces[i2].package as int] as int;
                        assert(itf_wf(c, i2));
                        assert(package_map@[c.interfaces[i2].package as int]
                            == package_map@[c.interfaces[i as int].package as int]);
                        assert(target@.packages[package_map@[c.interfaces[i2].package as int] as int]
                            == c.packages[c.interfaces[i2].package as int]);
                        assert(c.packages[c.interfaces[i2].package as int] == c.packages[c.interfaces[i as int].package as int]);
                        assert(c.interfaces[i2].package == c.interfaces[i as int].package);
                        assert(false);
                    }
                    // The match lies in the original target, where the
                    // conflict scan proved equal shapes.
                    assert(g0.interfaces[j as int] == target@.interfaces[j as int]);
                    assert(itf_wf(g0, j as int));
                    let q = g0.interfaces[j as int].package;
                    assert(g0.packages[q] == target@.packages[q]);
                    assert(g0.packages[q] == c.packages[ci.package as int]);
                    assert(!itf_conflict_at(g0, c, i as int, j as int));
                    assert(target@.interfaces[j as int].funcs == c.interfaces[i as int].funcs);
                }
                interface_map.push(j);
            },
            None => {
                proof {
                    if all_entities_matched(g0, c) {
                        assert(target@ == g0);
                        assert(c.interfaces[i as int].package == ci.package as int);
                        assert(exists|j: int|
                            0 <= j < g0.interfaces.len() && g0.packages[
                                #[trigger] g0.interfaces[j].package
                            ] == c.packages[c.interfaces[i as int].package] && g0.interfaces[j].name
                                == c.interfaces[i as int].name);
                        let j = choose|j: int|
                            0 <= j < g0.interfaces.len() && g0.packages[
                                #[trigger] g0.interfaces[j].package
                            ] == c.packages[c.interfaces[i as int].package] && g0.interfaces[j].name
                                == c.interfaces[i as int].name;
                        assert(itf_wf(g0, j));
                        assert(g0.packages[g0.interfaces[j].package] == target@.packages[tp as int]);
                        assert(g0.interfaces[j].package == tp as int);
                        assert(false);
                    }
                }
                let idx = target.interfaces.len();
                let ghost before = target@;
                let ni = InterfaceDef {
                    name: copy_bytes(&ci.name),
                    package: tp,
                    funcs: copy_byte_seqs(&ci.funcs),
                };
                assert(ni@.name == c.interfaces[i as int].name && ni@.funcs == c.interfaces[i as int].funcs);
                target.interfaces.push(ni);
                interface_map.push(idx);
                proof {
                    assert(target@.interfaces =~= before.interfaces.push(
                        ItfV {
                            name: c.interfaces[i as int].name,
                            package: tp as int,
                            funcs: c.interfaces[i as int].funcs,
                        },
                    ));
                    assert(target@.packages =~= before.packages);
                    assert(target@.worlds =~= before.worlds);
                    assert(itf_wf(c, i as int));
                    assert forall|i2: int| 0 <= i2 < target@.interfaces.len() implies itf_wf(
                        target@,
                        i2,
                    ) by {
                        if i2 < before.interfaces.len() {
                            assert(itf_wf(before, i2));
                        }
                    }
                    assert forall|w2: int| 0 <= w2 < target@.worlds.len() implies world_wf(
                        target@,
                        w2,
                    ) by {
                        assert(world_wf(before, w2));
                    }
                    assert(graph_wf(target@));
                }
            },
        }
        i += 1;
    }
    let ghost g_c = target@;

    // Pass 5: map or append worlds, remapping item identifiers.
    let mut world_map: Vec<usize> = Vec::new();
    let mut w: usize = 0;
    while w < cand.worlds.len()
        invariant
            graph_wf(target@),
            cand.wf(),
            c == cand@,
            w <= cand.worlds.len(),
            c.worlds.len() == cand.worlds.len(),
            world_map@.len() == w,
            graph_wf(g0),
            forall|w2: int, x: int| !world_conflict_at(g0, c, w2, x),
            target@.packages == g_c.packages,
            target@.interfaces == g_c.interfaces,
            g0.packages.is_prefix_of(target@.packages),
            g0.interfaces.is_prefix_of(target@.interfaces),
            g0.worlds.is_prefix_of(target@.worlds),
            package_map@.len() == c.packages.len(),
            forall|q: int|
                0 <= q < c.packages.len() ==> 0 <= #[trigger] package_map@[q]
                    < target@.packages.len() && target@.packages[package_map@[q] as int]
                    == c.packages[q],
            interface_map@.len() == c.interfaces.len(),
            forall|i2: int|
                0 <= i2 < c.interfaces.len() ==> 0 <= #[trigger] interface_map@[i2]
                    < target@.interfaces.len() && target@.interfaces[interface_map@[i2] as int].name
                    == c.interfaces[i2].name && target@.interfaces[interface_map@[i2] as int].package
                    == package_map@[c.interfaces[i2].package as int] as int
                    && target@.interfaces[interface_map@[i2] as int].funcs == c.interfaces[i2].funcs,
            forall|w2: int|
                0 <= w2 < w ==> 0 <= #[trigger] world_map@[w2] < target@.worlds.len()
                    && target@.worlds[world_map@[w2] as int].name == c.worlds[w2].name
                    && target@.worlds[world_map@[w2] as int].package == package_map@[c.worlds[w2].package as int] as int
                    && items_keys(target@, target@.worlds[world_map@[w2] as int].imports)
                    == items_keys(c, c.worlds[w2].imports) && items_keys(
                    target@,
                    target@.worlds[world_map@[w2] as int].exports,
                ) == items_keys(c, c.worlds[w2].exports),
            forall|x: int|
                g0.worlds.len() <= x < target@.worlds.len() ==> exists|w2: int|
                    0 <= w2 < w && #[trigger] target@.worlds[x].name == c.worlds[w2].name
                        && target@.worlds[x].package == package_map@[c.worlds[w2].package as int] as int,
            all_entities_matched(g0, c) ==> target@ == g0,
        decreases cand.worlds.len() - w,
    {
        let cw = &cand.worlds[w];
        assert(c.worlds[w as int] == cw@);
        assert(world_wf(c, w as int));
        let tp = package_map[cw.package];
        assert(target@.packages[tp as int] == c.packages[cw.package as int]);
        match find_world(target, tp, cw.name.as_slice()) {
            Some(x) => {
                proof {
                    if x as int >= g0.worlds.len() {
                        let w2 = choose|w2: int|
                            0 <= w2 < w && #[trigger] target@.worlds[x as int].name
                                == c.worlds[w2].name && target@.worlds[x as int].package
                                == package_map@[c.worlds[w2].package as int] as int;
                        assert(world_wf(c, w2));
                        assert(package_map@[c.worlds[w2].package as int]
                            == package_map@[c.worlds[w as int].package as int]);
                        assert(target@.packages[package_map@[c.worlds[w2].package as int] as int]
                            == c.packages[c.worlds[w2].package as int]);
                        assert(c.packages[c.worlds[w2].package as int] == c.packages[c.worlds[w as int].package as int]);
                        assert(c.worlds[w2].package == c.worlds[w as int].package);
                        assert(false);
                    }
                    assert(g0.worlds[x as int] == target@.worlds[x as int]);
                    assert(world_wf(g0, x as int));
                    let q = g0.worlds[x as int].package;
                    assert(g0.packages[q] == target@.packages[q]);
                    assert(g0.packages[q] == c.packages[cw.package as int]);
                    assert(!world_conflict_at(g0, c, w as int, x as int));
                    assert(items_keys(g0, g0.worlds[x as int].imports) == items_keys(
                        c,
                        c.worlds[w as int].imports,
                    ));
                    assert(items_keys(g0, g0.worlds[x as int].exports) == items_keys(
                        c,
                        c.worlds[w as int].exports,
                    ));
                    lemma_items_keys_stable(g0, target@, g0.worlds[x as int].imports);
                    lemma_items_keys_stable(g0, target@, g0.worlds[x as int].exports);
                }
                world_map.push(x);
            },
            None => {
                proof {
                    if all_entities_matched(g0, c) {
                        assert(target@ == g0);
                        assert(c.worlds[w as int].package == cw.package as int);
                        assert(exists|x: int|
                            0 <= x < g0.worlds.len() && g0.packages[
                                #[trigger] g0.worlds[x].package
                            ] == c.packages[c.worlds[w as int].package] && g0.worlds[x].name
                                == c.worlds[w as int].name);
                        let x = choose|x: int|
                            0 <= x < g0.worlds.len() && g0.packages[
                                #[trigger] g0.worlds[x].package
                            ] == c.packages[c.worlds[w as int].package] && g0.worlds[x].name
                                == c.worlds[w as int].name;
                        assert(world_wf(g0, x));
                        assert(g0.packages[g0.worlds[x].package] == target@.packages[tp as int]);
                        assert(g0.worlds[x].package == tp as int);
                        assert(false);
                    }
                }
                proof {
                    assert forall|i2: int| 0 <= i2 < c.interfaces.len() implies 0 <= #[trigger] interface_map@[i2] < target@.interfaces.len() && itf_key(
                        target@,
                        interface_map@[i2] as int,
                    ) == itf_key(c, i2) by {
                        assert(itf_wf(c, i2));
                        let j = interface_map@[i2] as int;
                        let p = c.interfaces[i2].package as int;
                        assert(target@.interfaces[j].package == package_map@[p] as int);
                        assert(target@.packages[package_map@[p] as int] == c.packages[p]);
                    }
                    assert(cand.worlds@[w as int]@.imports == c.worlds[w as int].imports);
                    assert(cand.worlds@[w as int]@.exports == c.worlds[w as int].exports);
                }
                let new_imports = remap_items(target, cand, &cand.worlds[w].imports, &interface_map);
                let new_exports = remap_items(target, cand, &cand.worlds[w].exports, &interface_map);
                let idx = target.worlds.len();
                let ghost before = target@;
                let nw = WorldDef {
                    name: copy_bytes(&cw.name),
                    package: tp,
                    imports: new_imports,
                    exports: new_exports,
                };
                target.worlds.push(nw);
                world_map.push(idx);
                proof {
                    assert(target@.packages =~= before.packages);
                    assert(target@.interfaces =~= before.interfaces);
                    assert(target@.worlds =~= before.worlds.push(nw@));
                    assert forall|i2: int| 0 <= i2 < target@.interfaces.len() implies itf_wf(
                        target@,
                        i2,
                    ) by {
                        assert(itf_wf(before, i2));
                    }
                    assert forall|w2: int| 0 <= w2 < target@.worlds.len() implies world_wf(
                        target@,
                        w2,
                    ) by {
                        if w2 < before.worlds.len() {
                            assert(world_wf(before, w2));
                        }
                    }
                    assert(graph_wf(target@));
                    assert(items_keys(target@, target@.worlds[idx as int].imports) == items_keys(
                        c,
                        c.worlds[w as int].imports,
                    ));
                    assert(items_keys(target@, target@.worlds[idx as int].exports) == items_keys(
                        c,
                        c.worlds[w as int].exports,
                    ));
                }
            },
        }
        w += 1;
    }

    let tr = IdTranslation { package_map, interface_map, world_map };
    proof {
        assert forall|i2: int| 0 <= i2 < c.interfaces.len() implies {
            &&& 0 <= #[trigger] tr.interface_map@[i2] < target@.interfaces.len()
            &&& target@.interfaces[tr.interface_map@[i2] as int].name == c.interfaces[i2].name
            &&& target@.packages[target@.interfaces[tr.interface_map@[i2] as int].package]
                == c.packages[c.interfaces[i2].package]
            &&& target@.interfaces[tr.interface_map@[i2] as int].funcs == c.interfaces[i2].funcs
            &&& itf_key(target@, tr.interface_map@[i2] as int) == itf_key(c, i2)
        } by {
            assert(itf_wf(c, i2));
            let j = tr.interface_map@[i2] as int;
            assert(0 <= interface_map@[i2] < target@.interfaces.len());
            let p = c.interfaces[i2].package as int;
            assert(target@.interfaces[j].package == package_map@[p] as int);
            assert(target@.packages[package_map@[p] as int] == c.packages[p]);
        }
        assert forall|w2: int| 0 <= w2 < c.worlds.len() implies {
            &&& 0 <= #[trigger] tr.world_map@[w2] < target@.worlds.len()
            &&& target@.worlds[tr.world_map@[w2] as int].name == c.worlds[w2].name
            &&& target@.packages[target@.worlds[tr.world_map@[w2] as int].package] == c.packages[c.worlds[w2].package]
            &&& items_keys(target@, target@.worlds[tr.world_map@[w2] as int].imports) == items_keys(
                c,
                c.worlds[w2].imports,
            )
            &&& items_keys(target@, target@.worlds[tr.world_map@[w2] as int].exports) == items_keys(
                c,
                c.worlds[w2].exports,
            )
        } by {
            assert(world_wf(c, w2));
            let x = tr.world_map@[w2] as int;
            assert(0 <= world_map@[w2] < target@.worlds.len());
            let p = c.worlds[w2].package as int;
            assert(target@.worlds[x].package == package_map@[p] as int);
            assert(target@.packages[package_map@[p] as int] == c.packages[p]);
        }
        assert(merged_ok(g0, target@, c, tr));
    }
    Ok(tr)
}

/// Whether some item of `items` has this key under `g`.
pub open spec fn has_key(g: GraphV, items: Seq<ItemV>, key: Seq<u8>) -> bool {
    exists|k: int| 0 <= k < items.len() && item_key(g, #[trigger] items[k]) == key
}

/// Union-merge of world items: each added item is skipped when an item with
/// its key is already present, and appended otherwise; prior entries never
/// reorder.
pub open spec fn union_items(g: GraphV, base: Seq<ItemV>, add: Seq<ItemV>) -> Seq<ItemV>
    decreases add.len(),
{
    if add.len() == 0 {
        base
    } else {
        let base2 = if has_key(g, base, item_key(g, add[0])) {
            base
        } else {
            base.push(add[0])
        };
        union_items(g, base2, add.drop_first())
    }
}

/// Union-merge at the level of keys alone.
pub open spec fn union_keys(base: Seq<Seq<u8>>, add: Seq<Seq<u8>>) -> Seq<Seq<u8>>
    decreases add.len(),
{
    if add.len() == 0 {
        base
    } else {
        let base2 = if base.contains(add[0]) {
            base
        } else {
            base.push(add[0])
        };
        union_keys(base2, add.drop_first())
    }
}

/// The keys of a union of items are the union of the keys.
pub proof fn lemma_union_items_keys(g: GraphV, base: Seq<ItemV>, add: Seq<ItemV>)
    ensures
        items_keys(g, union_items(g, base, add)) == union_keys(
            items_keys(g, base),
            items_keys(g, add),
        ),
    decreases add.len(),
{
    if add.len() == 0 {
        assert(items_keys(g, add) =~= Seq::<Seq<u8>>::empty());
    } else {
        let key0 = item_key(g, add[0]);
        assert(items_keys(g, add)[0] == key0);
        assert(has_key(g, base, key0) == items_keys(g, base).contains(key0)) by {
            if has_key(g, base, key0) {
                let k = choose|k: int|
                    0 <= k < base.len() && item_key(g, #[trigger] base[k]) == key0;
                assert(items_keys(g, base)[k] == key0);
            }
            if items_keys(g, base).contains(key0) {
                let k = choose|k: int|
                    0 <= k < items_keys(g, base).len() && items_keys(g, base)[k] == key0;
                assert(item_key(g, base[k]) == key0);
            }
        }
        let base2 = if has_key(g, base, key0) {
            base
        } else {
            base.push(add[0])
        };
        assert(items_keys(g, base2) =~= if items_keys(g, base).contains(key0) {
            items_keys(g, base)
        } else {
            items_keys(g, base).push(key0)
        });
        lemma_union_items_keys(g, base2, add.drop_first());
        assert(items_keys(g, add.drop_first()) =~= items_keys(g, add).drop_first());
    }
}

/// Adding items whose keys are all present leaves the base unchanged.
pub proof fn lemma_union_items_absorbed(g: GraphV, base: Seq<ItemV>, add: Seq<ItemV>)
    requires
        forall|j: int|
            0 <= j < add.len() ==> items_keys(g, base).contains(item_key(g, #[trigger] add[j])),
    ensures
        union_items(g, base, add) == base,
    decreases add.len(),
{
    if add.len() > 0 {
        let key0 = item_key(g, add[0]);
        assert(items_keys(g, base).contains(key0));
        assert(has_key(g, base, key0)) by {
            let k = choose|k: int|
                0 <= k < items_keys(g, base).len() && items_keys(g, base)[k] == key0;
            assert(item_key(g, base[k]) == key0);
        }
        assert forall|j: int|
            0 <= j < add.drop_first().len() implies items_keys(g, base).contains(
            item_key(g, #[trigger] add.drop_first()[j]),
        ) by {
            assert(add.drop_first()[j] == add[j + 1]);
        }
        lemma_union_items_absorbed(g, base, add.drop_first());
    }
}

/// Every key of the base and of the added items appears in the union.
pub proof fn lemma_union_keys_complete(base: Seq<Seq<u8>>, add: Seq<Seq<u8>>)
    ensures
        forall|key: Seq<u8>|
            #[trigger] union_keys(base, add).contains(key) <==> (base.contains(key)
                || add.contains(key)),
    decreases add.len(),
{
    if add.len() == 0 {
        assert forall|key: Seq<u8>| !add.contains(key) by {}
    } else {
        let base2 = if base.contains(add[0]) {
            base
        } else {
            base.push(add[0])
        };
        lemma_union_keys_complete(base2, add.drop_first());
        assert forall|key: Seq<u8>|
            #[trigger] union_keys(base, add).contains(key) <==> (base.contains(key)
                || add.contains(key)) by {
            assert(union_keys(base, add) == union_keys(base2, add.drop_first()));
            if base2.contains(key) {
                if !base.contains(key) {
                    let k = choose|k: int| 0 <= k < base2.len() && base2[k] == key;
                    if k < base.len() {
                        assert(base.contains(key));
                    } else {
                        assert(key == add[0]);
                    }
                }
            }
            if add.contains(key) {
                let k = choose|k: int| 0 <= k < add.len() && add[k] == key;
                if k == 0 {
                    assert(base2.contains(add[0]) || base2.contains(key)) by {
                        if !base.contains(add[0]) {
                            assert(base2[base.len() as int] == add[0]);
                        }
                    }
                } else {
                    assert(add.drop_first()[k - 1] == key);
                    assert(add.drop_first().contains(key));
                }
            }
            if base.contains(key) {
                let k = choose|k: int| 0 <= k < base.len() && base[k] == key;
                assert(base2[k] == key);
                assert(base2.contains(key));
            }
            if union_keys(base2, add.drop_first()).contains(key) {
                if !base2.contains(key) {
                    assert(add.drop_first().contains(key));
                    let k = choose|k: int|
                        0 <= k < add.drop_first().len() && add.drop_first()[k] == key;
                    assert(add[k + 1] == key);
                }
            }
        }
    }
}

/// Merging the same import set twice yields exactly the import list the
/// first merge produced: re-adding an already-present qualified name is a
/// no-op.
pub proof fn lemma_union_idempotent(g: GraphV, base: Seq<ItemV>, add: Seq<ItemV>)
    ensures
        union_items(g, union_items(g, base, add), add) == union_items(g, base, add),
{
    let u = union_items(g, base, add);
    lemma_union_items_keys(g, base, add);
    lemma_union_keys_complete(items_keys(g, base), items_keys(g, add));
    assert forall|j: int|
        0 <= j < add.len() implies items_keys(g, u).contains(item_key(g, #[trigger] add[j])) by {
        assert(items_keys(g, add)[j] == item_key(g, add[j]));
        assert(items_keys(g, add).contains(item_key(g, add[j])));
    }
    lemma_union_items_absorbed(g, u, add);
}

/// Adding keys that are all present already changes nothing.
pub proof fn lemma_union_keys_absorbed(base: Seq<Seq<u8>>, add: Seq<Seq<u8>>)
    requires
        forall|j: int| 0 <= j < add.len() ==> base.contains(#[trigger] add[j]),
    ensures
        union_keys(base, add) == base,
    decreases add.len(),
{
    if add.len() > 0 {
        assert(base.contains(add[0]));
        assert forall|j: int|
            0 <= j < add.drop_first().len() implies base.contains(
            #[trigger] add.drop_first()[j],
        ) by {
            assert(add.drop_first()[j] == add[j + 1]);
        }
        lemma_union_keys_absorbed(base, add.drop_first());
    }
}

/// Adding the same capability set twice yields an import list identical to
/// adding it once: re-adding an already-present qualified name is a no-op
/// on the aggregate.
pub proof fn lemma_union_keys_idempotent(base: Seq<Seq<u8>>, add: Seq<Seq<u8>>)
    ensures
        union_keys(union_keys(base, add), add) == union_keys(base, add),
{
    let u = union_keys(base, add);
    lemma_union_keys_complete(base, add);
    assert forall|j: int| 0 <= j < add.len() implies u.contains(#[trigger] add[j]) by {
        assert(add.contains(add[j]));
    }
    lemma_union_keys_absorbed(u, add);
}

/// Merging `{a1}` then `{a2}` reaches the same import set as merging the
/// concatenation `a1 + a2` in one pass; only the first-seen order may
/// differ.
pub proof fn lemma_union_order_independent(base: Seq<Seq<u8>>, a1: Seq<Seq<u8>>, a2: Seq<Seq<u8>>)
    ensures
        union_keys(union_keys(base, a1), a2).to_set() == union_keys(base, a1 + a2).to_set(),
{
    lemma_union_keys_complete(base, a1);
    lemma_union_keys_complete(union_keys(base, a1), a2);
    lemma_union_keys_complete(base, a1 + a2);
    assert forall|key: Seq<u8>|
        union_keys(union_keys(base, a1), a2).contains(key) <==> union_keys(
            base,
            a1 + a2,
        ).contains(key) by {
        if a1.contains(key) {
            let k = choose|k: int| 0 <= k < a1.len() && a1[k] == key;
            assert((a1 + a2)[k] == key);
            assert((a1 + a2).contains(key));
        }
        if a2.contains(key) {
            let k = choose|k: int| 0 <= k < a2.len() && a2[k] == key;
            assert((a1 + a2)[a1.len() + k] == key);
            assert((a1 + a2).contains(key));
        }
        if (a1 + a2).contains(key) {
            let k = choose|k: int| 0 <= k < (a1 + a2).len() && (a1 + a2)[k] == key;
            if k < a1.len() {
                assert(a1[k] == key);
            } else {
                assert(a2[k - a1.len()] == key);
            }
        }
    }
    assert forall|key: Seq<u8>|
        #[trigger] union_keys(union_keys(base, a1), a2).to_set().contains(key) <==> union_keys(
            base,
            a1 + a2,
        ).to_set().contains(key) by {
        vstd::seq_lib::seq_to_set_is_finite(union_keys(union_keys(base, a1), a2));
    }
    assert(union_keys(union_keys(base, a1), a2).to_set() =~= union_keys(base, a1 + a2).to_set());
}

/// Returns a copy of a list of world items.
pub fn copy_items(items: &Vec<WorldItem>) -> (r: Vec<WorldItem>)
    ensures
        r.deep_view() == items.deep_view(),
{
    let mut out: Vec<WorldItem> = Vec::new();
    let mut k: usize = 0;
    while k < items.len()
        invariant
            k <= items.len(),
            items.deep_view().len() == items@.len(),
            out.deep_view() == items.deep_view().subrange(0, k as int),
        decreases items.len() - k,
    {
        assert(items.deep_view()[k as int] == items@[k as int]@);
        let ghost pre = out.deep_view();
        out.push(item_dup(&items[k]));
        proof {
            let cur = items.deep_view().subrange(0, k + 1 as int);
            assert(cur.drop_last() =~= items.deep_view().subrange(0, k as int));
            assert(out.deep_view() =~= pre.push(items.deep_view()[k as int]));
            assert(cur =~= pre.push(items.deep_view()[k as int]));
        }
        k += 1;
    }
    assert(items.deep_view().subrange(0, items@.len() as int) =~= items.deep_view());
    out
}

/// Returns whether `key` occurs in the list of keys.
pub fn contains_byte_key(keys: &Vec<Vec<u8>>, key: &Vec<u8>) -> (r: bool)
    ensures
        r == keys.deep_view().contains(key@),
{
    let mut k: usize = 0;
    while k < keys.len()
        invariant
            k <= keys.len(),
            keys.deep_view().len() == keys@.len(),
            forall|j: int| 0 <= j < k ==> keys.deep_view()[j] != key@,
        decreases keys.len() - k,
    {
        assert(keys.deep_view()[k as int] == keys@[k as int]@);
        if bytes_eq(keys[k].as_slice(), key.as_slice()) {
            assert(keys.deep_view().contains(key@));
            return true;
        }
        k += 1;
    }
    assert forall|j: int| 0 <= j < keys.deep_view().len() implies keys.deep_view()[j] != key@ by {}
    false
}

/// Union-merges the imports of world `src` into world `dst`: entries whose
/// qualified name is already present are skipped, all others are appended,
/// and prior entries never reorder.
pub fn merge_world_imports(g: &mut CapabilityGraph, dst: usize, src: usize)
    requires
        old(g).wf(),
        dst < old(g)@.worlds.len(),
        src < old(g)@.worlds.len(),
    ensures
        final(g).wf(),
        final(g)@.packages == old(g)@.packages,
        final(g)@.interfaces == old(g)@.interfaces,
        final(g)@.worlds == old(g)@.worlds.update(
            dst as int,
            WorldV {
                name: old(g)@.worlds[dst as int].name,
                package: old(g)@.worlds[dst as int].package,
                imports: union_items(
                    old(g)@,
                    old(g)@.worlds[dst as int].imports,
                    old(g)@.worlds[src as int].imports,
                ),
                exports: old(g)@.worlds[dst as int].exports,
            },
        ),
{
    let ghost g0 = g@;
    assert(world_wf(g0, dst as int));
    assert(world_wf(g0, src as int));
    proof {
        assert(g.worlds@[dst as int]@ == g0.worlds[dst as int]);
        assert(g.worlds@[src as int]@ == g0.worlds[src as int]);
        assert forall|k: int|
            0 <= k < g0.worlds[dst as int].imports.len() implies item_wf(
            g0,
            #[trigger] g0.worlds[dst as int].imports[k],
        ) by {}
        assert forall|k: int|
            0 <= k < g0.worlds[src as int].imports.len() implies item_wf(
            g0,
            #[trigger] g0.worlds[src as int].imports[k],
        ) by {}
    }
    let mut new_imports = copy_items(&g.worlds[dst].imports);
    let mut keys = keys_of_items(g, &g.worlds[dst].imports);
    proof {
        assert(keys.deep_view() == items_keys(g0, new_imports.deep_view()));
    }
    let ghost base = g0.worlds[dst as int].imports;
    let ghost add = g0.worlds[src as int].imports;
    proof {
        assert(new_imports.deep_view() == base);
        assert(add.subrange(0, add.len() as int) =~= add);
    }
    let n = g.worlds[src].imports.len();
    let mut k: usize = 0;
    while k < n
        invariant
            g@ == g0,
            graph_wf(g0),
            dst < g0.worlds.len(),
            src < g0.worlds.len(),
            world_wf(g0, dst as int),
            world_wf(g0, src as int),
            base == g0.worlds[dst as int].imports,
            add == g0.worlds[src as int].imports,
            n == add.len(),
            k <= n,
            forall|k2: int| 0 <= k2 < add.len() ==> item_wf(g0, #[trigger] add[k2]),
            forall|k2: int|
                0 <= k2 < new_imports.deep_view().len() ==> item_wf(
                    g0,
                    #[trigger] new_imports.deep_view()[k2],
                ),
            keys.deep_view() == items_keys(g0, new_imports.deep_view()),
            union_items(g0, base, add) == union_items(
                g0,
                new_imports.deep_view(),
                add.subrange(k as int, add.len() as int),
            ),
        decreases n - k,
    {
        proof {
            assert(g.worlds@[src as int]@ == g0.worlds[src as int]);
            assert(g0.worlds[src as int].imports[k as int] == g.worlds@[src as int].imports@[k as int]@);
        }
        let it = &g.worlds[src].imports[k];
        assert(it@ == add[k as int]);
        let key = crate::graph::item_key_of(g, it);
        let ghost rest = add.subrange(k as int, add.len() as int);
        proof {
            assert(rest[0] == add[k as int]);
            assert(rest.drop_first() =~= add.subrange(k + 1, add.len() as int));
            assert(has_key(g0, new_imports.deep_view(), key@) == keys.deep_view().contains(key@))
                by {
                if has_key(g0, new_imports.deep_view(), key@) {
                    let k2 = choose|k2: int|
                        0 <= k2 < new_imports.deep_view().len() && item_key(
                            g0,
                            #[trigger] new_imports.deep_view()[k2],
                        ) == key@;
                    assert(keys.deep_view()[k2] == key@);
                }
                if keys.deep_view().contains(key@) {
                    let k2 = choose|k2: int|
                        0 <= k2 < keys.deep_view().len() && keys.deep_view()[k2] == key@;
                    assert(item_key(g0, new_imports.deep_view()[k2]) == key@);
                }
            }
        }
        if !contains_byte_key(&keys, &key) {
            let ghost pre = new_imports.deep_view();
            let ghost pre_keys = keys.deep_view();
            new_imports.push(item_dup(it));
            keys.push(key);
            proof {
                assert(new_imports.deep_view() =~= pre.push(add[k as int]));
                assert(keys.deep_view() =~= pre_keys.push(item_key(g0, add[k as int])));
                assert(items_keys(g0, new_imports.deep_view()) =~= items_keys(g0, pre).push(
                    item_key(g0, add[k as int]),
                ));
            }
        }
        k += 1;
    }
    proof {
        assert(add.subrange(n as int, add.len() as int) =~= Seq::<ItemV>::empty());
        assert(union_items(g0, base, add) == new_imports.deep_view());
    }
    let name = copy_bytes(&g.worlds[dst].name);
    let package = g.worlds[dst].package;
    let exports = copy_items(&g.worlds[dst].exports);
    let nw = WorldDef { name, package, imports: new_imports, exports };
    proof {
        assert(nw@.name == g0.worlds[dst as int].name);
        assert(nw@.exports == g0.worlds[dst as int].exports);
    }
    vstd::pervasive::VecAdditionalExecFns::set(&mut g.worlds, dst, nw);
    proof {
        assert(g@.worlds =~= g0.worlds.update(dst as int, nw@));
        assert(g@.packages =~= g0.packages);
        assert(g@.interfaces =~= g0.interfaces);
        assert forall|i2: int| 0 <= i2 < g@.interfaces.len() implies itf_wf(g@, i2) by {
            assert(itf_wf(g0, i2));
        }
        assert forall|w2: int| 0 <= w2 < g@.worlds.len() implies world_wf(g@, w2) by {
            if w2 != dst as int {
                assert(g@.worlds[w2] == g0.worlds[w2]);
                assert(world_wf(g0, w2));
            } else {
                assert(world_wf(g0, dst as int));
                lemma_union_items_wf(g0, base, add);
            }
        }
        assert(graph_wf(g@));
    }
}

/// Every item of a union of well-formed items is well-formed.
pub proof fn lemma_union_items_wf(g: GraphV, base: Seq<ItemV>, add: Seq<ItemV>)
    requires
        forall|k: int| 0 <= k < base.len() ==> item_wf(g, #[trigger] base[k]),
        forall|k: int| 0 <= k < add.len() ==> item_wf(g, #[trigger] add[k]),
    ensures
        forall|k: int|
            0 <= k < union_items(g, base, add).len() ==> item_wf(
                g,
                #[trigger] union_items(g, base, add)[k],
            ),
    decreases add.len(),
{
    if add.len() == 0 {
        assert(union_items(g, base, add) == base);
    } else {
        let base2 = if has_key(g, base, item_key(g, add[0])) {
            base
        } else {
            base.push(add[0])
        };
        assert forall|k: int| 0 <= k < base2.len() implies item_wf(g, #[trigger] base2[k]) by {
            if k == base.len() {
                assert(base2[k] == add[0]);
            }
        }
        assert forall|k: int|
            0 <= k < add.drop_first().len() implies item_wf(g, #[trigger] add.drop_first()[k]) by {
            assert(add.drop_first()[k] == add[k + 1]);
        }
        lemma_union_items_wf(g, base2, add.drop_first());
        assert(union_items(g, base, add) == union_items(g, base2, add.drop_first()));
    }
}

/// Copies world items, translating interface identifiers through the map.
/// Keys are preserved: the translated interface carries the same qualified
/// name.
fn remap_items(
    target: &CapabilityGraph,
    cand: &CapabilityGraph,
    items: &Vec<WorldItem>,
    interface_map: &Vec<usize>,
) -> (r: Vec<WorldItem>)
    requires
        graph_wf(target@),
        cand.wf(),
        forall|k: int| 0 <= k < items.deep_view().len() ==> item_wf(cand@, #[trigger] items.deep_view()[k]),
        interface_map@.len() == cand@.interfaces.len(),
        forall|i2: int|
            0 <= i2 < cand@.interfaces.len() ==> 0 <= #[trigger] interface_map@[i2]
                < target@.interfaces.len() && itf_key(target@, interface_map@[i2] as int)
                == itf_key(cand@, i2),
    ensures
        r.deep_view().len() == items.deep_view().len(),
        forall|k: int| 0 <= k < r.deep_view().len() ==> item_wf(target@, #[trigger] r.deep_view()[k]),
        items_keys(target@, r.deep_view()) == items_keys(cand@, items.deep_view()),
{
    let mut out: Vec<WorldItem> = Vec::new();
    let mut k: usize = 0;
    while k < items.len()
        invariant
            graph_wf(target@),
            cand.wf(),
            k <= items.len(),
            items.deep_view().len() == items@.len(),
            forall|k2: int|
                0 <= k2 < items.deep_view().len() ==> item_wf(
                    cand@,
                    #[trigger] items.deep_view()[k2],
                ),
            interface_map@.len() == cand@.interfaces.len(),
            forall|i2: int|
                0 <= i2 < cand@.interfaces.len() ==> 0 <= #[trigger] interface_map@[i2]
                    < target@.interfaces.len() && itf_key(target@, interface_map@[i2] as int)
                    == itf_key(cand@, i2),
            out.deep_view().len() == k,
            forall|k2: int|
                0 <= k2 < k ==> item_wf(target@, #[trigger] out.deep_view()[k2]),
            items_keys(target@, out.deep_view()) == items_keys(
                cand@,
                items.deep_view().subrange(0, k as int),
            ),
        decreases items.len() - k,
    {
        assert(items.deep_view()[k as int] == items@[k as int]@);
        let ghost pre = out.deep_view();
        let it = &items[k];
        let ni = match it {
            WorldItem::Interface { id } => {
                assert(item_wf(cand@, it@));
                WorldItem::Interface { id: interface_map[*id] }
            },
            WorldItem::Function { name } => WorldItem::Function { name: copy_bytes(name) },
            WorldItem::Type { name } => WorldItem::Type { name: copy_bytes(name) },
        };
        proof {
            assert(item_wf(target@, ni@));
            assert(item_key(target@, ni@) == item_key(cand@, it@));
        }
        out.push(ni);
        proof {
            let cur = items.deep_view().subrange(0, k + 1 as int);
            assert(cur.drop_last() =~= items.deep_view().subrange(0, k as int));
            assert(out.deep_view() =~= pre.push(ni@));
            assert(items_keys(target@, out.deep_view()) =~= items_keys(target@, pre).push(
                item_key(target@, ni@),
            ));
            assert(items_keys(cand@, cur) =~= items_keys(cand@, cur.drop_last()).push(
                item_key(cand@, items.deep_view()[k as int]),
            ));
        }
        k += 1;
    }
    assert(items.deep_view().subrange(0, items@.len() as int) =~= items.deep_view());
    out
}

} // verus!
