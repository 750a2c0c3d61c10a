//! The interface enumerator and world selection: walking a world's exports,
//! keeping the interface references, grouping them by owning package, and
//! the importize transform that turns a package's exported capability set
//! into an equivalent import-only world.

use vstd::prelude::*;

use crate::DepsError;
use crate::graph::{
    graph_wf, item_wf, itf_wf, world_wf, CapabilityGraph, GraphV, ItemV, WorldDef, WorldItem,
};
use crate::name::{copy_bytes, PackageName, PkgName};

verus! {

broadcast use crate::bytes::lemma_bytes_deep_view;

/// The (package name, interface name) pairs of the interface references
/// among these world items, in order.
pub open spec fn exported_pairs(g: GraphV, items: Seq<ItemV>) -> Seq<(PkgName, Seq<u8>)>
    decreases items.len(),
{
    if items.len() == 0 {
        Seq::<(PkgName, Seq<u8>)>::empty()
    } else {
        exported_pairs(g, items.drop_last()) + match items.last() {
            ItemV::Itf { id } => seq![
                (g.packages[g.interfaces[id].package], g.interfaces[id].name),
            ],
            ItemV::Func { name } => Seq::<(PkgName, Seq<u8>)>::empty(),
            ItemV::Ty { name } => Seq::<(PkgName, Seq<u8>)>::empty(),
        }
    }
}

/// The views of a list of executable pairs.
pub open spec fn pair_views(s: Seq<(PackageName, Vec<u8>)>) -> Seq<(PkgName, Seq<u8>)> {
    s.map_values(|pr: (PackageName, Vec<u8>)| (pr.0@, pr.1@))
}

/// Walks the world's export entries and retains only interface references,
/// each with its owning package's qualified name.
pub fn get_exported_interfaces(g: &CapabilityGraph, world: usize) -> (r: Vec<(PackageName, Vec<u8>)>)
    requires
        g.wf(),
        world < g@.worlds.len(),
    ensures
        pair_views(r@) == exported_pairs(g@, g@.worlds[world as int].exports),
{
    let ghost gv = g@;
    let ghost exps = gv.worlds[world as int].exports;
    proof {
        assert(world_wf(gv, world as int));
        assert(gv.worlds[world as int] == g.worlds@[world as int]@);
    }
    let mut out: Vec<(PackageName, Vec<u8>)> = Vec::new();
    let n = g.worlds[world].exports.len();
    let mut k: usize = 0;
    proof {
        assert(exps.subrange(0, 0) =~= Seq::<ItemV>::empty());
        assert(pair_views(out@) =~= Seq::<(PkgName, Seq<u8>)>::empty());
    }
    while k < n
        invariant
            g.wf(),
            gv == g@,
            world < gv.worlds.len(),
            exps == gv.worlds[world as int].exports,
            n == exps.len(),
            k <= n,
            pair_views(out@) == exported_pairs(gv, exps.subrange(0, k as int)),
        decreases n - k,
    {
        proof {
            assert(gv.worlds[world as int] == g.worlds@[world as int]@);
            assert(exps[k as int] == g.worlds@[world as int].exports@[k as int]@);
            assert(world_wf(gv, world as int));
            assert(item_wf(gv, exps[k as int]));
        }
        let ghost pre = pair_views(out@);
        let it = &g.worlds[world].exports[k];
        match it {
            WorldItem::Interface { id } => {
                proof {
                    assert(itf_wf(gv, *id as int));
                    assert(gv.interfaces[*id as int] == g.interfaces@[*id as int]@);
                }
                let itf = &g.interfaces[*id];
                proof {
                    assert(gv.packages[itf.package as int] == g.packages@[itf.package as int]@);
                }
                let pkg = g.packages[itf.package].dup();
                let name = copy_bytes(&itf.name);
                out.push((pkg, name));
                proof {
                    assert(pair_views(out@) =~= pre.push(
                        (
                            gv.packages[gv.interfaces[*id as int].package],
                            gv.interfaces[*id as int].name,
                        ),
                    ));
                }
            },
            WorldItem::Function { name } => {},
            WorldItem::Type { name } => {},
        }
        proof {
            let cur = exps.subrange(0, k + 1 as int);
            assert(cur.drop_last() =~= exps.subrange(0, k as int));
            assert(cur.last() == exps[k as int]);
        }
        k += 1;
    }
    proof {
        assert(exps.subrange(0, n as int) =~= exps);
    }
    out
}

/// Inserts one (package, interface) pair into grouped form: the name joins
/// its package's group, or opens a new group at the end.
pub open spec fn group_insert(
    groups: Seq<(PkgName, Seq<Seq<u8>>)>,
    p: PkgName,
    n: Seq<u8>,
) -> Seq<(PkgName, Seq<Seq<u8>>)>
    decreases groups.len(),
{
    if groups.len() == 0 {
        seq![(p, seq![n])]
    } else if groups[0].0 == p {
        seq![(groups[0].0, groups[0].1.push(n))] + groups.drop_first()
    } else {
        seq![groups[0]] + group_insert(groups.drop_first(), p, n)
    }
}

/// Groups pairs by package, preserving first-seen package order and each
/// package's interface order.
pub open spec fn group_pairs(pairs: Seq<(PkgName, Seq<u8>)>) -> Seq<(PkgName, Seq<Seq<u8>>)>
    decreases pairs.len(),
{
    if pairs.len() == 0 {
        Seq::<(PkgName, Seq<Seq<u8>>)>::empty()
    } else {
        group_insert(group_pairs(pairs.drop_last()), pairs.last().0, pairs.last().1)
    }
}

/// The views of executable groups.
pub open spec fn group_views(s: Seq<(PackageName, Vec<Vec<u8>>)>) -> Seq<(PkgName, Seq<Seq<u8>>)> {
    s.map_values(|pr: (PackageName, Vec<Vec<u8>>)| (pr.0@, pr.1.deep_view()))
}

/// Inserts one pair into the executable groups.
fn group_insert_exec(groups: &mut Vec<(PackageName, Vec<Vec<u8>>)>, p: PackageName, n: Vec<u8>)
    ensures
        group_views(final(groups)@) == group_insert(group_views(old(groups)@), p@, n@),
{
    let ghost pre = group_views(groups@);
    let mut k: usize = 0;
    while k < groups.len()
        invariant
            k <= groups@.len(),
            pre == group_views(groups@),
            pre == group_views(old(groups)@),
            forall|j: int| 0 <= j < k ==> (#[trigger] group_views(groups@)[j]).0 != p@,
        decreases groups.len() - k,
    {
        assert(group_views(groups@)[k as int] == (groups@[k as int].0@, groups@[k as int].1.deep_view()));
        if crate::merge::pkg_name_eq(&groups[k].0, &p) {
            let ghost before = groups@;
            let mut tmp: (PackageName, Vec<Vec<u8>>) = (p, Vec::new());
            vstd::pervasive::VecAdditionalExecFns::set_and_swap(groups, k, &mut tmp);
            let (gp, mut names) = tmp;
            names.push(n);
            let mut tmp2: (PackageName, Vec<Vec<u8>>) = (gp, names);
            vstd::pervasive::VecAdditionalExecFns::set_and_swap(groups, k, &mut tmp2);
            proof {
                lemma_group_insert_at(pre, p@, n@, k as int);
                assert(groups@ =~= before.update(k as int, groups@[k as int]));
                assert(group_views(groups@) =~= pre.update(
                    k as int,
                    (pre[k as int].0, pre[k as int].1.push(n@)),
                )) by {
                    assert forall|j: int|
                        0 <= j < groups@.len() implies group_views(groups@)[j] == pre.update(
                        k as int,
                        (pre[k as int].0, pre[k as int].1.push(n@)),
                    )[j] by {
                        assert(group_views(groups@)[j] == (
                            groups@[j].0@,
                            groups@[j].1.deep_view(),
                        ));
                        assert(pre[j] == (before[j].0@, before[j].1.deep_view()));
                        if j != k {
                            assert(groups@[j] == before[j]);
                        } else {
                            assert(groups@[k as int].0 == before[k as int].0);
                            assert(groups@[k as int].1@ =~= before[k as int].1@.push(n));
                            assert(groups@[k as int].1.deep_view() =~= before[k as int].1.deep_view().push(
                                n@,
                            ));
                        }
                    }
                }
            }
            return ;
        }
        k += 1;
    }
    groups.push((p, n_single(n)));
    proof {
        lemma_group_insert_missing(pre, p@, n@);
        assert(group_views(groups@) =~= pre.push((p@, seq![n@]))) by {
            assert(groups@[groups@.len() - 1].1.deep_view() =~= seq![n@]);
        }
    }
}

/// Builds a one-element list of names.
fn n_single(n: Vec<u8>) -> (r: Vec<Vec<u8>>)
    ensures
        r.deep_view() == seq![n@],
{
    let mut v: Vec<Vec<u8>> = Vec::new();
    v.push(n);
    assert(v.deep_view() =~= seq![v@[0]@]);
    v
}

/// Inserting into groups whose first `k` entries miss the package updates
/// entry `k` when it matches.
proof fn lemma_group_insert_at(groups: Seq<(PkgName, Seq<Seq<u8>>)>, p: PkgName, n: Seq<u8>, k: int)
    requires
        0 <= k < groups.len(),
        groups[k].0 == p,
        forall|j: int| 0 <= j < k ==> (#[trigger] groups[j]).0 != p,
    ensures
        group_insert(groups, p, n) == groups.update(k, (groups[k].0, groups[k].1.push(n))),
    decreases k,
{
    if k == 0 {
        assert(group_insert(groups, p, n) =~= groups.update(0, (groups[0].0, groups[0].1.push(n))));
    } else {
        assert forall|j: int| 0 <= j < k - 1 implies (#[trigger] groups.drop_first()[j]).0 != p by {
            assert(groups.drop_first()[j] == groups[j + 1]);
        }
        assert(groups.drop_first()[k - 1] == groups[k]);
        lemma_group_insert_at(groups.drop_first(), p, n, k - 1);
        assert(group_insert(groups, p, n) =~= groups.update(k, (groups[k].0, groups[k].1.push(n))));
    }
}

/// Inserting a package no group holds appends a new group.
proof fn lemma_group_insert_missing(groups: Seq<(PkgName, Seq<Seq<u8>>)>, p: PkgName, n: Seq<u8>)
    requires
        forall|j: int| 0 <= j < groups.len() ==> (#[trigger] groups[j]).0 != p,
    ensures
        group_insert(groups, p, n) == groups.push((p, seq![n])),
    decreases groups.len(),
{
    if groups.len() == 0 {
        assert(group_insert(groups, p, n) =~= groups.push((p, seq![n])));
    } else {
        assert forall|j: int|
            0 <= j < groups.drop_first().len() implies (#[trigger] groups.drop_first()[j]).0
            != p by {
            assert(groups.drop_first()[j] == groups[j + 1]);
        }
        lemma_group_insert_missing(groups.drop_first(), p, n);
        assert(group_insert(groups, p, n) =~= groups.push((p, seq![n])));
    }
}

/// Groups the enumerated pairs by owning package.
pub fn group_by_package(pairs: Vec<(PackageName, Vec<u8>)>) -> (r: Vec<(PackageName, Vec<Vec<u8>>)>)
    ensures
        group_views(r@) == group_pairs(pair_views(pairs@)),
{
    let ghost pv = pair_views(pairs@);
    let mut out: Vec<(PackageName, Vec<Vec<u8>>)> = Vec::new();
    proof {
        assert(pv.subrange(0, 0) =~= Seq::<(PkgName, Seq<u8>)>::empty());
        assert(group_views(out@) =~= Seq::<(PkgName, Seq<Seq<u8>>)>::empty());
    }
    let n = pairs.len();
    let rest = pairs;
    let mut idx: usize = 0;
    while idx < n
        invariant
            n == rest@.len(),
            idx <= n,
            pv == pair_views(rest@),
            group_views(out@) == group_pairs(pv.subrange(0, idx as int)),
        decreases n - idx,
    {
        assert(pv[idx as int] == (rest@[idx as int].0@, rest@[idx as int].1@));
        let p = rest[idx].0.dup();
        let nm = copy_bytes(&rest[idx].1);
        group_insert_exec(&mut out, p, nm);
        proof {
            let cur = pv.subrange(0, idx + 1 as int);
            assert(cur.drop_last() =~= pv.subrange(0, idx as int));
            assert(cur.last() == pv[idx as int]);
        }
        idx += 1;
    }
    proof {
        assert(pv.subrange(0, n as int) =~= pv);
    }
    out
}

/// Enumerates and groups a candidate world's exported interfaces, failing
/// when the component exports nothing importable.
pub fn enumerate_exports(g: &CapabilityGraph, world: usize) -> (r: Result<
    Vec<(PackageName, Vec<Vec<u8>>)>,
    DepsError,
>)
    requires
        g.wf(),
        world < g@.worlds.len(),
    ensures
        match r {
            Ok(groups) => group_views(groups@) == group_pairs(
                exported_pairs(g@, g@.worlds[world as int].exports),
            ) && exported_pairs(g@, g@.worlds[world as int].exports).len() > 0,
            Err(e) => (e is NoExportedInterfaces) && exported_pairs(
                g@,
                g@.worlds[world as int].exports,
            ).len() == 0,
        },
{
    let pairs = get_exported_interfaces(g, world);
    if pairs.len() == 0 {
        proof {
            assert(pair_views(pairs@).len() == 0);
        }
        return Err(DepsError::NoExportedInterfaces);
    }
    proof {
        assert(pair_views(pairs@).len() == pairs@.len());
    }
    Ok(group_by_package(pairs))
}

/// Validity of one selection entry: a well-formed package with a
/// non-empty list of distinct, well-formed interface names.
pub open spec fn selection_entry_wf(e: (PkgName, Seq<Seq<u8>>)) -> bool {
    &&& crate::name::valid_pkg_name(e.0)
    &&& e.1.len() > 0
    &&& forall|a: int| 0 <= a < e.1.len() ==> crate::name::valid_ident(#[trigger] e.1[a])
    &&& forall|a: int, b: int|
        0 <= a < e.1.len() && 0 <= b < e.1.len() && a != b ==> #[trigger] e.1[a] != #[trigger] e.1[b]
}

/// Validity of a whole selection: non-empty, every entry well-formed, no
/// package chosen twice.
pub open spec fn selection_wf(sel: Seq<(PkgName, Seq<Seq<u8>>)>) -> bool {
    &&& sel.len() > 0
    &&& forall|i: int| 0 <= i < sel.len() ==> selection_entry_wf(#[trigger] sel[i])
    &&& forall|i: int, j: int|
        0 <= i < sel.len() && 0 <= j < sel.len() && i != j ==> (#[trigger] sel[i]).0 != (
        #[trigger] sel[j]).0
}

/// The qualified names of one entry's selected interfaces, in order.
pub open spec fn entry_qnames(e: (PkgName, Seq<Seq<u8>>)) -> Seq<Seq<u8>> {
    e.1.map_values(|n: Seq<u8>| crate::name::itf_qname(e.0, n))
}

/// The qualified names of all selected capabilities, in selection order.
pub open spec fn selected_qnames(sel: Seq<(PkgName, Seq<Seq<u8>>)>) -> Seq<Seq<u8>>
    decreases sel.len(),
{
    if sel.len() == 0 {
        Seq::<Seq<u8>>::empty()
    } else {
        selected_qnames(sel.drop_last()) + entry_qnames(sel.last())
    }
}

/// A built interface carries its source graph's shape: the funcs of the
/// matching interface when one exists there, and no funcs otherwise.
pub open spec fn funcs_match(g: GraphV, p: PkgName, n: Seq<u8>, funcs: Seq<Seq<u8>>) -> bool {
    (exists|s: int|
        0 <= s < g.interfaces.len() && (#[trigger] g.interfaces[s]).name == n && g.packages[g.interfaces[s].package]
            == p && g.interfaces[s].funcs == funcs) || (funcs.len() == 0 && forall|s: int|
        0 <= s < g.interfaces.len() ==> !((#[trigger] g.interfaces[s]).name == n
            && g.packages[g.interfaces[s].package] == p))
}

/// Builds the candidate handed to the merger: one package per selection
/// entry, one interface per selected name carrying the source graph's
/// shape, and a single import-only world named for the first dependency,
/// whose import keys are exactly the selected qualified names. A selection
/// that is empty, repeats a package, or holds malformed or duplicate names
/// is rejected.
#[verifier::rlimit(100)]
pub fn build_candidate(
    g: &CapabilityGraph,
    selection: &Vec<(PackageName, Vec<Vec<u8>>)>,
) -> (r: Result<(CapabilityGraph, usize), DepsError>)
    requires
        g.wf(),
    ensures
        match r {
            Ok(c) => selection_wf(group_views(selection@)) && c.0.wf() && (c.1 as int)
                < c.0@.worlds.len() && c.0@.worlds[c.1 as int].exports.len() == 0
                && crate::merge::items_keys(c.0@, c.0@.worlds[c.1 as int].imports)
                == selected_qnames(group_views(selection@)) && forall|t: int|
                0 <= t < c.0@.interfaces.len() ==> funcs_match(
                    g@,
                    c.0@.packages[(#[trigger] c.0@.interfaces[t]).package],
                    c.0@.interfaces[t].name,
                    c.0@.interfaces[t].funcs,
                ),
            Err(e) => !selection_wf(group_views(selection@)) && (e is InvalidComponent),
        },
{
    let ghost sv = group_views(selection@);
    let ns = selection.len();
    proof {
        assert(sv.len() == selection@.len());
    }

    // Validate the selection first; every rejection names a witness.
    if ns == 0 {
        return Err(DepsError::InvalidComponent { detail: Vec::new() });
    }
    let mut i: usize = 0;
    while i < ns
        invariant
            sv == group_views(selection@),
            ns == selection@.len(),
            sv.len() == ns,
            i <= ns,
            forall|q: int| 0 <= q < i ==> selection_entry_wf(#[trigger] sv[q]),
            forall|q1: int, q2: int|
                0 <= q1 < i && 0 <= q2 < i && q1 != q2 ==> (#[trigger] sv[q1]).0 != (
                #[trigger] sv[q2]).0,
        decreases ns - i,
    {
        assert(sv[i as int] == (selection@[i as int].0@, selection@[i as int].1.deep_view()));
        if !crate::graph::check_pkg_name(&selection[i].0) {
            proof {
                assert(!selection_entry_wf(sv[i as int]));
            }
            return Err(DepsError::InvalidComponent { detail: Vec::new() });
        }
        let nn = selection[i].1.len();
        proof {
            assert(sv[i as int].1.len() == nn);
        }
        if nn == 0 {
            proof {
                assert(!selection_entry_wf(sv[i as int]));
            }
            return Err(DepsError::InvalidComponent { detail: Vec::new() });
        }
        let mut a: usize = 0;
        while a < nn
            invariant
                sv == group_views(selection@),
                ns == selection@.len(),
                i < ns,
                sv[i as int] == (selection@[i as int].0@, selection@[i as int].1.deep_view()),
                nn == selection@[i as int].1@.len(),
                sv[i as int].1.len() == nn,
                a <= nn,
                forall|q: int|
                    0 <= q < a ==> crate::name::valid_ident(#[trigger] sv[i as int].1[q]),
                forall|q1: int, q2: int|
                    0 <= q1 < a && 0 <= q2 < a && q1 != q2 ==> #[trigger] sv[i as int].1[q1]
                        != #[trigger] sv[i as int].1[q2],
            decreases nn - a,
        {
            assert(sv[i as int].1[a as int] == selection@[i as int].1@[a as int]@);
            if !crate::name::is_valid_ident(selection[i].1[a].as_slice()) {
                proof {
                    assert(!selection_entry_wf(sv[i as int]));
                }
                return Err(DepsError::InvalidComponent { detail: Vec::new() });
            }
            let mut b: usize = 0;
            while b < a
                invariant
                    sv == group_views(selection@),
                    ns == selection@.len(),
                    i < ns,
                    sv[i as int] == (selection@[i as int].0@, selection@[i as int].1.deep_view()),
                    nn == selection@[i as int].1@.len(),
                    sv[i as int].1.len() == nn,
                    b <= a < nn,
                    sv[i as int].1[a as int] == selection@[i as int].1@[a as int]@,
                    forall|q: int|
                        0 <= q < b ==> #[trigger] sv[i as int].1[q] != sv[i as int].1[a as int],
                decreases a - b,
            {
                assert(sv[i as int].1[b as int] == selection@[i as int].1@[b as int]@);
                if crate::bytes::bytes_eq(
                    selection[i].1[b].as_slice(),
                    selection[i].1[a].as_slice(),
                ) {
                    proof {
                        assert(sv[i as int].1[b as int] == sv[i as int].1[a as int]);
                        assert(!selection_entry_wf(sv[i as int]));
                    }
                    return Err(DepsError::InvalidComponent { detail: Vec::new() });
                }
                b += 1;
            }
            a += 1;
        }
        let mut j: usize = 0;
        while j < i
            invariant
                sv == group_views(selection@),
                ns == selection@.len(),
                i < ns,
                sv[i as int] == (selection@[i as int].0@, selection@[i as int].1.deep_view()),
                j <= i,
                forall|q: int| 0 <= q < j ==> (#[trigger] sv[q]).0 != sv[i as int].0,
            decreases i - j,
        {
            assert(sv[j as int] == (selection@[j as int].0@, selection@[j as int].1.deep_view()));
            if crate::merge::pkg_name_eq(&selection[j].0, &selection[i].0) {
                proof {
                    assert(sv[j as int].0 == sv[i as int].0);
                    assert(!selection_wf(sv));
                }
                return Err(DepsError::InvalidComponent { detail: Vec::new() });
            }
            j += 1;
        }
        i += 1;
    }
    proof {
        assert(selection_wf(sv));
    }

    // Build the candidate arenas.
    let mut packages: Vec<PackageName> = Vec::new();
    let mut interfaces: Vec<crate::graph::InterfaceDef> = Vec::new();
    let mut items: Vec<WorldItem> = Vec::new();
    proof {
        assert(sv.subrange(0, 0) =~= Seq::<(PkgName, Seq<Seq<u8>>)>::empty());
        assert(packages.deep_view() =~= Seq::<PkgName>::empty());
        assert(interfaces.deep_view() =~= Seq::<crate::graph::ItfV>::empty());
        assert(items.deep_view() =~= Seq::<ItemV>::empty());
        assert(crate::merge::items_keys(
            crate::graph::GraphV {
                packages: packages.deep_view(),
                interfaces: interfaces.deep_view(),
                worlds: Seq::<crate::graph::WorldV>::empty(),
            },
            items.deep_view(),
        ) =~= Seq::<Seq<u8>>::empty());
        assert(selected_qnames(sv.subrange(0, 0)) == Seq::<Seq<u8>>::empty());
    }
    let mut i2: usize = 0;
    while i2 < ns
        invariant
            g.wf(),
            sv == group_views(selection@),
            ns == selection@.len(),
            sv.len() == ns,
            i2 <= ns,
            selection_wf(sv),
            packages.deep_view().len() == i2,
            forall|q: int| 0 <= q < i2 ==> #[trigger] packages.deep_view()[q] == sv[q].0,
            forall|t: int|
                0 <= t < interfaces.deep_view().len() ==> 0 <= (
                #[trigger] interfaces.deep_view()[t]).package < i2 && crate::name::valid_ident(
                    interfaces.deep_view()[t].name,
                ) && (forall|k: int|
                    0 <= k < interfaces.deep_view()[t].funcs.len()
                        ==> crate::graph::func_line_ok(
                        #[trigger] interfaces.deep_view()[t].funcs[k],
                    )),
            forall|t1: int, t2: int|
                0 <= t1 < interfaces.deep_view().len() && 0 <= t2 < interfaces.deep_view().len()
                    && t1 != t2 && (#[trigger] interfaces.deep_view()[t1]).package == (
                #[trigger] interfaces.deep_view()[t2]).package ==> interfaces.deep_view()[t1].name
                    != interfaces.deep_view()[t2].name,
            forall|t: int|
                0 <= t < interfaces.deep_view().len() ==> funcs_match(
                    g@,
                    packages.deep_view()[(#[trigger] interfaces.deep_view()[t]).package],
                    interfaces.deep_view()[t].name,
                    interfaces.deep_view()[t].funcs,
                ),
            forall|k: int|
                0 <= k < items.deep_view().len() ==> ((#[trigger] items.deep_view()[k]) matches ItemV::Itf { id }
                    && 0 <= id < interfaces.deep_view().len()),
            crate::merge::items_keys(
                crate::graph::GraphV {
                    packages: packages.deep_view(),
                    interfaces: interfaces.deep_view(),
                    worlds: Seq::<crate::graph::WorldV>::empty(),
                },
                items.deep_view(),
            ) == selected_qnames(sv.subrange(0, i2 as int)),
        decreases ns - i2,
    {
        assert(sv[i2 as int] == (selection@[i2 as int].0@, selection@[i2 as int].1.deep_view()));
        assert(selection_entry_wf(sv[i2 as int]));
        let ghost e = sv[i2 as int];
        let ghost pkgs0 = packages.deep_view();
        let ghost itfs0 = interfaces.deep_view();
        let ghost items0 = items.deep_view();
        let pidx = packages.len();
        packages.push(selection[i2].0.dup());
        let ghost pkgs1 = packages.deep_view();
        proof {
            assert(pkgs1 =~= pkgs0.push(e.0));
            assert(pkgs0.is_prefix_of(pkgs1));
            crate::descriptor::lemma_keys_stable_grow(
                crate::graph::GraphV {
                    packages: pkgs0,
                    interfaces: itfs0,
                    worlds: Seq::<crate::graph::WorldV>::empty(),
                },
                crate::graph::GraphV {
                    packages: pkgs1,
                    interfaces: itfs0,
                    worlds: Seq::<crate::graph::WorldV>::empty(),
                },
                items0,
            );
        }
        let nn = selection[i2].1.len();
        let ghost itf_base = interfaces.deep_view().len();
        proof {
            assert(e.1.len() == nn);
            assert(e.1.subrange(0, 0).map_values(|n: Seq<u8>| crate::name::itf_qname(e.0, n))
                =~= Seq::<Seq<u8>>::empty());
            assert(crate::merge::items_keys(
                crate::graph::GraphV {
                    packages: pkgs1,
                    interfaces: interfaces.deep_view(),
                    worlds: Seq::<crate::graph::WorldV>::empty(),
                },
                items.deep_view(),
            ) + Seq::<Seq<u8>>::empty() =~= selected_qnames(sv.subrange(0, i2 as int)));
        }
        let mut a: usize = 0;
        while a < nn
            invariant
                g.wf(),
                sv == group_views(selection@),
                ns == selection@.len(),
                i2 < ns,
                sv[i2 as int] == (selection@[i2 as int].0@, selection@[i2 as int].1.deep_view()),
                selection_wf(sv),
                e == sv[i2 as int],
                nn == selection@[i2 as int].1@.len(),
                e.1.len() == nn,
                a <= nn,
                pidx as int == i2 as int,
                pkgs1 == packages.deep_view(),
                packages.deep_view().len() == i2 + 1,
                forall|q: int| 0 <= q < i2 + 1 ==> #[trigger] packages.deep_view()[q] == sv[q].0,
                itf_base == itfs0.len(),
                interfaces.deep_view().len() == itf_base + a,
                itfs0.is_prefix_of(interfaces.deep_view()),
                forall|t: int|
                    0 <= t < itf_base ==> 0 <= (#[trigger] interfaces.deep_view()[t]).package
                        < i2,
                forall|t: int|
                    itf_base <= t < interfaces.deep_view().len() ==> (
                    #[trigger] interfaces.deep_view()[t]).package == pidx as int
                        && interfaces.deep_view()[t].name == e.1[t - itf_base],
                forall|t: int|
                    0 <= t < interfaces.deep_view().len() ==> 0 <= (
                    #[trigger] interfaces.deep_view()[t]).package < i2 + 1
                        && crate::name::valid_ident(interfaces.deep_view()[t].name) && (forall|
                        k: int,
                    |
                        0 <= k < interfaces.deep_view()[t].funcs.len()
                            ==> crate::graph::func_line_ok(
                            #[trigger] interfaces.deep_view()[t].funcs[k],
                        )),
                forall|t1: int, t2: int|
                    0 <= t1 < interfaces.deep_view().len() && 0 <= t2
                        < interfaces.deep_view().len() && t1 != t2 && (
                    #[trigger] interfaces.deep_view()[t1]).package == (
                    #[trigger] interfaces.deep_view()[t2]).package
                        ==> interfaces.deep_view()[t1].name != interfaces.deep_view()[t2].name,
                forall|t: int|
                    0 <= t < interfaces.deep_view().len() ==> funcs_match(
                        g@,
                        packages.deep_view()[(#[trigger] interfaces.deep_view()[t]).package],
                        interfaces.deep_view()[t].name,
                        interfaces.deep_view()[t].funcs,
                    ),
                forall|k: int|
                    0 <= k < items.deep_view().len() ==> ((
                    #[trigger] items.deep_view()[k]) matches ItemV::Itf { id } && 0 <= id
                        < interfaces.deep_view().len()),
                crate::merge::items_keys(
                    crate::graph::GraphV {
                        packages: packages.deep_view(),
                        interfaces: interfaces.deep_view(),
                        worlds: Seq::<crate::graph::WorldV>::empty(),
                    },
                    items.deep_view(),
                ) == selected_qnames(sv.subrange(0, i2 as int)) + e.1.subrange(
                    0,
                    a as int,
                ).map_values(|n: Seq<u8>| crate::name::itf_qname(e.0, n)),
            decreases nn - a,
        {
            assert(e.1[a as int] == selection@[i2 as int].1@[a as int]@);
            let ghost p = e.0;
            let ghost n = e.1[a as int];
            let funcs: Vec<Vec<u8>> = match crate::merge::find_package(g, &selection[i2].0) {
                Some(pj) => {
                    match crate::merge::find_interface(
                        g,
                        pj,
                        selection[i2].1[a].as_slice(),
                    ) {
                        Some(s) => {
                            proof {
                                assert(g@.packages[g@.interfaces[s as int].package] == p) by {
                                    assert(crate::graph::itf_wf(g@, s as int));
                                    assert(g@.packages[g@.interfaces[s as int].package]
                                        == g@.packages[pj as int]);
                                }
                            }
                            crate::merge::copy_byte_seqs(&g.interfaces[s].funcs)
                        },
                        None => {
                            proof {
                                assert forall|s: int|
                                    0 <= s < g@.interfaces.len() implies !((
                                #[trigger] g@.interfaces[s]).name == n && g@.packages[g@.interfaces[s].package]
                                    == p) by {
                                    if g@.interfaces[s].name == n && g@.packages[g@.interfaces[s].package]
                                        == p {
                                        assert(crate::graph::itf_wf(g@, s));
                                        assert(g@.packages[g@.interfaces[s].package]
                                            == g@.packages[pj as int]);
                                        assert(g@.interfaces[s].package == pj as int);
                                    }
                                }
                            }
                            Vec::new()
                        },
                    }
                },
                None => {
                    proof {
                        assert forall|s: int|
                            0 <= s < g@.interfaces.len() implies !((
                        #[trigger] g@.interfaces[s]).name == n && g@.packages[g@.interfaces[s].package]
                            == p) by {
                            if g@.interfaces[s].name == n && g@.packages[g@.interfaces[s].package]
                                == p {
                                assert(crate::graph::itf_wf(g@, s));
                            }
                        }
                    }
                    Vec::new()
                },
            };
            proof {
                assert(funcs_match(g@, p, n, funcs.deep_view()));
                assert forall|k: int|
                    0 <= k < funcs.deep_view().len() implies crate::graph::func_line_ok(
                    #[trigger] funcs.deep_view()[k],
                ) by {
                    match choose|s: int|
                        0 <= s < g@.interfaces.len() && (#[trigger] g@.interfaces[s]).name == n
                            && g@.packages[g@.interfaces[s].package] == p && g@.interfaces[s].funcs
                            == funcs.deep_view() {
                        s => {
                            if funcs.deep_view().len() > 0 {
                                assert(crate::graph::itf_wf(g@, s));
                            }
                        },
                    }
                }
            }
            let ghost itfs_pre = interfaces.deep_view();
            let ghost items_pre = items.deep_view();
            let iid = interfaces.len();
            interfaces.push(
                crate::graph::InterfaceDef {
                    name: copy_bytes(&selection[i2].1[a]),
                    package: pidx,
                    funcs,
                },
            );
            items.push(WorldItem::Interface { id: iid });
            proof {
                let itfs_now = interfaces.deep_view();
                let items_now = items.deep_view();
                assert(itfs_now =~= itfs_pre.push(
                    crate::graph::ItfV { name: n, package: pidx as int, funcs: itfs_now[itf_base + a].funcs },
                ));
                assert(itfs_pre.is_prefix_of(itfs_now));
                assert(items_now =~= items_pre.push(ItemV::Itf { id: iid as int }));
                let g_pre = crate::graph::GraphV {
                    packages: pkgs1,
                    interfaces: itfs_pre,
                    worlds: Seq::<crate::graph::WorldV>::empty(),
                };
                let g_now = crate::graph::GraphV {
                    packages: pkgs1,
                    interfaces: itfs_now,
                    worlds: Seq::<crate::graph::WorldV>::empty(),
                };
                crate::descriptor::lemma_keys_stable_grow(g_pre, g_now, items_pre);
                assert(crate::graph::item_key(g_now, ItemV::Itf { id: iid as int })
                    == crate::name::itf_qname(e.0, n));
                assert(crate::merge::items_keys(g_now, items_now)
                    =~= crate::merge::items_keys(g_now, items_pre).push(
                    crate::name::itf_qname(e.0, n),
                ));
                let cur = e.1.subrange(0, a + 1 as int);
                assert(cur.drop_last() =~= e.1.subrange(0, a as int));
                assert(cur.last() == n);
                assert(cur.map_values(|n2: Seq<u8>| crate::name::itf_qname(e.0, n2))
                    =~= e.1.subrange(0, a as int).map_values(
                    |n2: Seq<u8>| crate::name::itf_qname(e.0, n2),
                ).push(crate::name::itf_qname(e.0, n)));
                assert forall|t1: int, t2: int|
                    0 <= t1 < itfs_now.len() && 0 <= t2 < itfs_now.len() && t1 != t2 && (
                #[trigger] itfs_now[t1]).package == (#[trigger] itfs_now[t2]).package implies itfs_now[t1].name
                    != itfs_now[t2].name by {
                    if t1 == itf_base + a || t2 == itf_base + a {
                        let o = if t1 == itf_base + a {
                            t2
                        } else {
                            t1
                        };
                        if o < itf_base {
                            assert(itfs_now[o] == itfs_pre[o]);
                        } else {
                            assert(itfs_now[o].name == e.1[o - itf_base]);
                            assert(e.1[o - itf_base] != e.1[a as int]);
                        }
                    } else {
                        assert(itfs_now[t1] == itfs_pre[t1]);
                        assert(itfs_now[t2] == itfs_pre[t2]);
                    }
                }
            }
            a += 1;
        }
        proof {
            let cur = sv.subrange(0, i2 + 1 as int);
            assert(cur.drop_last() =~= sv.subrange(0, i2 as int));
            assert(cur.last() == e);
            assert(e.1.subrange(0, nn as int) =~= e.1);
            assert(entry_qnames(e) == e.1.map_values(|n2: Seq<u8>| crate::name::itf_qname(e.0, n2)));
            assert(selected_qnames(cur) =~= selected_qnames(sv.subrange(0, i2 as int))
                + entry_qnames(e));
        }
        i2 += 1;
    }
    proof {
        assert(sv.subrange(0, ns as int) =~= sv);
    }

    let world_name = crate::graph::world_name_for(&packages[0].render_qname());
    proof {
        assert(packages.deep_view()[0] == sv[0].0);
        assert(packages@[0]@ == sv[0].0);
        crate::graph::lemma_world_name_valid(sv[0].0);
    }
    let world = WorldDef { name: world_name, package: 0, imports: items, exports: Vec::new() };
    let mut worlds: Vec<WorldDef> = Vec::new();
    worlds.push(world);
    let cand = CapabilityGraph { packages, interfaces, worlds };
    proof {
        let cv = cand@;
        assert(cv.packages == cand.packages.deep_view());
        assert(cv.interfaces == cand.interfaces.deep_view());
        assert(cv.worlds.len() == 1);
        assert(cv.worlds[0].exports =~= Seq::<ItemV>::empty());
        assert forall|t: int| 0 <= t < cv.interfaces.len() implies itf_wf(cv, t) by {}
        assert forall|x: int| 0 <= x < cv.worlds.len() implies world_wf(cv, x) by {
            assert forall|k: int|
                0 <= k < cv.worlds[0].imports.len() implies item_wf(
                cv,
                #[trigger] cv.worlds[0].imports[k],
            ) by {}
        }
        assert(graph_wf(cv));
        crate::descriptor::lemma_keys_same_arenas(
            crate::graph::GraphV {
                packages: cv.packages,
                interfaces: cv.interfaces,
                worlds: Seq::<crate::graph::WorldV>::empty(),
            },
            cv,
            cv.worlds[0].imports,
        );
        assert(crate::merge::items_keys(cv, cv.worlds[0].imports) == selected_qnames(sv));
    }
    Ok((cand, 0))
}

/// The number of worlds of `g` owned by package `pkg`, scanning from `w`.
pub open spec fn worlds_of_pkg_from(g: GraphV, pkg: int, w: int) -> int
    decreases g.worlds.len() - w,
{
    if w < 0 || w >= g.worlds.len() {
        0
    } else {
        (if g.worlds[w].package == pkg {
            1int
        } else {
            0int
        }) + worlds_of_pkg_from(g, pkg, w + 1)
    }
}

/// Selects a world of the package: the named one when a name is given, the
/// package's only world otherwise; anything else is an error.
pub fn select_world(g: &CapabilityGraph, pkg: usize, name: Option<&Vec<u8>>) -> (r: Result<
    usize,
    DepsError,
>)
    requires
        g.wf(),
        pkg < g@.packages.len(),
    ensures
        match r {
            Ok(w) => w < g@.worlds.len() && g@.worlds[w as int].package == pkg as int && (match name {
                Some(n) => g@.worlds[w as int].name == n@,
                None => worlds_of_pkg_from(g@, pkg as int, 0) == 1,
            }),
            Err(e) => (e is InvalidComponent) && (match name {
                Some(n) => forall|w: int|
                    0 <= w < g@.worlds.len() ==> !(g@.worlds[w].package == pkg as int
                        && g@.worlds[w].name == n@),
                None => worlds_of_pkg_from(g@, pkg as int, 0) != 1,
            }),
        },
{
    match name {
        Some(n) => {
            match crate::merge::find_world(g, pkg, n.as_slice()) {
                Some(w) => Ok(w),
                None => Err(
                    DepsError::InvalidComponent { detail: copy_bytes(n) },
                ),
            }
        },
        None => {
            let ghost gv = g@;
            let mut found: Option<usize> = None;
            let mut count: usize = 0;
            let n = g.worlds.len();
            let mut w: usize = 0;
            proof {
                assert(gv.worlds.len() <= usize::MAX);
            }
            while w < n
                invariant
                    g.wf(),
                    gv == g@,
                    pkg < gv.packages.len(),
                    n == gv.worlds.len(),
                    w <= n,
                    count <= w,
                    count as int + worlds_of_pkg_from(gv, pkg as int, w as int)
                        == worlds_of_pkg_from(gv, pkg as int, 0),
                    match found {
                        Some(f) => f < gv.worlds.len() && gv.worlds[f as int].package == pkg as int
                            && count >= 1,
                        None => count == 0,
                    },
                decreases n - w,
            {
                proof {
                    assert(gv.worlds[w as int] == g.worlds@[w as int]@);
                }
                if g.worlds[w].package == pkg {
                    count += 1;
                    found = Some(w);
                }
                w += 1;
            }
            proof {
                assert(worlds_of_pkg_from(gv, pkg as int, n as int) == 0);
            }
            if count == 1 {
                match found {
                    Some(f) => Ok(f),
                    None => {
                        proof {
                            assert(false);
                        }
                        Err(DepsError::InvalidComponent { detail: Vec::new() })
                    },
                }
            } else {
                Err(DepsError::InvalidComponent { detail: Vec::new() })
            }
        },
    }
}

/// Turns the world's exported capability set into an equivalent import-only
/// set: every export entry becomes an import entry unchanged, the world's
/// own exports become empty, and the world takes the given name. The
/// transform is destructive to the world it targets.
pub fn importize(g: &mut CapabilityGraph, world: usize, new_name: &Vec<u8>)
    requires
        old(g).wf(),
        world < old(g)@.worlds.len(),
        crate::graph::valid_world_name(new_name@),
        forall|w: int|
            0 <= w < old(g)@.worlds.len() ==> !(#[trigger] old(g)@.worlds[w].package == old(
                g,
            )@.worlds[world as int].package && old(g)@.worlds[w].name == new_name@),
    ensures
        final(g).wf(),
        final(g)@.packages == old(g)@.packages,
        final(g)@.interfaces == old(g)@.interfaces,
        final(g)@.worlds == old(g)@.worlds.update(
            world as int,
            crate::graph::WorldV {
                name: new_name@,
                package: old(g)@.worlds[world as int].package,
                imports: old(g)@.worlds[world as int].exports,
                exports: Seq::<ItemV>::empty(),
            },
        ),
{
    let ghost g0 = g@;
    proof {
        assert(world_wf(g0, world as int));
        assert(g.worlds@[world as int]@ == g0.worlds[world as int]);
    }
    let package = g.worlds[world].package;
    let imports = crate::merge::copy_items(&g.worlds[world].exports);
    let nw = WorldDef {
        name: copy_bytes(new_name),
        package,
        imports,
        exports: Vec::new(),
    };
    proof {
        assert(nw@.imports == g0.worlds[world as int].exports);
        assert(nw@.exports =~= Seq::<ItemV>::empty());
    }
    vstd::pervasive::VecAdditionalExecFns::set(&mut g.worlds, world, nw);
    proof {
        assert(g@.worlds =~= g0.worlds.update(world as int, nw@));
        assert(g@.packages =~= g0.packages);
        assert(g@.interfaces =~= g0.interfaces);
        assert forall|i2: int| 0 <= i2 < g@.interfaces.len() implies itf_wf(g@, i2) by {
            assert(itf_wf(g0, i2));
        }
        assert forall|w2: int| 0 <= w2 < g@.worlds.len() implies world_wf(g@, w2) by {
            if w2 != world as int {
                assert(g@.worlds[w2] == g0.worlds[w2]);
                assert(world_wf(g0, w2));
            } else {
                assert(world_wf(g0, world as int));
            }
        }
        assert(graph_wf(g@));
    }
}

} // verus!
