use vstd::prelude::*;

use crate::cut::{
    all_edges, closest_between, crosses, exact_cut, flat, lemma_closest_cut_is_exact, listed_iff_crossing,
    translated, Cut,
};
use crate::graph::UnGraph;
use crate::path_residual::{
    contracted_by, first_seen_order, joins_pair, rep, set_search_result, sets_overlap, valid_sets, IndexMapping,
};

verus! {

/// A value is in the lists of `table` named by `keys` just when it is in one of them.
pub proof fn lemma_flat_contains(keys: Seq<usize>, table: Seq<Seq<usize>>, x: usize)
    ensures
        flat(keys, table).contains(x) <==> exists|i: int| 0 <= i < keys.len() && #[trigger] table[keys[i] as int].contains(x),
    decreases keys.len(),
{
    if keys.len() > 0 {
        let init = keys.drop_last();
        let last = table[keys.last() as int];
        lemma_flat_contains(init, table, x);
        let f = flat(keys, table);
        let fi = flat(init, table);
        assert(f == fi + last);
        if f.contains(x) {
            let j = choose|j: int| 0 <= j < f.len() && f[j] == x;
            if j < fi.len() {
                assert(fi[j] == x);
                let i = choose|i: int| 0 <= i < init.len() && #[trigger] table[init[i] as int].contains(x);
                assert(keys[i] == init[i]);
            } else {
                assert(last[j - fi.len()] == x);
                assert(table[keys[keys.len() - 1] as int].contains(x));
            }
        }
        if exists|i: int| 0 <= i < keys.len() && #[trigger] table[keys[i] as int].contains(x) {
            let i = choose|i: int| 0 <= i < keys.len() && #[trigger] table[keys[i] as int].contains(x);
            if i < keys.len() - 1 {
                assert(init[i] == keys[i]);
                assert(fi.contains(x));
                let j = choose|j: int| 0 <= j < fi.len() && fi[j] == x;
                assert(f[j] == x);
            } else {
                let j = choose|j: int| 0 <= j < last.len() && last[j] == x;
                assert(f[fi.len() + j] == x);
            }
        }
    }
}

/// The lists named by distinct keys, each without repeats and no two sharing a value, hold no
/// value twice between them.
pub proof fn lemma_flat_no_duplicates(keys: Seq<usize>, table: Seq<Seq<usize>>)
    requires
        keys.no_duplicates(),
        forall|i: int| 0 <= i < keys.len() ==> (#[trigger] table[keys[i] as int]).no_duplicates(),
        forall|i: int, j: int, x: usize|
            0 <= i < keys.len() && 0 <= j < keys.len() && i != j && #[trigger] table[keys[i] as int].contains(x)
                ==> !#[trigger] table[keys[j] as int].contains(x),
    ensures
        flat(keys, table).no_duplicates(),
    decreases keys.len(),
{
    if keys.len() > 0 {
        let init = keys.drop_last();
        let last = table[keys.last() as int];
        assert forall|i: int| 0 <= i < init.len() implies (#[trigger] table[init[i] as int]).no_duplicates() by {
            assert(init[i] == keys[i]);
        }
        assert forall|i: int, j: int, x: usize|
            0 <= i < init.len() && 0 <= j < init.len() && i != j && #[trigger] table[init[i] as int].contains(x)
                implies !#[trigger] table[init[j] as int].contains(x) by {
            assert(init[i] == keys[i] && init[j] == keys[j]);
        }
        lemma_flat_no_duplicates(init, table);
        let f = flat(keys, table);
        let fi = flat(init, table);
        assert(f == fi + last);
        assert(last.no_duplicates()) by {
            assert(table[keys[keys.len() - 1] as int] == last);
        }
        assert forall|a: int, b: int| 0 <= a < f.len() && 0 <= b < f.len() && a != b implies f[a] != f[b] by {
            if a < fi.len() && b < fi.len() {
                assert(fi[a] != fi[b]);
            } else if a >= fi.len() && b >= fi.len() {
                assert(last[a - fi.len()] != last[b - fi.len()]);
            } else {
                let (p, q) = if a < fi.len() { (a, b) } else { (b, a) };
                let x = fi[p];
                assert(fi.contains(x));
                lemma_flat_contains(init, table, x);
                let i = choose|i: int| 0 <= i < init.len() && #[trigger] table[init[i] as int].contains(x);
                assert(init[i] == keys[i]);
                if f[q] == x {
                    assert(last[q - fi.len()] == x);
                    assert(table[keys[keys.len() - 1] as int].contains(x));
                    assert(i != keys.len() - 1);
                }
            }
        }
    }
}

/// The edge part of the round trip: an edge in use is listed in the translated cut just when
/// its ends lie on different translated sides.
proof fn lemma_translated_edges(
    g: &UnGraph,
    src: Seq<usize>,
    dst: Seq<usize>,
    in_use: Seq<bool>,
    cg: &UnGraph,
    ns: int,
    nt: int,
    map: &IndexMapping,
    merge: bool,
    cls: Seq<int>,
    cc: Cut,
    mc: Cut,
)
    requires
        g.wf(),
        contracted_by(g, src, dst, in_use, cg, ns, nt, map, merge, cls),
        exact_cut(cg, all_edges(cg), cc),
        translated(cc, map, mc),
        forall|x: int| 0 <= x < g.node_count ==> (mc.destination_set@.contains(x as usize) <==> #[trigger] cc.destination_set@.contains(cls[x] as usize)),
    ensures
        forall|e: int| 0 <= e < g.edges@.len() ==> #[trigger] listed_iff_crossing(g, in_use, mc, e),
{
    let vm = map.vertex_view();
    let em = map.edge_view();
    assert forall|f: int| 0 <= f < g.edges@.len() implies #[trigger] listed_iff_crossing(g, in_use, mc, f) by {
        let (u, v) = g.edges@[f];
        assert(g.edges@.len() == g.edges.len());
        lemma_flat_contains(cc.cut_edge_set@, em, f as usize);
        assert(mc.destination_set@.contains(u) == cc.destination_set@.contains(cls[u as int] as usize));
        assert(mc.destination_set@.contains(v) == cc.destination_set@.contains(cls[v as int] as usize));
        if mc.cut_edge_set@.contains(f as usize) {
            let i = choose|i: int| 0 <= i < cc.cut_edge_set@.len() && #[trigger] em[cc.cut_edge_set@[i] as int].contains(f as usize);
            let c = cc.cut_edge_set@[i] as int;
            assert(c < cg.edges@.len());
            let j = choose|j: int| 0 <= j < em[c].len() && em[c][j] == f as usize;
            assert(crate::path_residual::joins_pair(cg.edges@[c], cls[u as int] as usize, cls[v as int] as usize));
            assert(cc.cut_edge_set@.contains(c as usize));
            assert(listed_iff_crossing(cg, all_edges(cg), cc, c));
            assert(crosses(cg, cc.destination_set@, c));
        }
        if in_use[f] && crosses(g, mc.destination_set@, f) {
            assert(cls[u as int] != cls[v as int]);
            let c = choose|c: int| 0 <= c < em.len() && #[trigger] em[c].contains(f as usize);
            let j = choose|j: int| 0 <= j < em[c].len() && em[c][j] == f as usize;
            assert(cg.edges@.len() == cg.edges.len());
            assert((c as usize) as int == c);
            assert(crate::path_residual::joins_pair(cg.edges@[c], cls[u as int] as usize, cls[v as int] as usize));
            assert(crosses(cg, cc.destination_set@, c));
            assert(all_edges(cg)[c]);
            assert(listed_iff_crossing(cg, all_edges(cg), cc, c));
            assert(cc.cut_edge_set@.contains(c as usize));
            let i = choose|i: int| 0 <= i < cc.cut_edge_set@.len() && cc.cut_edge_set@[i] == c as usize;
            assert(cc.cut_edge_set@[i] as int == c);
            assert(em[cc.cut_edge_set@[i] as int].contains(f as usize));
            assert(flat(cc.cut_edge_set@, em).contains(f as usize));
        }
    }
}

/// Contraction round trip: translating an exact cut of the contracted graph back through the
/// contraction's mapping gives an exact cut of the original graph restricted to the edges in
/// use. Where the cut has the merged source on its source side, every source vertex is on the
/// translated source side; likewise for the destination when the sets are disjoint.
pub proof fn lemma_translated_cut_is_exact(
    g: &UnGraph,
    src: Seq<usize>,
    dst: Seq<usize>,
    in_use: Seq<bool>,
    cg: &UnGraph,
    ns: int,
    nt: int,
    map: &IndexMapping,
    merge: bool,
    cls: Seq<int>,
    cc: Cut,
    mc: Cut,
)
    requires
        g.wf(),
        valid_sets(g, src, dst, in_use),
        contracted_by(g, src, dst, in_use, cg, ns, nt, map, merge, cls),
        exact_cut(cg, all_edges(cg), cc),
        translated(cc, map, mc),
    ensures
        exact_cut(g, in_use, mc),
        cc.source_set@.contains(ns as usize) ==> forall|i: int| 0 <= i < src.len() ==> mc.source_set@.contains(#[trigger] src[i]),
        cc.destination_set@.contains(nt as usize) && !sets_overlap(src, dst) ==> forall|i: int|
            0 <= i < dst.len() ==> mc.destination_set@.contains(#[trigger] dst[i]),
{
    let vm = map.vertex_view();
    let em = map.edge_view();
    let n = g.node_count;
    // a vertex lies on a translated side just when its contracted vertex lies on that side
    assert forall|x: int| 0 <= x < n implies (mc.source_set@.contains(x as usize) <==> cc.source_set@.contains(
        cls[x] as usize,
    )) && (mc.destination_set@.contains(x as usize) <==> cc.destination_set@.contains(cls[x] as usize)) by {
        lemma_flat_contains(cc.source_set@, vm, x as usize);
        lemma_flat_contains(cc.destination_set@, vm, x as usize);
        assert(vm[cls[x]].contains(x as usize));
        assert forall|c: int| 0 <= c < vm.len() && vm[c].contains(x as usize) implies c == cls[x] by {
            let i = choose|i: int| 0 <= i < vm[c].len() && vm[c][i] == x as usize;
            assert(cls[vm[c][i] as int] == c);
        }
        if cc.source_set@.contains(cls[x] as usize) {
            let i = choose|i: int| 0 <= i < cc.source_set@.len() && cc.source_set@[i] == cls[x] as usize;
            assert(vm[cc.source_set@[i] as int].contains(x as usize));
        }
        if mc.source_set@.contains(x as usize) {
            let i = choose|i: int| 0 <= i < cc.source_set@.len() && #[trigger] vm[cc.source_set@[i] as int].contains(x as usize);
            assert(cc.source_set@[i] < cg.node_count);
        }
        if cc.destination_set@.contains(cls[x] as usize) {
            let i = choose|i: int| 0 <= i < cc.destination_set@.len() && cc.destination_set@[i] == cls[x] as usize;
            assert(vm[cc.destination_set@[i] as int].contains(x as usize));
        }
        if mc.destination_set@.contains(x as usize) {
            let i = choose|i: int| 0 <= i < cc.destination_set@.len() && #[trigger] vm[cc.destination_set@[i] as int].contains(x as usize);
            assert(cc.destination_set@[i] < cg.node_count);
        }
    }
    // sides
    assert forall|v: int| 0 <= v < n implies (mc.source_set@.contains(v as usize) <==> !#[trigger] mc.destination_set@.contains(v as usize)) by {
        assert(0 <= cls[v] < cg.node_count);
        assert(cc.source_set@.contains(cls[v] as usize) <==> !cc.destination_set@.contains(cls[v] as usize));
    }
    assert forall|i: int| 0 <= i < mc.source_set@.len() implies #[trigger] mc.source_set@[i] < n by {
        let x = mc.source_set@[i];
        lemma_flat_contains(cc.source_set@, vm, x);
        let j = choose|j: int| 0 <= j < cc.source_set@.len() && #[trigger] vm[cc.source_set@[j] as int].contains(x);
        assert(cc.source_set@[j] < cg.node_count);
        let k = choose|k: int| 0 <= k < vm[cc.source_set@[j] as int].len() && vm[cc.source_set@[j] as int][k] == x;
    }
    assert forall|i: int| 0 <= i < mc.destination_set@.len() implies #[trigger] mc.destination_set@[i] < n by {
        let x = mc.destination_set@[i];
        lemma_flat_contains(cc.destination_set@, vm, x);
        let j = choose|j: int| 0 <= j < cc.destination_set@.len() && #[trigger] vm[cc.destination_set@[j] as int].contains(x);
        assert(cc.destination_set@[j] < cg.node_count);
        let k = choose|k: int| 0 <= k < vm[cc.destination_set@[j] as int].len() && vm[cc.destination_set@[j] as int][k] == x;
    }
    lemma_translated_edges(g, src, dst, in_use, cg, ns, nt, map, merge, cls, cc, mc);
    assert forall|i: int| 0 <= i < mc.cut_edge_set@.len() implies #[trigger] mc.cut_edge_set@[i] < g.edges@.len() by {
        let x = mc.cut_edge_set@[i];
        lemma_flat_contains(cc.cut_edge_set@, em, x);
        let j = choose|j: int| 0 <= j < cc.cut_edge_set@.len() && #[trigger] em[cc.cut_edge_set@[j] as int].contains(x);
        assert(cc.cut_edge_set@[j] < cg.edges@.len());
        let k = choose|k: int| 0 <= k < em[cc.cut_edge_set@[j] as int].len() && em[cc.cut_edge_set@[j] as int][k] == x;
    }
    // no edge twice
    assert forall|i: int| 0 <= i < cc.cut_edge_set@.len() implies (#[trigger] em[cc.cut_edge_set@[i] as int]).no_duplicates() by {
        let c = cc.cut_edge_set@[i] as int;
        assert(c < em.len());
        assert(crate::cut::increasing(em[c]));
        assert forall|a: int, b: int| 0 <= a < em[c].len() && 0 <= b < em[c].len() && a != b implies em[c][a] != em[c][b] by {
            if a < b {
                assert(em[c][a] < em[c][b]);
            } else {
                assert(em[c][b] < em[c][a]);
            }
        }
    }
    assert forall|i: int, j: int, x: usize|
        0 <= i < cc.cut_edge_set@.len() && 0 <= j < cc.cut_edge_set@.len() && i != j && #[trigger] em[cc.cut_edge_set@[i] as int].contains(x)
            implies !#[trigger] em[cc.cut_edge_set@[j] as int].contains(x) by {
        let c = cc.cut_edge_set@[i] as int;
        let d = cc.cut_edge_set@[j] as int;
        assert(c < em.len() && d < em.len());
        assert(c != d);
        if em[d].contains(x) {
            let a = choose|a: int| 0 <= a < em[c].len() && em[c][a] == x;
            let b = choose|b: int| 0 <= b < em[d].len() && em[d][b] == x;
            assert(em[c][a] == em[d][b]);
        }
    }
    lemma_flat_no_duplicates(cc.cut_edge_set@, em);
    assert(mc.cut_edge_set@.no_duplicates());
    assert(mc.size == mc.cut_edge_set@.len());
    assert(forall|v: int|
        0 <= v < g.node_count ==> (mc.source_set@.contains(v as usize) <==> !#[trigger] mc.destination_set@.contains(
            v as usize,
        )));
    assert(forall|i: int| 0 <= i < mc.source_set@.len() ==> #[trigger] mc.source_set@[i] < g.node_count);
    assert(forall|i: int|
        0 <= i < mc.destination_set@.len() ==> #[trigger] mc.destination_set@[i] < g.node_count);
    assert(forall|i: int| 0 <= i < mc.cut_edge_set@.len() ==> #[trigger] mc.cut_edge_set@[i] < g.edges@.len());
    assert(mc.cut_edge_set@.no_duplicates());
    assert(mc.size == mc.cut_edge_set@.len());
    assert(forall|v: int|
        0 <= v < g.node_count ==> (mc.source_set@.contains(v as usize) <==> !#[trigger] mc.destination_set@.contains(
            v as usize,
        )));
    assert(forall|i: int| 0 <= i < mc.source_set@.len() ==> #[trigger] mc.source_set@[i] < g.node_count);
    assert(forall|i: int|
        0 <= i < mc.destination_set@.len() ==> #[trigger] mc.destination_set@[i] < g.node_count);
    assert(forall|i: int| 0 <= i < mc.cut_edge_set@.len() ==> #[trigger] mc.cut_edge_set@[i] < g.edges@.len());
    assert(mc.cut_edge_set@.no_duplicates());
    assert(mc.size == mc.cut_edge_set@.len());
    assert(exact_cut(g, in_use, mc));

    // the two sets
    if cc.source_set@.contains(ns as usize) {
        assert forall|i: int| 0 <= i < src.len() implies mc.source_set@.contains(#[trigger] src[i]) by {
            let s = src[i] as int;
            assert(src.contains(src[i]));
            assert(src.contains(src[0]));
            assert(rep(src, dst, s) == rep(src, dst, src[0] as int));
            assert(cls[s] == cls[src[0] as int]);
        }
    }
    if cc.destination_set@.contains(nt as usize) && !sets_overlap(src, dst) {
        assert forall|i: int| 0 <= i < dst.len() implies mc.destination_set@.contains(#[trigger] dst[i]) by {
            let t = dst[i] as int;
            assert(!src.contains(dst[i]));
            assert(!src.contains(dst[0]));
            assert(dst.contains(dst[i]));
            assert(dst.contains(dst[0]));
            assert(rep(src, dst, t) == rep(src, dst, dst[0] as int));
            assert(cls[t] == cls[dst[0] as int]);
        }
    }
}

/// The set-to-set minimum cut is exact: the minimum cut closest to the destination found on
/// the contracted graph, translated back, is an exact cut of the original graph restricted to
/// the edges in use, with every source vertex on its source side and every destination vertex
/// on its destination side.
pub proof fn lemma_set_cut_is_exact(
    g: &UnGraph,
    src: Seq<usize>,
    dst: Seq<usize>,
    in_use: Seq<bool>,
    k: usize,
    merge: bool,
    cg: &UnGraph,
    ns: int,
    nt: int,
    map: &IndexMapping,
    paths: Seq<crate::path_residual::Path>,
    res: &crate::graph::ResidualGraph,
    cc: Cut,
    mc: Cut,
)
    requires
        g.wf(),
        valid_sets(g, src, dst, in_use),
        !sets_overlap(src, dst),
        set_search_result(g, src, dst, in_use, k, merge, cg, ns, nt, map, paths, res),
        closest_between(paths, res, ns, nt, cc),
        translated(cc, map, mc),
    ensures
        exact_cut(g, in_use, mc),
        forall|i: int| 0 <= i < src.len() ==> mc.source_set@.contains(#[trigger] src[i]),
        forall|i: int| 0 <= i < dst.len() ==> mc.destination_set@.contains(#[trigger] dst[i]),
{
    let cls = choose|cls: Seq<int>| contracted_by(g, src, dst, in_use, cg, ns, nt, map, merge, cls);
    assert(0 <= cls[src[0] as int] < cg.node_count);
    assert(0 <= cls[dst[0] as int] < cg.node_count);
    lemma_closest_cut_is_exact(cg, ns, nt, paths, res, cc);
    lemma_translated_cut_is_exact(g, src, dst, in_use, cg, ns, nt, map, merge, cls, cc, mc);
}

/// The contraction with parallel edges merged is unique: two results that both meet
/// `contracted_by` on the same inputs number the vertices alike and hold the same graph,
/// source, destination and mapping.
pub proof fn lemma_contraction_unique(
    g: &UnGraph,
    src: Seq<usize>,
    dst: Seq<usize>,
    in_use: Seq<bool>,
    cg1: &UnGraph,
    ns1: int,
    nt1: int,
    map1: &IndexMapping,
    cls1: Seq<int>,
    cg2: &UnGraph,
    ns2: int,
    nt2: int,
    map2: &IndexMapping,
    cls2: Seq<int>,
)
    requires
        g.wf(),
        valid_sets(g, src, dst, in_use),
        contracted_by(g, src, dst, in_use, cg1, ns1, nt1, map1, true, cls1),
        contracted_by(g, src, dst, in_use, cg2, ns2, nt2, map2, true, cls2),
    ensures
        cls1 == cls2,
        ns1 == ns2,
        nt1 == nt2,
        cg1.node_count == cg2.node_count,
        cg1.edges@ == cg2.edges@,
        map1.vertex_view() == map2.vertex_view(),
        map1.edge_view() == map2.edge_view(),
{
    let n = g.node_count;
    let m = g.edges@.len();
    let order = first_seen_order(g, src, dst, in_use);
    crate::cut::lemma_dedup_first(
        crate::path_residual::met_by_edges(g, src, dst, in_use, m as int) + crate::path_residual::met_by_vertices(src, dst, n as int),
    );
    assert(order.no_duplicates());
    assert forall|v: int| 0 <= v < n implies cls1[v] == cls2[v] by {
        assert(order[cls1[v]] == rep(src, dst, v));
        assert(order[cls2[v]] == rep(src, dst, v));
    }
    assert(cls1 =~= cls2);
    let vm1 = map1.vertex_view();
    let vm2 = map2.vertex_view();
    assert(g.edges@.len() == g.edges.len());
    assert forall|c: int| 0 <= c < vm1.len() implies vm1[c] == vm2[c] by {
        let d = Seq::new(n as nat, |v: int| cls1[v] == c);
        assert forall|v: int| 0 <= v < d.len() implies (vm1[c].contains(v as usize) <==> #[trigger] d[v] == true) by {
            if vm1[c].contains(v as usize) {
                let i = choose|i: int| 0 <= i < vm1[c].len() && vm1[c][i] == v as usize;
                assert(cls1[vm1[c][i] as int] == c);
            }
            if d[v] {
                assert(vm1[cls1[v]].contains(v as usize));
            }
        }
        assert forall|v: int| 0 <= v < d.len() implies (vm2[c].contains(v as usize) <==> #[trigger] d[v] == true) by {
            if vm2[c].contains(v as usize) {
                let i = choose|i: int| 0 <= i < vm2[c].len() && vm2[c][i] == v as usize;
                assert(cls2[vm2[c][i] as int] == c);
            }
            if d[v] {
                assert(vm2[cls2[v]].contains(v as usize));
            }
        }
        crate::cut::lemma_increasing_members_unique(vm1[c], vm2[c], d, true);
    }
    assert(vm1 =~= vm2);
    let em1 = map1.edge_view();
    let em2 = map2.edge_view();
    assert forall|c: int| 0 <= c < em1.len() implies em1[c] == em2[c] by {
        let e = cg1.edges@[c];
        let d = Seq::new(m, |f: int| in_use[f] && joins_pair(e, cls1[g.edges@[f].0 as int] as usize, cls1[g.edges@[f].1 as int] as usize));
        assert forall|f: int| 0 <= f < d.len() implies (em1[c].contains(f as usize) <==> #[trigger] d[f] == true) by {
            if em1[c].contains(f as usize) {
                let i = choose|i: int| 0 <= i < em1[c].len() && em1[c][i] == f as usize;
                assert(em1[c][i] as int == f);
            }
            if d[f] {
                let (u, v) = g.edges@[f];
                assert(cls1[u as int] != cls1[v as int]) by {
                    assert(e.0 != e.1);
                }
                let c2 = choose|c2: int| 0 <= c2 < em1.len() && #[trigger] em1[c2].contains(f as usize);
                let i = choose|i: int| 0 <= i < em1[c2].len() && em1[c2][i] == f as usize;
                assert(joins_pair(cg1.edges@[c2], cls1[u as int] as usize, cls1[v as int] as usize));
                if c2 < c {
                    assert(!joins_pair(cg1.edges@[c2], cg1.edges@[c].0, cg1.edges@[c].1));
                } else if c < c2 {
                    assert(!joins_pair(cg1.edges@[c], cg1.edges@[c2].0, cg1.edges@[c2].1));
                }
            }
        }
        assert(cg2.edges@[c] == e);
        assert forall|f: int| 0 <= f < d.len() implies (em2[c].contains(f as usize) <==> #[trigger] d[f] == true) by {
            if em2[c].contains(f as usize) {
                let i = choose|i: int| 0 <= i < em2[c].len() && em2[c][i] == f as usize;
                assert(em2[c][i] as int == f);
            }
            if d[f] {
                let (u, v) = g.edges@[f];
                assert(cls2[u as int] != cls2[v as int]) by {
                    assert(e.0 != e.1);
                }
                let c2 = choose|c2: int| 0 <= c2 < em2.len() && #[trigger] em2[c2].contains(f as usize);
                let i = choose|i: int| 0 <= i < em2[c2].len() && em2[c2][i] == f as usize;
                assert(joins_pair(cg2.edges@[c2], cls2[u as int] as usize, cls2[v as int] as usize));
                if c2 < c {
                    assert(!joins_pair(cg2.edges@[c2], cg2.edges@[c].0, cg2.edges@[c].1));
                } else if c < c2 {
                    assert(!joins_pair(cg2.edges@[c], cg2.edges@[c2].0, cg2.edges@[c2].1));
                }
            }
        }
        assert forall|i: int| 0 <= i < em1[c].len() implies #[trigger] em1[c][i] < d.len() by {}
        assert forall|i: int| 0 <= i < em2[c].len() implies #[trigger] em2[c][i] < d.len() by {}
        crate::cut::lemma_increasing_members_unique(em1[c], em2[c], d, true);
    }
    assert(em1 =~= em2);
}

} // verus!
