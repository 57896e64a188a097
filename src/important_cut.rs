use vstd::prelude::*;

use crate::cut::{
    copy_indices, flat, keys_in, map_cut, minimum_cut_between, path_shape, CutError, ImportantCut,
};
use crate::graph::{count_true, lemma_count_true_bound, lemma_count_true_mono, lemma_count_true_set, UnGraph};
use crate::contraction_laws::lemma_set_cut_is_exact;
use crate::cut::listed_iff_crossing;
use crate::cut::{closest_between, translated, Cut};
use crate::graph::ResidualGraph;
use crate::path_residual::{
    contracted_by, disjoint_paths, more_paths_than, paths_for_sets, set_search_result, sets_overlap, valid_path, IndexMapping,
    Path,
};

verus! {

/// Paths that walk in `g` have their vertices in `g`.
proof fn lemma_paths_shape(g: &UnGraph, paths: Seq<Path>, s: int, t: int)
    requires
        g.wf(),
        0 <= s < g.node_count,
        disjoint_paths(g, paths, s, t),
    ensures
        path_shape(paths, g.node_count as nat),
{
    assert forall|p: int| 0 <= p < paths.len() implies {
        &&& (#[trigger] paths[p]).vertices@.len() == paths[p].edges@.len() + 1
        &&& forall|j: int| 0 <= j < paths[p].vertices@.len() ==> #[trigger] paths[p].vertices@[j] < g.node_count
    } by {
        assert(valid_path(g, paths[p], s, t));
        assert forall|j: int| 0 <= j < paths[p].vertices@.len() implies #[trigger] paths[p].vertices@[j] < g.node_count by {
            if j < paths[p].edges@.len() {
                assert(g.joins(paths[p].edges@[j] as int, paths[p].vertices@[j] as int, paths[p].vertices@[j + 1] as int));
            } else if j > 0 {
                assert(g.joins(paths[p].edges@[j - 1] as int, paths[p].vertices@[j - 1] as int, paths[p].vertices@[j] as int));
            }
        }
    }
}

/// Where every list has one element, the lists named by `keys` hold as many values as there
/// are keys.
proof fn lemma_flat_len_one(keys: Seq<usize>, table: Seq<Seq<usize>>)
    requires
        keys_in(keys, table.len()),
        forall|c: int| 0 <= c < table.len() ==> (#[trigger] table[c]).len() == 1,
    ensures
        flat(keys, table).len() == keys.len(),
    decreases keys.len(),
{
    if keys.len() > 0 {
        assert(keys_in(keys.drop_last(), table.len())) by {
            assert forall|i: int| 0 <= i < keys.drop_last().len() implies #[trigger] keys.drop_last()[i] < table.len() by {
                assert(keys.drop_last()[i] == keys[i]);
            }
        }
        lemma_flat_len_one(keys.drop_last(), table);
        assert(keys[keys.len() - 1] < table.len());
    }
}

/// Every reported cut lists each edge once and has at most `k` edges.
pub open spec fn within_budget(cuts: Seq<ImportantCut>, k: usize) -> bool {
    forall|i: int|
        0 <= i < cuts.len() ==> (#[trigger] cuts[i]).edge_indices@.no_duplicates() && cuts[i].edge_indices@.len() <= k
}

/// The edges `edges` separate `src` from `dst` in `g`: some vertex set that holds every vertex
/// of `src` and none of `dst` is left by no edge outside `edges`.
pub open spec fn separates(g: &UnGraph, src: Seq<usize>, dst: Seq<usize>, edges: Seq<usize>) -> bool {
    exists|side: Seq<bool>| #[trigger] separating_side(g, src, dst, edges, side)
}

/// `side` holds every vertex of `src` and none of `dst`, and only edges of `edges` leave it.
pub open spec fn separating_side(g: &UnGraph, src: Seq<usize>, dst: Seq<usize>, edges: Seq<usize>, side: Seq<bool>) -> bool {
    &&& side.len() == g.node_count
    &&& forall|i: int| 0 <= i < src.len() ==> #[trigger] side[src[i] as int]
    &&& forall|i: int| 0 <= i < dst.len() ==> !#[trigger] side[dst[i] as int]
    &&& forall|e: int|
        0 <= e < g.edges@.len() && #[trigger] side[g.edges@[e].0 as int] != side[g.edges@[e].1 as int] ==> edges.contains(
            e as usize,
        )
}

/// Both sets are non-empty and name vertices of `g` only.
pub open spec fn valid_query(g: &UnGraph, src: Seq<usize>, dst: Seq<usize>) -> bool {
    &&& src.len() > 0
    &&& dst.len() > 0
    &&& forall|i: int| 0 <= i < src.len() ==> #[trigger] src[i] < g.node_count
    &&& forall|i: int| 0 <= i < dst.len() ==> #[trigger] dst[i] < g.node_count
}

/// Every reported edge is an edge of a graph with `m` edges.
pub open spec fn in_graph(cuts: Seq<ImportantCut>, m: nat) -> bool {
    forall|i: int, j: int| 0 <= i < cuts.len() && 0 <= j < cuts[i].edge_indices@.len() ==> #[trigger] cuts[i].edge_indices@[j] < m
}

/// `a` and `b` hold the same edges.
pub open spec fn same_edge_set(a: Seq<usize>, b: Seq<usize>) -> bool {
    forall|x: usize| a.contains(x) <==> b.contains(x)
}

/// No edge set is reported twice.
pub open spec fn distinct_sets(cuts: Seq<ImportantCut>) -> bool {
    forall|i: int, j: int| 0 <= i < j < cuts.len() ==> !same_edge_set(#[trigger] cuts[i].edge_indices@, #[trigger] cuts[j].edge_indices@)
}

/// Whether `a` and `b` hold the same edges.
fn same_edges(a: &Vec<usize>, b: &Vec<usize>) -> (r: bool)
    ensures
        r == same_edge_set(a@, b@),
{
    let mut i: usize = 0;
    while i < a.len()
        invariant
            i <= a@.len(),
            forall|j: int| 0 <= j < i ==> b@.contains(#[trigger] a@[j]),
        decreases a.len() - i,
    {
        if !crate::path_residual::contains(b, a[i]) {
            return false;
        }
        i = i + 1;
    }
    let mut i: usize = 0;
    while i < b.len()
        invariant
            i <= b@.len(),
            forall|j: int| 0 <= j < a@.len() ==> b@.contains(#[trigger] a@[j]),
            forall|j: int| 0 <= j < i ==> a@.contains(#[trigger] b@[j]),
        decreases b.len() - i,
    {
        if !crate::path_residual::contains(a, b[i]) {
            return false;
        }
        i = i + 1;
    }
    proof {
        assert forall|x: usize| a@.contains(x) <==> b@.contains(x) by {
            if a@.contains(x) {
                let j = choose|j: int| 0 <= j < a@.len() && a@[j] == x;
                assert(b@.contains(a@[j]));
            }
            if b@.contains(x) {
                let j = choose|j: int| 0 <= j < b@.len() && b@[j] == x;
                assert(a@.contains(b@[j]));
            }
        }
    }
    true
}

/// Whether some cut of `cuts` has the edges of `c`.
fn reported_already(cuts: &Vec<ImportantCut>, c: &Vec<usize>) -> (r: bool)
    ensures
        r == exists|i: int| 0 <= i < cuts@.len() && same_edge_set(#[trigger] cuts@[i].edge_indices@, c@),
{
    let mut i: usize = 0;
    while i < cuts.len()
        invariant
            i <= cuts@.len(),
            forall|j: int| 0 <= j < i ==> !same_edge_set(#[trigger] cuts@[j].edge_indices@, c@),
        decreases cuts.len() - i,
    {
        if same_edges(&cuts[i].edge_indices, c) {
            return true;
        }
        i = i + 1;
    }
    false
}

/// `edges` holds the edges of the minimum cut closest to the destination that the set-to-set
/// search finds for `src` and `dst` on the edges in use, translated back to the graph, together
/// with the edges of `z`; where `branched`, that cut is neither empty nor of `k` edges.
pub open spec fn reports_closest_cut(
    g: &UnGraph,
    src: Seq<usize>,
    dst: Seq<usize>,
    in_use: Seq<bool>,
    k: usize,
    z: Seq<usize>,
    edges: Seq<usize>,
    branched: bool,
) -> bool {
    exists|cg: UnGraph, ns: int, nt: int, map: IndexMapping, paths: Seq<Path>, res: ResidualGraph, cc: Cut, mc: Cut|
        #![trigger set_search_result(g, src, dst, in_use, k, false, &cg, ns, nt, &map, paths, &res), translated(cc, &map, mc)]
        set_search_result(g, src, dst, in_use, k, false, &cg, ns, nt, &map, paths, &res) && closest_between(paths, &res, ns, nt, cc)
            && translated(cc, &map, mc) && same_edge_set(edges, mc.cut_edge_set@ + z) && (branched ==> 0 < mc.size < k)
}

/// The vertices of `src` that lie in `g`, in increasing order, without repeats.
pub open spec fn source_list(g: &UnGraph, src: Seq<usize>) -> Seq<usize> {
    crate::cut::members_upto(Seq::new(g.node_count as nat, |v: int| src.contains(v as usize)), true, g.node_count as int)
}

/// Every reported cut separates `src` from `dst`.
pub open spec fn all_separate(g: &UnGraph, src: Seq<usize>, dst: Seq<usize>, cuts: Seq<ImportantCut>) -> bool {
    forall|i: int| 0 <= i < cuts.len() ==> separates(g, src, dst, (#[trigger] cuts[i]).edge_indices@)
}

/// `v` followed by `w`.
fn concat(v: &Vec<usize>, w: &Vec<usize>) -> (r: Vec<usize>)
    ensures
        r@ == v@ + w@,
{
    let mut r = copy_indices(v);
    let mut i: usize = 0;
    while i < w.len()
        invariant
            i <= w@.len(),
            r@ == v@ + w@.subrange(0, i as int),
        decreases w.len() - i,
    {
        r.push(w[i]);
        proof {
            assert(r@ =~= v@ + w@.subrange(0, i + 1));
        }
        i = i + 1;
    }
    proof {
        assert(w@.subrange(0, i as int) =~= w@);
    }
    r
}

fn copy_mask(v: &Vec<bool>) -> (r: Vec<bool>)
    ensures
        r@ == v@,
{
    let mut r: Vec<bool> = Vec::new();
    let mut i: usize = 0;
    while i < v.len()
        invariant
            i <= v@.len(),
            r@ == v@.subrange(0, i as int),
        decreases v.len() - i,
    {
        r.push(v[i]);
        proof {
            assert(r@ =~= v@.subrange(0, i + 1));
        }
        i = i + 1;
    }
    proof {
        assert(r@ =~= v@);
    }
    r
}

/// The vertices marked in `mask`, in increasing order.
fn marked(mask: &Vec<bool>) -> (r: Vec<usize>)
    ensures
        r@ == crate::cut::members_upto(mask@, true, mask@.len() as int),
        forall|i: int| 0 <= i < r@.len() ==> #[trigger] r@[i] < mask@.len() && mask@[r@[i] as int],
        forall|v: int| 0 <= v < mask@.len() && #[trigger] mask@[v] ==> r@.contains(v as usize),
{
    let mut r: Vec<usize> = Vec::new();
    let mut v: usize = 0;
    while v < mask.len()
        invariant
            v <= mask@.len(),
            forall|i: int| 0 <= i < r@.len() ==> #[trigger] r@[i] < v && mask@[r@[i] as int],
            forall|x: int| 0 <= x < v && #[trigger] mask@[x] ==> r@.contains(x as usize),
            r@ == crate::cut::members_upto(mask@, true, v as int),
        decreases mask.len() - v,
    {
        let ghost old_r = r@;
        if mask[v] {
            r.push(v);
            proof {
                assert(r@[r@.len() - 1] == v);
            }
        }
        proof {
            assert forall|x: int| 0 <= x < v + 1 && #[trigger] mask@[x] implies r@.contains(x as usize) by {
                if x < v {
                    let j = choose|j: int| 0 <= j < old_r.len() && old_r[j] == x as usize;
                    assert(r@[j] == x as usize);
                }
            }
        }
        v = v + 1;
    }
    r
}

/// `mask` with the vertices of `vs` marked as well; `InvariantViolation` where `vs` names a
/// vertex outside the mask.
fn mark_all(mask: &mut Vec<bool>, vs: &Vec<usize>) -> (r: Result<(), CutError>)
    ensures
        final(mask)@.len() == old(mask)@.len(),
        forall|v: int| 0 <= v < old(mask)@.len() && #[trigger] old(mask)@[v] ==> final(mask)@[v],
        forall|v: int| 0 <= v < old(mask)@.len() && #[trigger] final(mask)@[v] ==> old(mask)@[v] || vs@.contains(v as usize),
        r matches Err(e) ==> e == CutError::InvariantViolation,
        (forall|i: int| 0 <= i < vs@.len() ==> #[trigger] vs@[i] < old(mask)@.len()) ==> r is Ok,
{
    let mut i: usize = 0;
    while i < vs.len()
        invariant
            i <= vs@.len(),
            mask@.len() == old(mask)@.len(),
            forall|v: int| 0 <= v < old(mask)@.len() && #[trigger] old(mask)@[v] ==> mask@[v],
            forall|v: int| 0 <= v < old(mask)@.len() && #[trigger] mask@[v] ==> old(mask)@[v] || exists|j: int| 0 <= j < i && vs@[j] == v,
        decreases vs.len() - i,
    {
        let x = vs[i];
        if x >= mask.len() {
            return Err(CutError::InvariantViolation);
        }
        let ghost m0 = mask@;
        mask.set(x, true);
        proof {
            assert forall|v: int| 0 <= v < old(mask)@.len() && #[trigger] mask@[v] implies old(mask)@[v] || exists|j: int| 0 <= j < i + 1 && vs@[j] == v by {
                if v == x {
                    assert(vs@[i as int] == v);
                } else {
                    assert(m0[v]);
                    if !old(mask)@[v] {
                        let j = choose|j: int| 0 <= j < i && vs@[j] == v;
                        assert(vs@[j] == v);
                    }
                }
            }
        }
        i = i + 1;
    }
    proof {
        assert forall|v: int| 0 <= v < old(mask)@.len() && #[trigger] mask@[v] implies old(mask)@[v] || vs@.contains(v as usize) by {
            if !old(mask)@[v] {
                let j = choose|j: int| 0 <= j < i && vs@[j] == v;
                assert(vs@[j] == v as usize);
            }
        }
    }
    Ok(())
}

/// One state of the enumeration: the source side so far (`in_source`), the budget `k`, the
/// edges still in use and the edges already committed to the cut (`edges_in_cut`). Reports
/// the minimum cut closest to the destination joined with the committed edges, then branches
/// on one of its edges: once with the edge's far endpoint added to the source side, once with
/// the edge committed and the budget one smaller.
fn important_cut_inner(
    original_graph: &UnGraph,
    in_source: Vec<bool>,
    destination_set: &Vec<usize>,
    k: usize,
    edges_in_use: Vec<bool>,
    edges_in_cut: Vec<usize>,
    important_cuts: &mut Vec<ImportantCut>,
    Ghost(k0): Ghost<usize>,
    Ghost(s0): Ghost<Seq<usize>>,
) -> (r: Result<(), CutError>)
    requires
        original_graph.wf(),
        in_source@.len() == original_graph.node_count,
        edges_in_use@.len() == original_graph.edges@.len(),
        edges_in_cut@.len() + k <= k0,
        within_budget(old(important_cuts)@, k0),
        forall|i: int| 0 <= i < s0.len() ==> #[trigger] s0[i] < original_graph.node_count && in_source@[s0[i] as int],
        forall|e: int| 0 <= e < original_graph.edges@.len() ==> (!#[trigger] edges_in_use@[e] <==> edges_in_cut@.contains(e as usize)),
        all_separate(original_graph, s0, destination_set@, old(important_cuts)@),
        in_graph(old(important_cuts)@, original_graph.edges@.len()),
        distinct_sets(old(important_cuts)@),
        forall|i: int| 0 <= i < edges_in_cut@.len() ==> #[trigger] edges_in_cut@[i] < original_graph.edges@.len(),
        s0.len() > 0,
        destination_set@.len() > 0,
        forall|i: int| 0 <= i < destination_set@.len() ==> #[trigger] destination_set@[i] < original_graph.node_count,
    ensures
        within_budget(final(important_cuts)@, k0),
        all_separate(original_graph, s0, destination_set@, final(important_cuts)@),
        in_graph(final(important_cuts)@, original_graph.edges@.len()),
        distinct_sets(final(important_cuts)@),
        r is Ok,
        final(important_cuts)@.len() >= old(important_cuts)@.len(),
        forall|i: int| 0 <= i < old(important_cuts)@.len() ==> #[trigger] final(important_cuts)@[i] == old(important_cuts)@[i],
        old(important_cuts)@.len() == 0 && final(important_cuts)@.len() == 0 ==> sets_overlap(
            crate::cut::members_upto(in_source@, true, in_source@.len() as int),
            destination_set@,
        ) || more_paths_than(original_graph, crate::cut::members_upto(in_source@, true, in_source@.len() as int), destination_set@, edges_in_use@, false, k),
        old(important_cuts)@.len() == 0 && final(important_cuts)@.len() > 0 ==> reports_closest_cut(
            original_graph,
            crate::cut::members_upto(in_source@, true, in_source@.len() as int),
            destination_set@,
            edges_in_use@,
            k,
            edges_in_cut@,
            final(important_cuts)@[0].edge_indices@,
            final(important_cuts)@.len() > 1,
        ),
    decreases k, original_graph.node_count - count_true(in_source@),
{
    let source_set = marked(&in_source);
    proof {
        assert(in_source@[s0[0] as int]);
        assert(source_set@.contains(s0[0]));
    }
    // parallel edges are kept apart: merged into one contracted edge they would count as a
    // single edge of the cut, and the cut found could exceed the budget
    let found = paths_for_sets(original_graph, &source_set, destination_set, k, &edges_in_use, false);
    let (paths, residual, index_mapping, graph, source, destination) = match found {
        Err(e) => return Err(e),
        Ok(None) => return Ok(()),
        Ok(Some(x)) => x,
    };
    let ghost cls = choose|cls: Seq<int>|
        contracted_by(original_graph, source_set@, destination_set@, edges_in_use@, &graph, source as int, destination as int, &index_mapping, false, cls);
    proof {
        assert(0 <= cls[source_set@[0] as int] < graph.node_count);
        assert(0 <= cls[destination_set@[0] as int] < graph.node_count);
        lemma_paths_shape(&graph, paths@, source as int, destination as int);
        let s_0 = source_set@[0];
        let t_0 = destination_set@[0];
        assert(source_set@.contains(s_0));
        assert(!source_set@.contains(t_0)) by {
            if source_set@.contains(t_0) {
                assert(crate::path_residual::sets_overlap(source_set@, destination_set@));
            }
        }
        assert(destination_set@.contains(t_0));
        assert(crate::path_residual::rep(source_set@, destination_set@, s_0 as int) == s_0);
        assert(crate::path_residual::rep(source_set@, destination_set@, t_0 as int) == t_0);
        assert(source != destination);
        assert(crate::max_flow::source_unreached(&residual, source as int, destination as int));
        assert forall|p: int| 0 <= p < paths@.len() implies (#[trigger] paths@[p]).vertices@.len() == paths@[p].edges@.len() + 1
            && paths@[p].vertices@[0] == source && paths@[p].vertices@.last() == destination by {
            assert(valid_path(&graph, paths@[p], source as int, destination as int));
        }
        assert(crate::cut::paths_between(paths@, source as int, destination as int));
    }
    let cut = match minimum_cut_between(source, destination, &paths, &residual) {
        Ok(c) => c,
        Err(e) => return Err(e),
    };
    let ghost contracted_edges = cut.cut_edge_set@;
    proof {
        let d = choose|d: Seq<bool>| #[trigger] residual.reach_set(destination as int, d) && !d[source as int]
            && crate::cut::split_by(paths@, d, cut);
        assert(contracted_edges.len() == paths@.len());
    }
    proof {
        let d = choose|d: Seq<bool>| #[trigger] residual.reach_set(destination as int, d) && !d[source as int]
            && crate::cut::split_by(paths@, d, cut);
        assert forall|i: int| 0 <= i < cut.cut_edge_set@.len() implies #[trigger] cut.cut_edge_set@[i] < index_mapping.edge_view().len() by {
            assert(crate::cut::picks(paths@, d, cut.cut_edge_set@, i));
            let j = choose|j: int| crate::cut::first_crossing(paths@[i], d, j) && cut.cut_edge_set@[i] == paths@[i].edges@[j];
            assert(valid_path(&graph, paths@[i], source as int, destination as int));
        }
        assert(crate::cut::translatable(cut, &index_mapping));
    }
    let min_cut = match map_cut(cut, &index_mapping) {
        Ok(c) => c,
        Err(e) => return Err(e),
    };
    proof {
        lemma_flat_len_one(contracted_edges, index_mapping.edge_view());
        assert(min_cut.cut_edge_set@.len() <= k);
        assert(min_cut.size <= k);
    }
    proof {
        let d = choose|d: Seq<bool>| #[trigger] residual.reach_set(destination as int, d) && !d[source as int]
            && crate::cut::split_by(paths@, d, cut);
        assert(crate::cut::closest_between(paths@, &residual, source as int, destination as int, cut));
        lemma_set_cut_is_exact(original_graph, source_set@, destination_set@, edges_in_use@, k, false, &graph,
            source as int, destination as int, &index_mapping, paths@, &residual, cut, min_cut);
    }
    let combined = concat(&min_cut.cut_edge_set, &edges_in_cut);
    let reported = ImportantCut::from(combined);
    proof {
        let side = Seq::new(original_graph.node_count as nat, |v: int| min_cut.source_set@.contains(v as usize));
        assert forall|i: int| 0 <= i < s0.len() implies #[trigger] side[s0[i] as int] by {
            assert(in_source@[s0[i] as int]);
            let j = choose|j: int| 0 <= j < source_set@.len() && source_set@[j] == s0[i];
            assert(min_cut.source_set@.contains(source_set@[j]));
        }
        assert forall|i: int| 0 <= i < destination_set@.len() implies !#[trigger] side[destination_set@[i] as int] by {
            assert(min_cut.destination_set@.contains(destination_set@[i]));
        }
        assert forall|e: int|
            0 <= e < original_graph.edges@.len() && #[trigger] side[original_graph.edges@[e].0 as int] != side[original_graph.edges@[e].1 as int]
                implies reported.edge_indices@.contains(e as usize) by {
            let (a, b) = original_graph.edges@[e];
            assert(original_graph.edges@.len() == original_graph.edges.len());
            assert(listed_iff_crossing(original_graph, edges_in_use@, min_cut, e));
            assert(min_cut.destination_set@.contains(a) == !min_cut.source_set@.contains(a));
            assert(min_cut.destination_set@.contains(b) == !min_cut.source_set@.contains(b));
            if edges_in_use@[e] {
                assert(min_cut.cut_edge_set@.contains(e as usize));
                let j = choose|j: int| 0 <= j < min_cut.cut_edge_set@.len() && min_cut.cut_edge_set@[j] == e as usize;
                assert(combined@[j] == e as usize);
            } else {
                assert(edges_in_cut@.contains(e as usize));
                let j = choose|j: int| 0 <= j < edges_in_cut@.len() && edges_in_cut@[j] == e as usize;
                assert(combined@[min_cut.cut_edge_set@.len() + j] == e as usize);
            }
            assert(combined@.contains(e as usize));
            assert(reported.edge_indices@.contains(e as usize));
        }
        assert(separating_side(original_graph, s0, destination_set@, reported.edge_indices@, side));
        assert(separates(original_graph, s0, destination_set@, reported.edge_indices@));
    }
    proof {
        assert forall|j: int| 0 <= j < reported.edge_indices@.len() implies #[trigger] reported.edge_indices@[j] < original_graph.edges@.len() by {
            let x = reported.edge_indices@[j];
            assert(reported.edge_indices@.contains(x));
            assert(combined@.contains(x));
            let q = choose|q: int| 0 <= q < combined@.len() && combined@[q] == x;
            if q < min_cut.cut_edge_set@.len() {
                assert(min_cut.cut_edge_set@[q] < original_graph.edges@.len());
            } else {
                assert(edges_in_cut@[q - min_cut.cut_edge_set@.len()] < original_graph.edges@.len());
            }
        }
    }
    let ghost start = important_cuts@;
    proof {
        assert(closest_between(paths@, &residual, source as int, destination as int, cut));
        assert(translated(cut, &index_mapping, min_cut));
        assert(same_edge_set(reported.edge_indices@, min_cut.cut_edge_set@ + edges_in_cut@)) by {
            assert(combined@ == min_cut.cut_edge_set@ + edges_in_cut@);
        }
        assert(set_search_result(original_graph, source_set@, destination_set@, edges_in_use@, k, false,
            &graph, source as int, destination as int, &index_mapping, paths@, &residual));
        assert(reports_closest_cut(original_graph, source_set@, destination_set@, edges_in_use@, k, edges_in_cut@, reported.edge_indices@, false));
        if 0 < min_cut.size < k {
            assert(reports_closest_cut(original_graph, source_set@, destination_set@, edges_in_use@, k, edges_in_cut@, reported.edge_indices@, true));
        }
    }
    if !reported_already(important_cuts, &reported.edge_indices) {
        let ghost before = important_cuts@;
        important_cuts.push(reported);
        proof {
            assert forall|i: int| 0 <= i < important_cuts@.len() implies (#[trigger] important_cuts@[i]).edge_indices@.no_duplicates()
                && important_cuts@[i].edge_indices@.len() <= k0 by {
                if i < before.len() {
                    assert(important_cuts@[i] == before[i]);
                }
            }
            assert forall|i: int| 0 <= i < important_cuts@.len() implies separates(original_graph, s0, destination_set@, (#[trigger] important_cuts@[i]).edge_indices@) by {
                if i < before.len() {
                    assert(important_cuts@[i] == before[i]);
                }
            }
            assert forall|i: int, j: int| 0 <= i < important_cuts@.len() && 0 <= j < important_cuts@[i].edge_indices@.len()
                implies #[trigger] important_cuts@[i].edge_indices@[j] < original_graph.edges@.len() by {
                if i < before.len() {
                    assert(important_cuts@[i] == before[i]);
                }
            }
            assert forall|i: int, j: int| 0 <= i < j < important_cuts@.len() implies !same_edge_set(
                #[trigger] important_cuts@[i].edge_indices@, #[trigger] important_cuts@[j].edge_indices@) by {
                assert(important_cuts@[i] == before[i]);
                if j < before.len() {
                    assert(important_cuts@[j] == before[j]);
                }
            }
        }
    }
    proof {
        assert(important_cuts@.len() >= start.len());
        assert forall|i: int| 0 <= i < start.len() implies #[trigger] important_cuts@[i] == start[i] by {}
        if start.len() == 0 {
            assert(important_cuts@.len() == 1);
            assert(important_cuts@[0] == reported);
        }
    }
    let ghost after_report = important_cuts@;
    if k == 0 || min_cut.size == k || min_cut.size == 0 {
        return Ok(());
    }
    proof {
        assert forall|i: int| 0 <= i < min_cut.cut_edge_set@.len() implies #[trigger] min_cut.runs_across(original_graph, min_cut.cut_edge_set@[i]) by {
            let e = min_cut.cut_edge_set@[i];
            assert(e < original_graph.edges@.len());
            assert(min_cut.cut_edge_set@.contains(e));
            assert(original_graph.edges@.len() == original_graph.edges.len());
            assert(listed_iff_crossing(original_graph, edges_in_use@, min_cut, e as int));
            let (a, b) = original_graph.edges@[e as int];
            assert(min_cut.source_set@.contains(a) == !min_cut.destination_set@.contains(a));
            assert(min_cut.source_set@.contains(b) == !min_cut.destination_set@.contains(b));
        }
    }
    let (edge, destination_side_vertex) = match min_cut.arbitrary_edge(original_graph) {
        Ok(x) => x,
        Err(e) => return Err(e),
    };
    // first branch: the edge stays out of the cut, its far endpoint joins the source side
    let mut source_side = copy_mask(&in_source);
    proof {
        assert forall|i: int| 0 <= i < min_cut.source_set@.len() implies #[trigger] min_cut.source_set@[i] < source_side@.len() by {}
    }
    match mark_all(&mut source_side, &min_cut.source_set) {
        Ok(()) => {},
        Err(e) => return Err(e),
    }
    proof {
        let v = destination_side_vertex;
        assert(min_cut.destination_set@.contains(v));
        let j = choose|j: int| 0 <= j < min_cut.destination_set@.len() && min_cut.destination_set@[j] == v;
        assert(v < original_graph.node_count);
        assert(!min_cut.source_set@.contains(v));
        if in_source@[v as int] {
            assert(source_set@.contains(v));
            let q = choose|q: int| 0 <= q < source_set@.len() && source_set@[q] == v;
            assert(min_cut.source_set@.contains(source_set@[q]));
        }
        assert(!source_side@[v as int]);
    }
    if destination_side_vertex >= source_side.len() || source_side[destination_side_vertex] {
        return Err(CutError::InvariantViolation);
    }
    let mut widened = copy_mask(&source_side);
    proof {
        lemma_count_true_mono(in_source@, source_side@);
        lemma_count_true_set(source_side@, destination_side_vertex as int);
        lemma_count_true_bound(source_side@.update(destination_side_vertex as int, true));
    }
    widened.set(destination_side_vertex, true);
    let ghost before_first = important_cuts@;
    match important_cut_inner(
        original_graph,
        widened,
        destination_set,
        k,
        copy_mask(&edges_in_use),
        copy_indices(&edges_in_cut),
        important_cuts,
        Ghost(k0),
        Ghost(s0),
    ) {
        Ok(()) => {},
        Err(e) => return Err(e),
    }
    // second branch: the edge is committed to the cut and taken out of the graph
    let mut fewer_edges = copy_mask(&edges_in_use);
    fewer_edges.set(edge, false);
    let mut committed = copy_indices(&edges_in_cut);
    let ghost z = committed@;
    committed.push(edge);
    proof {
        assert forall|i: int| 0 <= i < committed@.len() implies #[trigger] committed@[i] < original_graph.edges@.len() by {
            if i < z.len() {
                assert(committed@[i] == z[i]);
            }
        }
        assert forall|e: int| 0 <= e < original_graph.edges@.len() implies (!#[trigger] fewer_edges@[e] <==> committed@.contains(e as usize)) by {
            if e == edge {
                assert(committed@[committed@.len() - 1] == edge);
            } else {
                assert(original_graph.edges@.len() == original_graph.edges.len());
                if z.contains(e as usize) {
                    let j = choose|j: int| 0 <= j < z.len() && z[j] == e as usize;
                    assert(committed@[j] == e as usize);
                }
                if committed@.contains(e as usize) {
                    let j = choose|j: int| 0 <= j < committed@.len() && committed@[j] == e as usize;
                    assert(z[j] == e as usize);
                }
            }
        }
    }
    let ghost before_second = important_cuts@;
    let r = important_cut_inner(original_graph, source_side, destination_set, k - 1, fewer_edges, committed, important_cuts, Ghost(k0), Ghost(s0));
    proof {
        assert forall|i: int| 0 <= i < start.len() implies #[trigger] important_cuts@[i] == start[i] by {
            assert(important_cuts@[i] == before_second[i]);
            assert(before_second[i] == before_first[i]);
        }
        if start.len() == 0 {
            assert(important_cuts@[0] == before_second[0]);
            assert(before_second[0] == before_first[0]);
        }
    }
    r
}

/// All important cuts of at most `k` edges between `source_set` and `destination_set`, by
/// the branching enumeration; each reported cut is a minimum cut closest to the destination
/// joined with the edges committed on its branch, and each edge set is reported once. `InvalidInput` where a set is empty or names a vertex the graph lacks;
/// `InvariantViolation` where the bookkeeping contradicts itself.
pub fn important_cuts(
    original_graph: &UnGraph,
    source_set: Vec<usize>,
    destination_set: Vec<usize>,
    k: usize,
) -> (r: Result<Vec<ImportantCut>, CutError>)
    requires
        original_graph.wf(),
    ensures
        !valid_query(original_graph, source_set@, destination_set@) <==> r == Err::<Vec<ImportantCut>, CutError>(
            CutError::InvalidInput,
        ),
        r matches Ok(cuts) ==> within_budget(cuts@, k),
        r matches Ok(cuts) ==> all_separate(original_graph, source_set@, destination_set@, cuts@),
        r matches Ok(cuts) ==> in_graph(cuts@, original_graph.edges@.len()),
        r matches Ok(cuts) ==> distinct_sets(cuts@),
        valid_query(original_graph, source_set@, destination_set@) ==> r is Ok,
        r matches Ok(cuts) ==> (cuts@.len() == 0 ==> sets_overlap(source_list(original_graph, source_set@), destination_set@)
            || more_paths_than(original_graph, source_list(original_graph, source_set@), destination_set@, crate::cut::all_edges(original_graph), false, k)),
        r matches Ok(cuts) ==> (cuts@.len() > 0 ==> reports_closest_cut(
            original_graph,
            source_list(original_graph, source_set@),
            destination_set@,
            crate::cut::all_edges(original_graph),
            k,
            Seq::empty(),
            cuts@[0].edge_indices@,
            cuts@.len() > 1,
        )),
{
    let n = original_graph.node_count;
    if source_set.len() == 0 || destination_set.len() == 0 {
        return Err(CutError::InvalidInput);
    }
    let mut in_source: Vec<bool> = Vec::new();
    while in_source.len() < n
        invariant
            in_source@.len() <= n,
            forall|v: int| 0 <= v < in_source@.len() ==> !#[trigger] in_source@[v],
        decreases n - in_source.len(),
    {
        in_source.push(false);
    }
    let mut i: usize = 0;
    while i < source_set.len()
        invariant
            n == original_graph.node_count,
            in_source@.len() == n,
            i <= source_set@.len(),
            forall|j: int| 0 <= j < i ==> #[trigger] source_set@[j] < n && in_source@[source_set@[j] as int],
            forall|v: int| 0 <= v < n ==> (#[trigger] in_source@[v] <==> source_set@.subrange(0, i as int).contains(v as usize)),
        decreases source_set.len() - i,
    {
        let ghost m0 = in_source@;
        if source_set[i] >= n {
            proof {
                assert(source_set@[i as int] >= original_graph.node_count);
            }
            return Err(CutError::InvalidInput);
        }
        in_source.set(source_set[i], true);
        proof {
            let pre = source_set@.subrange(0, i as int);
            let post = source_set@.subrange(0, i + 1);
            assert(post =~= pre.push(source_set@[i as int]));
            assert forall|v: int| 0 <= v < n implies (#[trigger] in_source@[v] <==> post.contains(v as usize)) by {
                if pre.contains(v as usize) {
                    let j = choose|j: int| 0 <= j < pre.len() && pre[j] == v as usize;
                    assert(post[j] == v as usize);
                }
                if post.contains(v as usize) && v != source_set@[i as int] {
                    let j = choose|j: int| 0 <= j < post.len() && post[j] == v as usize;
                    assert(pre[j] == v as usize);
                }
                if v == source_set@[i as int] {
                    assert(post[i as int] == v as usize);
                }
            }
        }
        i = i + 1;
    }
    proof {
        assert(source_set@.subrange(0, i as int) =~= source_set@);
        assert(in_source@ =~= Seq::new(original_graph.node_count as nat, |v: int| source_set@.contains(v as usize)));
    }
    let mut i: usize = 0;
    while i < destination_set.len()
        invariant
            n == original_graph.node_count,
            i <= destination_set@.len(),
            forall|j: int| 0 <= j < i ==> #[trigger] destination_set@[j] < n,
        decreases destination_set.len() - i,
    {
        if destination_set[i] >= n {
            proof {
                assert(destination_set@[i as int] >= original_graph.node_count);
            }
            return Err(CutError::InvalidInput);
        }
        i = i + 1;
    }
    let mut edges_in_use: Vec<bool> = Vec::new();
    while edges_in_use.len() < original_graph.edges.len()
        invariant
            edges_in_use@.len() <= original_graph.edges@.len(),
            forall|e: int| 0 <= e < edges_in_use@.len() ==> #[trigger] edges_in_use@[e],
        decreases original_graph.edges.len() - edges_in_use.len(),
    {
        edges_in_use.push(true);
    }
    let mut cuts: Vec<ImportantCut> = Vec::new();
    let no_edges: Vec<usize> = Vec::new();
    proof {
        assert forall|e: int| 0 <= e < original_graph.edges@.len() implies (!#[trigger] edges_in_use@[e] <==> no_edges@.contains(e as usize)) by {}
        assert(edges_in_use@ =~= crate::cut::all_edges(original_graph));
        assert(no_edges@ =~= Seq::<usize>::empty());
    }
    match important_cut_inner(original_graph, in_source, &destination_set, k, edges_in_use, no_edges, &mut cuts, Ghost(k), Ghost(source_set@)) {
        Ok(()) => Ok(cuts),
        Err(e) => Err(e),
    }
}

} // verus!
