use vstd::prelude::*;

pub use crate::path_residual::has_augmenting_path;

use crate::cut::{
    all_edges, crosses, exact_cut, first_crossing, has_crossing, is_crossing, listed_iff_crossing, path_shape, picks,
    split_along, split_by, Cut, CutError,
};
use crate::graph::{ResidualGraph, UnGraph};
use crate::path_residual::{
    along_path, disjoint_paths, reverse_residual_of, uses, valid_path, Path,
};

verus! {

/// `res` is the residual graph of `g` for `paths`: an edge no path uses carries both arcs,
/// and an edge a path uses carries the one arc that points back along the path, toward the
/// source.
pub open spec fn residual_of(g: &UnGraph, paths: Seq<Path>, res: &ResidualGraph) -> bool {
    &&& res.wf()
    &&& res.node_count == g.node_count
    &&& res.ends@ == g.edges@
    &&& forall|e: int|
        0 <= e < g.edges@.len() && !uses(paths, e) ==> #[trigger] res.forward@[e]
            && res.backward@[e]
    &&& forall|p: int, j: int|
        0 <= p < paths.len() && 0 <= j < paths[p].edges@.len() ==> along_path(
            res,
            #[trigger] paths[p].edges@[j] as int,
            paths[p].vertices@[j + 1] as int,
            paths[p].vertices@[j] as int,
        )
}

/// The edge-disjoint augmenting paths of `path_residual` with the residual graph whose path
/// arcs point back toward the source; `None` when more than `k` paths were found.
pub fn get_augmenting_paths_and_residual_graph(
    graph: &UnGraph,
    source: usize,
    destination: usize,
    k: usize,
) -> (r: Option<(Vec<Path>, ResidualGraph)>)
    requires
        graph.wf(),
        source < graph.node_count,
        destination < graph.node_count,
    ensures
        match r {
            Some((paths, residual)) => {
                &&& paths@.len() <= k
                &&& disjoint_paths(graph, paths@, source as int, destination as int)
                &&& residual_of(graph, paths@, &residual)
                &&& (source == destination || forall|a: Seq<bool>| #[trigger] residual.reach_set(source as int, a) ==> !a[destination as int])
            },
            None => exists|ps: Seq<Path>|
                ps.len() > k && #[trigger] disjoint_paths(graph, ps, source as int, destination as int),
        },
{
    match crate::path_residual::get_augmenting_paths_and_residual_graph(graph, source, destination, k) {
        Some((paths, residual_reverse)) => {
            let ghost rr = residual_reverse;
            let residual = residual_reverse.reversed();
            proof {
                assert(reverse_residual_of(graph, paths@, &rr));
                if source != destination {
                    let d = choose|d: Seq<bool>| #[trigger] crate::max_flow::fwd_closed(&rr, d) && d[source as int] && !d[destination as int];
                    assert forall|e: int, u: int, v: int| 0 <= e < residual.ends@.len() && #[trigger] residual.arc(e, u, v) && d[u] implies d[v] by {
                        assert(rr.arc(e, v, u));
                    }
                    assert(residual.closed(d));
                    assert forall|a: Seq<bool>| #[trigger] residual.reach_set(source as int, a) implies !a[destination as int] by {
                        if a[destination as int] {
                            assert(d[destination as int]);
                        }
                    }
                }
                assert forall|p: int, j: int|
                    0 <= p < paths@.len() && 0 <= j < paths@[p].edges@.len() implies along_path(
                        &residual,
                        #[trigger] paths@[p].edges@[j] as int,
                        paths@[p].vertices@[j + 1] as int,
                        paths@[p].vertices@[j] as int,
                    ) by {
                    assert(along_path(&rr, paths@[p].edges@[j] as int, paths@[p].vertices@[j] as int, paths@[p].vertices@[j + 1] as int));
                }
                assert forall|e: int| 0 <= e < graph.edges@.len() && !uses(paths@, e) implies #[trigger] residual.forward@[e]
                    && residual.backward@[e] by {
                    crate::path_residual::lemma_unused_edge_both_arcs(graph, paths@, &rr, e);
                }
            }
            Some((paths, residual))
        },
        None => None,
    }
}

/// The vertices outside `a`.
pub open spec fn complement(a: Seq<bool>) -> Seq<bool> {
    Seq::new(a.len(), |v: int| !a[v])
}

fn negate(a: &Vec<bool>) -> (r: Vec<bool>)
    ensures
        r@ == complement(a@),
{
    let mut r: Vec<bool> = Vec::new();
    let mut i: usize = 0;
    while i < a.len()
        invariant
            i <= a@.len(),
            r@ == complement(a@).subrange(0, i as int),
        decreases a.len() - i,
    {
        r.push(!a[i]);
        proof {
            assert(r@ =~= complement(a@).subrange(0, i + 1));
        }
        i = i + 1;
    }
    proof {
        assert(r@ =~= complement(a@));
    }
    r
}

/// The minimum cut between the first and last vertex of the paths that lies closest to the
/// source: its source side is what the source reaches in the residual graph. `InvalidInput`
/// where `paths` is empty; `InvariantViolation` where the source reaches the destination or a
/// path never leaves the source side.
pub fn generate_minimum_cut(paths: &Vec<Path>, residual_graph: &ResidualGraph) -> (r: Result<Cut, CutError>)
    requires
        residual_graph.wf(),
        path_shape(paths@, residual_graph.node_count as nat),
    ensures
        paths@.len() == 0 ==> r == Err::<Cut, CutError>(CutError::InvalidInput),
        paths@.len() > 0 ==> forall|a: Seq<bool>|
            #[trigger] residual_graph.reach_set(paths@[0].vertices@[0] as int, a) ==> {
                &&& (r is Ok <==> !a[paths@[0].vertices@.last() as int] && forall|p: int|
                    0 <= p < paths@.len() ==> #[trigger] has_crossing(paths@[p], complement(a)))
                &&& (r matches Ok(cut) ==> split_by(paths@, complement(a), cut))
                &&& (r matches Err(e) ==> e == CutError::InvariantViolation)
            },
{
    if paths.len() == 0 {
        return Err(CutError::InvalidInput);
    }
    let first = &paths[0];
    proof {
        assert(first.vertices@.len() == first.edges@.len() + 1);
    }
    let destination = first.vertices[first.vertices.len() - 1];
    let source = first.vertices[0];
    let a = residual_graph.reachable_from(source);
    proof {
        assert forall|a2: Seq<bool>|
            #[trigger] residual_graph.reach_set(paths@[0].vertices@[0] as int, a2) implies a2 == a@ by {
            crate::cut::lemma_reach_set_unique(residual_graph, source as int, a@, a2);
        }
    }
    if a[destination] {
        return Err(CutError::InvariantViolation);
    }
    let d = negate(&a);
    split_along(paths, &d)
}


proof fn lemma_unused_edge_both_arcs(g: &UnGraph, paths: Seq<Path>, res: &ResidualGraph, e: int)
    requires
        residual_of(g, paths, res),
        0 <= e < g.edges@.len(),
        !uses(paths, e),
    ensures
        res.forward@[e] && res.backward@[e],
{
}

/// Along a path whose steps all carry their backward arc, a vertex inside a closed vertex set
/// has all earlier vertices of the path inside too.
proof fn lemma_stays_inside_backward(res: &ResidualGraph, p: Path, a: Seq<bool>, lo: int, hi: int)
    requires
        res.closed(a),
        p.vertices@.len() == p.edges@.len() + 1,
        forall|j: int|
            0 <= j < p.edges@.len() ==> (#[trigger] p.edges@[j]) < res.ends@.len() && along_path(
                res,
                p.edges@[j] as int,
                p.vertices@[j + 1] as int,
                p.vertices@[j] as int,
            ),
        forall|j: int| 0 <= j < p.vertices@.len() ==> #[trigger] p.vertices@[j] < a.len(),
        0 <= lo <= hi < p.vertices@.len(),
        a[p.vertices@[hi] as int],
    ensures
        a[p.vertices@[lo] as int],
    decreases hi - lo,
{
    if lo < hi {
        let e = p.edges@[hi - 1] as int;
        assert(along_path(res, e, p.vertices@[hi] as int, p.vertices@[hi - 1] as int));
        assert(res.arc(e, p.vertices@[hi] as int, p.vertices@[hi - 1] as int));
        lemma_stays_inside_backward(res, p, a, lo, hi - 1);
    }
}

/// The minimum cut found closest to the source from edge-disjoint augmenting paths and their
/// residual graph is an exact cut of the whole graph: its sides split the vertices, and its
/// edges are exactly those between the sides, one per path.
pub proof fn lemma_source_cut_is_exact(
    g: &UnGraph,
    s: int,
    t: int,
    paths: Seq<Path>,
    res: &ResidualGraph,
    a: Seq<bool>,
    cut: Cut,
)
    requires
        g.wf(),
        0 <= s < g.node_count,
        0 <= t < g.node_count,
        disjoint_paths(g, paths, s, t),
        residual_of(g, paths, res),
        res.reach_set(s, a),
        !a[t],
        split_by(paths, complement(a), cut),
    ensures
        exact_cut(g, all_edges(g), cut),
        cut.source_set@.contains(s as usize),
        cut.destination_set@.contains(t as usize),
        cut.size == paths.len(),
{
    let d = complement(a);
    let n = g.node_count;
    let dst = cut.destination_set@;
    assert(a.len() == n);
    assert forall|v: int| 0 <= v < n implies (dst.contains(v as usize) <==> d[v]) by {}
    assert forall|p: int| 0 <= p < paths.len() implies {
        &&& (#[trigger] paths[p]).vertices@.len() == paths[p].edges@.len() + 1
        &&& forall|j: int|
            0 <= j < paths[p].edges@.len() ==> (#[trigger] paths[p].edges@[j]) < res.ends@.len() && along_path(
                res,
                paths[p].edges@[j] as int,
                paths[p].vertices@[j + 1] as int,
                paths[p].vertices@[j] as int,
            )
        &&& forall|j: int| 0 <= j < paths[p].vertices@.len() ==> #[trigger] paths[p].vertices@[j] < a.len()
    } by {
        assert(valid_path(g, paths[p], s, t));
        assert forall|j: int| 0 <= j < paths[p].vertices@.len() implies #[trigger] paths[p].vertices@[j] < a.len() by {
            if j < paths[p].edges@.len() {
                assert(g.joins(paths[p].edges@[j] as int, paths[p].vertices@[j] as int, paths[p].vertices@[j + 1] as int));
            } else {
                assert(j > 0 ==> g.joins(paths[p].edges@[j - 1] as int, paths[p].vertices@[j - 1] as int, paths[p].vertices@[j] as int));
            }
        }
    }
    assert forall|q: int| 0 <= q < paths.len() implies 0 <= #[trigger] cut.cut_edge_set@[q] < g.edges@.len()
        && crosses(g, dst, cut.cut_edge_set@[q] as int) by {
        assert(picks(paths, d, cut.cut_edge_set@, q));
        let i = choose|i: int| first_crossing(paths[q], d, i) && cut.cut_edge_set@[q] == paths[q].edges@[i];
        assert(valid_path(g, paths[q], s, t));
        assert(g.joins(paths[q].edges@[i] as int, paths[q].vertices@[i] as int, paths[q].vertices@[i + 1] as int));
    }
    assert forall|x: int, y: int| 0 <= x < cut.cut_edge_set@.len() && 0 <= y < cut.cut_edge_set@.len() && x != y implies
        cut.cut_edge_set@[x] != cut.cut_edge_set@[y] by {
        assert(picks(paths, d, cut.cut_edge_set@, x));
        assert(picks(paths, d, cut.cut_edge_set@, y));
        let i = choose|i: int| first_crossing(paths[x], d, i) && cut.cut_edge_set@[x] == paths[x].edges@[i];
        let k = choose|k: int| first_crossing(paths[y], d, k) && cut.cut_edge_set@[y] == paths[y].edges@[k];
        assert(paths[x].edges@[i] != paths[y].edges@[k]);
    }
    assert forall|e: int| 0 <= e < g.edges@.len() && #[trigger] crosses(g, dst, e) implies cut.cut_edge_set@.contains(e as usize) by {
        let (x0, y0) = g.edges@[e];
        assert(dst.contains(x0) == d[x0 as int]);
        assert(dst.contains(y0) == d[y0 as int]);
        assert(d[x0 as int] == !a[x0 as int]);
        assert(d[y0 as int] == !a[y0 as int]);
        if !uses(paths, e) {
            lemma_unused_edge_both_arcs(g, paths, res, e);
            assert(res.arc(e, x0 as int, y0 as int));
            assert(res.arc(e, y0 as int, x0 as int));
        } else {
            let (p, j) = choose|p: int, j: int|
                0 <= p < paths.len() && 0 <= j < paths[p].edges@.len() && #[trigger] paths[p].edges@[j] == e;
            let path = paths[p];
            assert(valid_path(g, path, s, t));
            let x = path.vertices@[j] as int;
            let y = path.vertices@[j + 1] as int;
            assert(along_path(res, e, y, x));
            assert(res.arc(e, y, x));
            assert(g.joins(e, x, y));
            assert(a[x] && !a[y]);
            assert(is_crossing(path, d, j));
            assert(picks(paths, d, cut.cut_edge_set@, p));
            let i = choose|i: int| first_crossing(path, d, i) && cut.cut_edge_set@[p] == path.edges@[i];
            if i < j {
                lemma_stays_inside_backward(res, path, a, i + 1, j);
            }
            assert(i == j);
            assert(cut.cut_edge_set@[p] == e);
        }
    }
    assert forall|e: int| 0 <= e < g.edges@.len() implies #[trigger] listed_iff_crossing(g, all_edges(g), cut, e) by {
        assert(all_edges(g)[e]);
        assert(g.edges@.len() == g.edges.len());
        assert((e as usize) as int == e);
        if cut.cut_edge_set@.contains(e as usize) {
            let q = choose|q: int| 0 <= q < cut.cut_edge_set@.len() && cut.cut_edge_set@[q] == e as usize;
            assert(crosses(g, dst, cut.cut_edge_set@[q] as int));
        }
        if crosses(g, dst, e) {
            assert(cut.cut_edge_set@.contains(e as usize));
        }
    }
    assert(a[s]);
    assert forall|v: int|
        0 <= v < n implies (cut.source_set@.contains(v as usize) <==> !#[trigger] cut.destination_set@.contains(
            v as usize,
        )) by {
        assert(d[v] == dst.contains(v as usize));
    }
    assert(cut.cut_edge_set@.no_duplicates());
    assert forall|i: int| 0 <= i < cut.cut_edge_set@.len() implies #[trigger] cut.cut_edge_set@[i] < g.edges@.len() by {
        assert(0 <= cut.cut_edge_set@[i] < g.edges@.len());
    }
    assert(d[t]);
    assert(!d[s]);
}

} // verus!
