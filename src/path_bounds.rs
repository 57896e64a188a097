use vstd::prelude::*;

use crate::graph::UnGraph;
use crate::path_residual::{disjoint_paths, valid_path, Path};

verus! {

/// The first step of path `p` that leaves the vertex set `side`.
pub open spec fn leaving_step(p: Path, side: Seq<bool>) -> int {
    choose|j: int| #[trigger] leaves_at(p, side, j)
}

/// Step `j` of path `p` goes from inside the vertex set `side` to outside it.
pub open spec fn leaves_at(p: Path, side: Seq<bool>, j: int) -> bool {
    0 <= j < p.edges@.len() && side[p.vertices@[j] as int] && !side[p.vertices@[j + 1] as int]
}

/// A walk that is inside `side` at step `i` and ends outside leaves `side` at some later step.
proof fn lemma_walk_leaves(g: &UnGraph, p: Path, side: Seq<bool>, s: int, t: int, i: int)
    requires
        valid_path(g, p, s, t),
        0 <= i < p.vertices@.len(),
        side[p.vertices@[i] as int],
        !side[t],
    ensures
        exists|j: int| #[trigger] leaves_at(p, side, j),
    decreases p.vertices@.len() - i,
{
    if i + 1 < p.vertices@.len() {
        if side[p.vertices@[i + 1] as int] {
            lemma_walk_leaves(g, p, side, s, t, i + 1);
        } else {
            assert(leaves_at(p, side, i));
        }
    }
}

/// More than `k` edge-disjoint paths leave no cut of at most `k` edges: an edge list that
/// holds every edge leaving a vertex set with `s` inside and `t` outside has at least as
/// many entries as there are paths.
pub proof fn lemma_disjoint_paths_bound_cuts(
    g: &UnGraph,
    s: int,
    t: int,
    paths: Seq<Path>,
    side: Seq<bool>,
    edges: Seq<usize>,
)
    requires
        g.wf(),
        disjoint_paths(g, paths, s, t),
        side.len() == g.node_count,
        side[s],
        !side[t],
        forall|e: int|
            0 <= e < g.edges@.len() && #[trigger] side[g.edges@[e].0 as int] != side[g.edges@[e].1 as int] ==> edges.contains(
                e as usize,
            ),
    ensures
        edges.len() >= paths.len(),
{
    let f = |p: int| paths[p].edges@[leaving_step(paths[p], side)];
    let x = vstd::set_lib::set_int_range(0, paths.len() as int);
    let y = x.map(f);
    assert forall|p: int| 0 <= p < paths.len() implies #[trigger] leaves_at(paths[p], side, leaving_step(paths[p], side)) by {
        assert(valid_path(g, paths[p], s, t));
        lemma_walk_leaves(g, paths[p], side, s, t, 0);
    }
    assert(vstd::relations::injective_on(f, x)) by {
        assert forall|p: int, q: int| x.contains(p) && x.contains(q) && #[trigger] f(p) == #[trigger] f(q) implies p == q by {
            let jp = leaving_step(paths[p], side);
            let jq = leaving_step(paths[q], side);
            assert(leaves_at(paths[p], side, jp));
            assert(leaves_at(paths[q], side, jq));
            if p != q {
                assert(paths[p].edges@[jp] != paths[q].edges@[jq]);
            }
        }
    }
    vstd::set_lib::lemma_int_range(0, paths.len() as int);
    vstd::set_lib::lemma_map_size(x, y, f);
    assert(y.subset_of(edges.to_set())) by {
        assert forall|e: usize| y.contains(e) implies edges.to_set().contains(e) by {
            let p = choose|p: int| x.contains(p) && f(p) == e;
            let j = leaving_step(paths[p], side);
            assert(leaves_at(paths[p], side, j));
            assert(valid_path(g, paths[p], s, t));
            let ei = paths[p].edges@[j] as int;
            assert(g.joins(ei, paths[p].vertices@[j] as int, paths[p].vertices@[j + 1] as int));
            assert(side[g.edges@[ei].0 as int] != side[g.edges@[ei].1 as int]);
            assert(edges.contains(ei as usize));
        }
    }
    vstd::seq_lib::seq_to_set_is_finite(edges);
    vstd::set_lib::lemma_len_subset(y, edges.to_set());
    edges.lemma_cardinality_of_set();
}

} // verus!
