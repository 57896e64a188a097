use itertools::Itertools;
use rand::seq::SliceRandom;
use vstd::prelude::*;

use crate::graph::{ResidualGraph, UnGraph};
use crate::path_residual::{
    along_path, disjoint_paths, lemma_unused_edge_both_arcs, reverse_residual_of, uses, valid_path,
    IndexMapping, Path,
};

verus! {

/// Why a cut computation gave no result.
#[derive(Debug, Clone, Copy, PartialEq, Eq)]
pub enum CutError {
    /// A set or list that must not be empty was empty, or named a vertex the graph lacks.
    InvalidInput,
    /// The bookkeeping of paths, residual graph or index mapping contradicts itself.
    InvariantViolation,
}

/// An edge cut: the two vertex sides and the edges between them.
#[derive(Debug, Clone, PartialEq)]
pub struct Cut {
    pub source_set: Vec<usize>,
    pub destination_set: Vec<usize>,
    pub cut_edge_set: Vec<usize>,
    pub size: usize,
}

impl Cut {
    pub fn new(source_set: Vec<usize>, destination_set: Vec<usize>, cut_edge_set: Vec<usize>) -> (r: Self)
        ensures
            r.source_set@ == source_set@,
            r.destination_set@ == destination_set@,
            r.cut_edge_set@ == cut_edge_set@,
            r.size == cut_edge_set@.len(),
    {
        let size = cut_edge_set.len();
        Cut { source_set, destination_set, cut_edge_set, size }
    }
}

/// Each value of `s` is smaller than the next.
pub open spec fn increasing(s: Seq<usize>) -> bool {
    forall|i: int, j: int| 0 <= i < j < s.len() ==> #[trigger] s[i] < #[trigger] s[j]
}

/// Every path has one more vertex than edges, and its vertices lie below `n`.
pub open spec fn path_shape(paths: Seq<Path>, n: nat) -> bool {
    forall|p: int|
        0 <= p < paths.len() ==> {
            &&& (#[trigger] paths[p]).vertices@.len() == paths[p].edges@.len() + 1
            &&& forall|j: int| 0 <= j < paths[p].vertices@.len() ==> #[trigger] paths[p].vertices@[j] < n
        }
}

/// Step `i` of path `p` goes from outside the vertex set `d` into `d`.
pub open spec fn is_crossing(p: Path, d: Seq<bool>, i: int) -> bool {
    0 <= i < p.edges@.len() && !d[p.vertices@[i] as int] && d[p.vertices@[i + 1] as int]
}

/// Step `i` is the first step of `p` that enters `d`.
pub open spec fn first_crossing(p: Path, d: Seq<bool>, i: int) -> bool {
    &&& is_crossing(p, d, i)
    &&& forall|j: int| 0 <= j < i ==> !#[trigger] is_crossing(p, d, j)
}

pub open spec fn has_crossing(p: Path, d: Seq<bool>) -> bool {
    exists|i: int| #[trigger] is_crossing(p, d, i)
}

/// `cut` splits the vertices `0..d.len()` into the complement of `d` (source side) and `d`
/// (destination side), both listed in increasing order, and holds, for each path in turn, the
/// edge of its first step into `d`.
pub open spec fn split_by(paths: Seq<Path>, d: Seq<bool>, cut: Cut) -> bool {
    &&& forall|v: int|
        0 <= v < d.len() ==> (cut.destination_set@.contains(v as usize) <==> #[trigger] d[v]) && (
        cut.source_set@.contains(v as usize) <==> !d[v])
    &&& forall|i: int| 0 <= i < cut.source_set@.len() ==> #[trigger] cut.source_set@[i] < d.len()
    &&& forall|i: int|
        0 <= i < cut.destination_set@.len() ==> #[trigger] cut.destination_set@[i] < d.len()
    &&& increasing(cut.source_set@)
    &&& increasing(cut.destination_set@)
    &&& cut.cut_edge_set@.len() == paths.len()
    &&& forall|p: int| 0 <= p < paths.len() ==> #[trigger] picks(paths, d, cut.cut_edge_set@, p)
    &&& cut.size == cut.cut_edge_set@.len()
}

/// `edges[p]` is the edge of the first step of path `p` into `d`.
pub open spec fn picks(paths: Seq<Path>, d: Seq<bool>, edges: Seq<usize>, p: int) -> bool {
    exists|i: int| first_crossing(paths[p], d, i) && edges[p] == paths[p].edges@[i]
}

/// The vertices `v < i` with `mask[v] == want`, in increasing order.
pub open spec fn members_upto(mask: Seq<bool>, want: bool, i: int) -> Seq<usize>
    decreases i,
{
    if i <= 0 {
        Seq::empty()
    } else if mask[i - 1] == want {
        members_upto(mask, want, i - 1).push((i - 1) as usize)
    } else {
        members_upto(mask, want, i - 1)
    }
}

/// The vertices `v` with `mask[v] == want`, in increasing order.
pub(crate) fn members(mask: &Vec<bool>, want: bool) -> (r: Vec<usize>)
    ensures
        r@ == members_upto(mask@, want, mask@.len() as int),
        forall|v: int| 0 <= v < mask@.len() ==> (r@.contains(v as usize) <==> #[trigger] mask@[v] == want),
        forall|i: int| 0 <= i < r@.len() ==> #[trigger] r@[i] < mask@.len(),
        increasing(r@),
{
    let mut r: Vec<usize> = Vec::new();
    let mut v: usize = 0;
    while v < mask.len()
        invariant
            v <= mask@.len(),
            forall|x: int| 0 <= x < v ==> (r@.contains(x as usize) <==> #[trigger] mask@[x] == want),
            forall|i: int| 0 <= i < r@.len() ==> #[trigger] r@[i] < v,
            increasing(r@),
            r@ == members_upto(mask@, want, v as int),
        decreases mask.len() - v,
    {
        let ghost old_r = r@;
        if mask[v] == want {
            r.push(v);
        }
        proof {
            assert forall|x: int| 0 <= x < v + 1 implies (r@.contains(x as usize) <==> #[trigger] mask@[x] == want) by {
                if x < v {
                    if r@.contains(x as usize) {
                        let j = choose|j: int| 0 <= j < r@.len() && r@[j] == x as usize;
                        if j < old_r.len() {
                            assert(old_r[j] == x);
                        }
                    }
                    if old_r.contains(x as usize) {
                        let j = choose|j: int| 0 <= j < old_r.len() && old_r[j] == x as usize;
                        assert(r@[j] == x);
                    }
                } else {
                    if mask@[x] == want {
                        assert(r@[r@.len() - 1] == x);
                    }
                    if r@.contains(x as usize) {
                        let j = choose|j: int| 0 <= j < r@.len() && r@[j] == x as usize;
                        if j < old_r.len() {
                            assert(old_r[j] < v);
                        }
                    }
                }
            }
        }
        v = v + 1;
    }
    r
}

/// Cuts along the vertex set `d`: its complement is the source side, `d` the destination side,
/// and each path contributes the edge of its first step into `d`. Fails with
/// `InvariantViolation` where some path never enters `d`.
pub(crate) fn split_along(paths: &Vec<Path>, d: &Vec<bool>) -> (r: Result<Cut, CutError>)
    requires
        path_shape(paths@, d@.len()),
    ensures
        r is Ok <==> forall|p: int| 0 <= p < paths@.len() ==> #[trigger] has_crossing(paths@[p], d@),
        r matches Ok(cut) ==> split_by(paths@, d@, cut),
        r matches Err(e) ==> e == CutError::InvariantViolation,
{
    let mut cut_edges: Vec<usize> = Vec::new();
    let mut p: usize = 0;
    while p < paths.len()
        invariant
            path_shape(paths@, d@.len()),
            p <= paths@.len(),
            cut_edges@.len() == p,
            forall|q: int| 0 <= q < p ==> #[trigger] has_crossing(paths@[q], d@),
            forall|q: int| 0 <= q < p ==> #[trigger] picks(paths@, d@, cut_edges@, q),
        decreases paths.len() - p,
    {
        let path = &paths[p];
        let mut i: usize = 0;
        let mut found: Option<usize> = None;
        while i < path.edges.len() && found.is_none()
            invariant
                path_shape(paths@, d@.len()),
                p < paths@.len(),
                *path == paths@[p as int],
                i <= path.edges@.len(),
                found matches Some(j) ==> first_crossing(*path, d@, j as int),
                found is None ==> forall|j: int| 0 <= j < i ==> !#[trigger] is_crossing(*path, d@, j),
            decreases path.edges.len() - i + if found is None { 1int } else { 0int },
        {
            if !d[path.vertices[i]] && d[path.vertices[i + 1]] {
                found = Some(i);
            } else {
                i = i + 1;
            }
        }
        match found {
            None => {
                proof {
                    assert(!has_crossing(paths@[p as int], d@)) by {
                        if has_crossing(paths@[p as int], d@) {
                            let j = choose|j: int| #[trigger] is_crossing(paths@[p as int], d@, j);
                            assert(!is_crossing(*path, d@, j));
                        }
                    }
                }
                return Err(CutError::InvariantViolation);
            },
            Some(j) => {
                let ghost old_edges = cut_edges@;
                cut_edges.push(path.edges[j]);
                proof {
                    assert(is_crossing(*path, d@, j as int));
                    assert forall|q: int| 0 <= q < p + 1 implies #[trigger] picks(paths@, d@, cut_edges@, q) by {
                        if q < p {
                            assert(picks(paths@, d@, old_edges, q));
                            let i = choose|i: int| first_crossing(paths@[q], d@, i) && old_edges[q] == paths@[q].edges@[i];
                            assert(cut_edges@[q] == old_edges[q]);
                        } else {
                            assert(first_crossing(paths@[q], d@, j as int) && cut_edges@[q] == paths@[q].edges@[j as int]);
                        }
                    }
                }
            },
        }
        p = p + 1;
    }
    let source_set = members(d, false);
    let destination_set = members(d, true);
    Ok(Cut::new(source_set, destination_set, cut_edges))
}

/// Two vertex sets that are both least closed sets around `start` are equal.
pub proof fn lemma_reach_set_unique(r: &ResidualGraph, start: int, d1: Seq<bool>, d2: Seq<bool>)
    requires
        r.reach_set(start, d1),
        r.reach_set(start, d2),
    ensures
        d1 == d2,
{
    assert(r.closed(d2) && d2[start]);
    assert(r.closed(d1) && d1[start]);
    assert forall|v: int| 0 <= v < d1.len() implies d1[v] == d2[v] by {
        if d1[v] {
            assert(d2[v]);
        }
        if d2[v] {
            assert(d1[v]);
        }
    }
    assert(d1 =~= d2);
}

/// `cut` is the minimum cut between `s` and `t` closest to `t` for `paths` in the reverse
/// residual graph `res`: its destination side is the vertex set `d` reachable from `t`, which
/// does not hold `s`, and its edges are the first steps of the paths into `d`.
pub open spec fn closest_between(paths: Seq<Path>, res: &ResidualGraph, s: int, t: int, cut: Cut) -> bool {
    exists|d: Seq<bool>| #[trigger] res.reach_set(t, d) && !d[s] && split_by(paths, d, cut)
}

/// `closest_between` for the first and last vertex of the first path.
pub open spec fn closest_to_destination(paths: Seq<Path>, res: &ResidualGraph, cut: Cut) -> bool {
    closest_between(paths, res, paths[0].vertices@[0] as int, paths[0].vertices@.last() as int, cut)
}

/// Edge `e` of `g` has exactly one endpoint in `side`.
pub open spec fn crosses(g: &UnGraph, side: Seq<usize>, e: int) -> bool {
    side.contains(g.edges@[e].0) != side.contains(g.edges@[e].1)
}

/// `cut` is an exact edge cut of the graph made of the edges of `g` marked in `in_use`: its
/// two sides split the vertices of `g` between them, and its edges are those in use with one
/// endpoint on each side, each listed once.
pub open spec fn exact_cut(g: &UnGraph, in_use: Seq<bool>, cut: Cut) -> bool {
    &&& forall|v: int|
        0 <= v < g.node_count ==> (cut.source_set@.contains(v as usize) <==> !#[trigger] cut.destination_set@.contains(
            v as usize,
        ))
    &&& forall|i: int| 0 <= i < cut.source_set@.len() ==> #[trigger] cut.source_set@[i] < g.node_count
    &&& forall|i: int|
        0 <= i < cut.destination_set@.len() ==> #[trigger] cut.destination_set@[i] < g.node_count
    &&& forall|e: int| 0 <= e < g.edges@.len() ==> #[trigger] listed_iff_crossing(g, in_use, cut, e)
    &&& forall|i: int| 0 <= i < cut.cut_edge_set@.len() ==> #[trigger] cut.cut_edge_set@[i] < g.edges@.len()
    &&& cut.cut_edge_set@.no_duplicates()
    &&& cut.size == cut.cut_edge_set@.len()
}

/// Edge `e` is listed in `cut` just when it is in use and crosses the cut.
pub open spec fn listed_iff_crossing(g: &UnGraph, in_use: Seq<bool>, cut: Cut, e: int) -> bool {
    cut.cut_edge_set@.contains(e as usize) <==> in_use[e] && crosses(g, cut.destination_set@, e)
}

/// The mask of all edges of `g`.
pub open spec fn all_edges(g: &UnGraph) -> Seq<bool> {
    Seq::new(g.edges@.len(), |e: int| true)
}

/// Along a path whose steps all carry their forward arc, once the path is inside a closed
/// vertex set it stays inside.
proof fn lemma_stays_inside(res: &ResidualGraph, p: Path, d: Seq<bool>, a: int, b: int)
    requires
        res.closed(d),
        p.vertices@.len() == p.edges@.len() + 1,
        forall|j: int|
            0 <= j < p.edges@.len() ==> (#[trigger] p.edges@[j]) < res.ends@.len() && along_path(
                res,
                p.edges@[j] as int,
                p.vertices@[j] as int,
                p.vertices@[j + 1] as int,
            ),
        forall|j: int| 0 <= j < p.vertices@.len() ==> #[trigger] p.vertices@[j] < d.len(),
        0 <= a <= b < p.vertices@.len(),
        d[p.vertices@[a] as int],
    ensures
        d[p.vertices@[b] as int],
    decreases b - a,
{
    if a < b {
        let e = p.edges@[a] as int;
        assert(along_path(res, e, p.vertices@[a] as int, p.vertices@[a + 1] as int));
        assert(res.arc(e, p.vertices@[a] as int, p.vertices@[a + 1] as int));
        lemma_stays_inside(res, p, d, a + 1, b);
    }
}

/// The minimum cut found closest to the destination from edge-disjoint augmenting paths and
/// their reverse residual graph is an exact cut of the whole graph: its sides split the
/// vertices, and its edges are exactly those between the sides, one per path.
pub proof fn lemma_closest_cut_is_exact(
    g: &UnGraph,
    s: int,
    t: int,
    paths: Seq<Path>,
    res: &ResidualGraph,
    cut: Cut,
)
    requires
        g.wf(),
        0 <= s < g.node_count,
        0 <= t < g.node_count,
        disjoint_paths(g, paths, s, t),
        reverse_residual_of(g, paths, res),
        closest_between(paths, res, s, t, cut),
    ensures
        exact_cut(g, all_edges(g), cut),
        cut.source_set@.contains(s as usize),
        cut.destination_set@.contains(t as usize),
        cut.size == paths.len(),
{
    let d = choose|d: Seq<bool>| #[trigger] res.reach_set(t, d) && !d[s] && split_by(paths, d, cut);
    let n = g.node_count;
    let dst = cut.destination_set@;
    assert forall|v: int| 0 <= v < n implies (dst.contains(v as usize) <==> d[v]) by {}
    assert forall|p: int| 0 <= p < paths.len() implies {
        &&& (#[trigger] paths[p]).vertices@.len() == paths[p].edges@.len() + 1
        &&& forall|j: int|
            0 <= j < paths[p].edges@.len() ==> (#[trigger] paths[p].edges@[j]) < res.ends@.len() && along_path(
                res,
                paths[p].edges@[j] as int,
                paths[p].vertices@[j] as int,
                paths[p].vertices@[j + 1] as int,
            )
        &&& forall|j: int| 0 <= j < paths[p].vertices@.len() ==> #[trigger] paths[p].vertices@[j] < d.len()
    } by {
        assert(valid_path(g, paths[p], s, t));
        assert forall|j: int| 0 <= j < paths[p].vertices@.len() implies #[trigger] paths[p].vertices@[j] < d.len() by {
            if j < paths[p].edges@.len() {
                assert(g.joins(paths[p].edges@[j] as int, paths[p].vertices@[j] as int, paths[p].vertices@[j + 1] as int));
            } else {
                assert(j > 0 ==> g.joins(paths[p].edges@[j - 1] as int, paths[p].vertices@[j - 1] as int, paths[p].vertices@[j] as int));
            }
        }
    }
    // every listed edge lies between the sides
    assert forall|q: int| 0 <= q < paths.len() implies 0 <= #[trigger] cut.cut_edge_set@[q] < g.edges@.len()
        && crosses(g, dst, cut.cut_edge_set@[q] as int) by {
        assert(picks(paths, d, cut.cut_edge_set@, q));
        let i = choose|i: int| first_crossing(paths[q], d, i) && cut.cut_edge_set@[q] == paths[q].edges@[i];
        assert(valid_path(g, paths[q], s, t));
        assert(g.joins(paths[q].edges@[i] as int, paths[q].vertices@[i] as int, paths[q].vertices@[i + 1] as int));
    }
    // no edge is listed twice
    assert forall|x: int, y: int| 0 <= x < cut.cut_edge_set@.len() && 0 <= y < cut.cut_edge_set@.len() && x != y implies
        cut.cut_edge_set@[x] != cut.cut_edge_set@[y] by {
        assert(picks(paths, d, cut.cut_edge_set@, x));
        assert(picks(paths, d, cut.cut_edge_set@, y));
        let i = choose|i: int| first_crossing(paths[x], d, i) && cut.cut_edge_set@[x] == paths[x].edges@[i];
        let k = choose|k: int| first_crossing(paths[y], d, k) && cut.cut_edge_set@[y] == paths[y].edges@[k];
        assert(paths[x].edges@[i] != paths[y].edges@[k]);
    }
    // every edge between the sides is listed
    assert forall|e: int| 0 <= e < g.edges@.len() && #[trigger] crosses(g, dst, e) implies cut.cut_edge_set@.contains(e as usize) by {
        let (a, b) = g.edges@[e];
        if !uses(paths, e) {
            lemma_unused_edge_both_arcs(g, paths, res, e);
            assert(res.arc(e, a as int, b as int));
            assert(res.arc(e, b as int, a as int));
        } else {
            let (p, j) = choose|p: int, j: int|
                0 <= p < paths.len() && 0 <= j < paths[p].edges@.len() && #[trigger] paths[p].edges@[j] == e;
            let path = paths[p];
            assert(valid_path(g, path, s, t));
            let x = path.vertices@[j] as int;
            let y = path.vertices@[j + 1] as int;
            assert(along_path(res, e, x, y));
            assert(res.arc(e, x, y));
            assert(g.joins(e, x, y));
            assert(!d[x] && d[y]);
            assert(is_crossing(path, d, j));
            assert(picks(paths, d, cut.cut_edge_set@, p));
            let i = choose|i: int| first_crossing(path, d, i) && cut.cut_edge_set@[p] == path.edges@[i];
            if i < j {
                lemma_stays_inside(res, path, d, i + 1, j);
            }
            assert(i == j);
            assert(cut.cut_edge_set@[p] == e);
        }
    }
    assert forall|e: int| 0 <= e < g.edges@.len() implies #[trigger] listed_iff_crossing(g, all_edges(g), cut, e) by {
        assert(all_edges(g)[e]);
        assert(g.edges@.len() == g.edges.len());
        assert((e as usize) as int == e);
        if cut.cut_edge_set@.contains(e as usize) {
            let q = choose|q: int| 0 <= q < cut.cut_edge_set@.len() && cut.cut_edge_set@[q] == e as usize;
            assert(crosses(g, dst, cut.cut_edge_set@[q] as int));
        }
        if crosses(g, dst, e) {
            assert(cut.cut_edge_set@.contains(e as usize));
        }
    }
    assert(d[t]);
    assert(d.len() == n);
    assert forall|v: int|
        0 <= v < n implies (cut.source_set@.contains(v as usize) <==> !#[trigger] cut.destination_set@.contains(
            v as usize,
        )) by {
        assert(d[v] == dst.contains(v as usize));
    }
    assert(cut.cut_edge_set@.no_duplicates());
    assert forall|i: int| 0 <= i < cut.cut_edge_set@.len() implies #[trigger] cut.cut_edge_set@[i] < g.edges@.len() by {
        assert(0 <= cut.cut_edge_set@[i] < g.edges@.len());
    }
}

/// Every path has one more vertex than edges and runs from `s` to `t`.
pub open spec fn paths_between(paths: Seq<Path>, s: int, t: int) -> bool {
    forall|p: int|
        0 <= p < paths.len() ==> (#[trigger] paths[p]).vertices@.len() == paths[p].edges@.len() + 1 && paths[p].vertices@[0] == s
            && paths[p].vertices@.last() == t
}

/// A walk that starts outside `d` and ends inside it enters `d` at some step.
proof fn lemma_walk_enters(p: Path, d: Seq<bool>, i: int)
    requires
        p.vertices@.len() == p.edges@.len() + 1,
        0 <= i < p.vertices@.len(),
        !d[p.vertices@[i] as int],
        d[p.vertices@.last() as int],
    ensures
        has_crossing(p, d),
    decreases p.vertices@.len() - i,
{
    if i + 1 < p.vertices@.len() {
        if d[p.vertices@[i + 1] as int] {
            assert(is_crossing(p, d, i));
        } else {
            lemma_walk_enters(p, d, i + 1);
        }
    }
}

/// The minimum cut between `source` and `destination` that lies closest to the destination,
/// found from what the destination reaches in the reverse residual graph.
/// `InvariantViolation` where the destination reaches the source or a path never crosses into
/// the destination side.
pub(crate) fn minimum_cut_between(
    source: usize,
    destination: usize,
    paths: &Vec<Path>,
    residual_graph_reverse: &ResidualGraph,
) -> (r: Result<Cut, CutError>)
    requires
        residual_graph_reverse.wf(),
        source < residual_graph_reverse.node_count,
        destination < residual_graph_reverse.node_count,
        path_shape(paths@, residual_graph_reverse.node_count as nat),
    ensures
        forall|d: Seq<bool>|
            #[trigger] residual_graph_reverse.reach_set(destination as int, d) ==> {
                &&& (r is Ok <==> !d[source as int] && forall|p: int|
                    0 <= p < paths@.len() ==> #[trigger] has_crossing(paths@[p], d))
                &&& (r matches Ok(cut) ==> split_by(paths@, d, cut))
                &&& (r matches Err(e) ==> e == CutError::InvariantViolation)
            },
        r matches Ok(cut) ==> closest_between(paths@, residual_graph_reverse, source as int, destination as int, cut),
        r matches Err(e) ==> e == CutError::InvariantViolation,
        crate::max_flow::source_unreached(residual_graph_reverse, source as int, destination as int) && paths_between(
            paths@,
            source as int,
            destination as int,
        ) ==> r is Ok,
{
    let d = residual_graph_reverse.reachable_from(destination);
    proof {
        assert forall|d2: Seq<bool>|
            #[trigger] residual_graph_reverse.reach_set(destination as int, d2) implies d2 == d@ by {
            lemma_reach_set_unique(residual_graph_reverse, destination as int, d@, d2);
        }
    }
    proof {
        assert(residual_graph_reverse.reach_set(destination as int, d@));
    }
    if d[source] {
        return Err(CutError::InvariantViolation);
    }
    proof {
        if paths_between(paths@, source as int, destination as int) {
            assert forall|p: int| 0 <= p < paths@.len() implies #[trigger] has_crossing(paths@[p], d@) by {
                lemma_walk_enters(paths@[p], d@, 0);
            }
        }
    }
    let r = split_along(paths, &d);
    r
}

/// The minimum cut between the first and last vertex of the paths that lies closest to the
/// destination, found from what the destination reaches in the reverse residual graph.
/// `InvalidInput` where `paths` is empty; `InvariantViolation` where the destination reaches
/// the source or a path never crosses into the destination side.
pub fn generate_minimum_cut_closest_to_destination(
    paths: &Vec<Path>,
    residual_graph_reverse: &ResidualGraph,
) -> (r: Result<Cut, CutError>)
    requires
        residual_graph_reverse.wf(),
        path_shape(paths@, residual_graph_reverse.node_count as nat),
    ensures
        paths@.len() == 0 ==> r == Err::<Cut, CutError>(CutError::InvalidInput),
        paths@.len() > 0 ==> forall|d: Seq<bool>|
            #[trigger] residual_graph_reverse.reach_set(paths@[0].vertices@.last() as int, d) ==> {
                &&& (r is Ok <==> !d[paths@[0].vertices@[0] as int] && forall|p: int|
                    0 <= p < paths@.len() ==> #[trigger] has_crossing(paths@[p], d))
                &&& (r matches Ok(cut) ==> split_by(paths@, d, cut))
                &&& (r matches Err(e) ==> e == CutError::InvariantViolation)
            },
        r matches Ok(cut) ==> closest_to_destination(paths@, residual_graph_reverse, cut),
        paths@.len() > 0 && crate::max_flow::source_unreached(
            residual_graph_reverse,
            paths@[0].vertices@[0] as int,
            paths@[0].vertices@.last() as int,
        ) && paths_between(paths@, paths@[0].vertices@[0] as int, paths@[0].vertices@.last() as int) ==> r is Ok,
{
    if paths.len() == 0 {
        return Err(CutError::InvalidInput);
    }
    let first = &paths[0];
    proof {
        assert(first.vertices@.len() == first.edges@.len() + 1);
    }
    let destination = first.vertices[first.vertices.len() - 1];
    let source = first.vertices[0];
    minimum_cut_between(source, destination, paths, residual_graph_reverse)
}

/// The lists of `table` named by `keys`, one after another.
pub open spec fn flat(keys: Seq<usize>, table: Seq<Seq<usize>>) -> Seq<usize>
    decreases keys.len(),
{
    if keys.len() == 0 {
        Seq::empty()
    } else {
        flat(keys.drop_last(), table) + table[keys.last() as int]
    }
}

/// Every key names a list of `table`.
pub open spec fn keys_in(keys: Seq<usize>, len: nat) -> bool {
    forall|i: int| 0 <= i < keys.len() ==> #[trigger] keys[i] < len
}

/// The lists named by `keys` in `table`, one after another; `InvariantViolation` where a key
/// names no list.
fn translate(keys: &Vec<usize>, table: &Vec<Vec<usize>>) -> (r: Result<Vec<usize>, CutError>)
    ensures
        r is Ok <==> keys_in(keys@, table@.len()),
        r matches Ok(v) ==> v@ == flat(keys@, table@.map_values(|l: Vec<usize>| l@)),
        r matches Err(e) ==> e == CutError::InvariantViolation,
{
    let ghost tv = table@.map_values(|l: Vec<usize>| l@);
    let mut out: Vec<usize> = Vec::new();
    let mut i: usize = 0;
    while i < keys.len()
        invariant
            i <= keys@.len(),
            tv == table@.map_values(|l: Vec<usize>| l@),
            keys_in(keys@.subrange(0, i as int), table@.len()),
            out@ == flat(keys@.subrange(0, i as int), tv),
        decreases keys.len() - i,
    {
        let c = keys[i];
        if c >= table.len() {
            proof {
                assert(!keys_in(keys@, table@.len())) by {
                    assert(keys@[i as int] >= table@.len());
                }
            }
            return Err(CutError::InvariantViolation);
        }
        let list = &table[c];
        let mut j: usize = 0;
        let ghost before = out@;
        while j < list.len()
            invariant
                j <= list@.len(),
                out@ == before + list@.subrange(0, j as int),
            decreases list.len() - j,
        {
            out.push(list[j]);
            proof {
                assert(list@.subrange(0, j + 1) =~= list@.subrange(0, j as int).push(list@[j as int]));
                assert(out@ =~= before + list@.subrange(0, j + 1));
            }
            j = j + 1;
        }
        proof {
            assert(list@.subrange(0, j as int) =~= list@);
            assert(keys@.subrange(0, i + 1).drop_last() =~= keys@.subrange(0, i as int));
            assert(tv[c as int] == list@);
            assert forall|x: int| 0 <= x < i + 1 implies #[trigger] keys@.subrange(0, i + 1)[x] < table@.len() by {
                if x < i {
                    assert(keys@.subrange(0, i + 1)[x] == keys@.subrange(0, i as int)[x]);
                }
            }
        }
        i = i + 1;
    }
    proof {
        assert(keys@.subrange(0, i as int) =~= keys@);
    }
    Ok(out)
}

/// `mapped` is `cut` translated through `map`: each side is the union of the original
/// vertices of its contracted vertices, and the edges those of its contracted edges.
pub open spec fn translated(cut: Cut, map: &IndexMapping, mapped: Cut) -> bool {
    &&& mapped.source_set@ == flat(cut.source_set@, map.vertex_view())
    &&& mapped.destination_set@ == flat(cut.destination_set@, map.vertex_view())
    &&& mapped.cut_edge_set@ == flat(cut.cut_edge_set@, map.edge_view())
    &&& mapped.size == mapped.cut_edge_set@.len()
}

/// The lookups of `translated` all succeed.
pub open spec fn translatable(cut: Cut, map: &IndexMapping) -> bool {
    &&& keys_in(cut.source_set@, map.vertex_view().len())
    &&& keys_in(cut.destination_set@, map.vertex_view().len())
    &&& keys_in(cut.cut_edge_set@, map.edge_view().len())
}

/// Translates a cut of a contracted graph back to original indices; `InvariantViolation` where
/// the mapping lacks an entry.
pub(crate) fn map_cut(cut: Cut, index_mapping: &IndexMapping) -> (r: Result<Cut, CutError>)
    ensures
        r is Ok <==> translatable(cut, index_mapping),
        r matches Ok(m) ==> translated(cut, index_mapping, m),
        r matches Err(e) ==> e == CutError::InvariantViolation,
{
    let source_set_mapped = match translate(&cut.source_set, &index_mapping.vertex_contracted_to_original) {
        Ok(v) => v,
        Err(e) => return Err(e),
    };
    let destination_set_mapped = match translate(&cut.destination_set, &index_mapping.vertex_contracted_to_original) {
        Ok(v) => v,
        Err(e) => return Err(e),
    };
    let edge_set_mapped = match translate(&cut.cut_edge_set, &index_mapping.edge_contracted_to_original) {
        Ok(v) => v,
        Err(e) => return Err(e),
    };
    Ok(Cut::new(source_set_mapped, destination_set_mapped, edge_set_mapped))
}

/// The minimum cut closest to the destination, as
/// `generate_minimum_cut_closest_to_destination` finds it on a contracted graph, translated
/// back to original indices through `index_mapping`. `InvariantViolation` also where the
/// mapping lacks an entry.
pub fn generate_minimum_cut_closest_to_destination_with_mapping(
    paths: &Vec<Path>,
    residual_graph_reverse: &ResidualGraph,
    index_mapping: &IndexMapping,
) -> (r: Result<Cut, CutError>)
    requires
        residual_graph_reverse.wf(),
        path_shape(paths@, residual_graph_reverse.node_count as nat),
    ensures
        paths@.len() == 0 ==> r == Err::<Cut, CutError>(CutError::InvalidInput),
        paths@.len() > 0 ==> forall|d: Seq<bool>|
            #[trigger] residual_graph_reverse.reach_set(paths@[0].vertices@.last() as int, d) ==> {
                &&& (r is Ok <==> !d[paths@[0].vertices@[0] as int] && (forall|p: int|
                    0 <= p < paths@.len() ==> #[trigger] has_crossing(paths@[p], d)) && exists|c: Cut|
                    #[trigger] split_by(paths@, d, c) && translatable(c, index_mapping))
                &&& (r matches Ok(m) ==> exists|c: Cut| #[trigger] split_by(paths@, d, c) && translated(c, index_mapping, m))
                &&& (r matches Err(e) ==> e == CutError::InvariantViolation)
            },
        paths@.len() > 0 && crate::max_flow::source_unreached(
            residual_graph_reverse,
            paths@[0].vertices@[0] as int,
            paths@[0].vertices@.last() as int,
        ) && paths_between(paths@, paths@[0].vertices@[0] as int, paths@[0].vertices@.last() as int)
            && index_mapping.vertex_view().len() == residual_graph_reverse.node_count && (forall|p: int, j: int|
            0 <= p < paths@.len() && 0 <= j < paths@[p].edges@.len() ==> #[trigger] paths@[p].edges@[j]
                < index_mapping.edge_view().len()) ==> r is Ok,
{
    let min_cut_contracted = match generate_minimum_cut_closest_to_destination(paths, residual_graph_reverse) {
        Ok(c) => c,
        Err(e) => {
            proof {
                if paths@.len() > 0 {
                    assert forall|d: Seq<bool>|
                        #[trigger] residual_graph_reverse.reach_set(paths@[0].vertices@.last() as int, d) implies !(exists|c: Cut|
                        #[trigger] split_by(paths@, d, c) && translatable(c, index_mapping)) || d[paths@[0].vertices@[0] as int] || !(forall|p: int|
                    0 <= p < paths@.len() ==> #[trigger] has_crossing(paths@[p], d)) by {}
                }
            }
            return Err(e);
        },
    };
    let ghost cc = min_cut_contracted;
    proof {
        if index_mapping.vertex_view().len() == residual_graph_reverse.node_count && (forall|p: int, j: int|
            0 <= p < paths@.len() && 0 <= j < paths@[p].edges@.len() ==> #[trigger] paths@[p].edges@[j]
                < index_mapping.edge_view().len()) {
            let d = choose|d: Seq<bool>|
                #[trigger] residual_graph_reverse.reach_set(paths@[0].vertices@.last() as int, d) && !d[paths@[0].vertices@[0] as int]
                    && split_by(paths@, d, cc);
            assert forall|i: int| 0 <= i < cc.cut_edge_set@.len() implies #[trigger] cc.cut_edge_set@[i] < index_mapping.edge_view().len() by {
                assert(picks(paths@, d, cc.cut_edge_set@, i));
                let j = choose|j: int| first_crossing(paths@[i], d, j) && cc.cut_edge_set@[i] == paths@[i].edges@[j];
            }
            assert(translatable(cc, index_mapping));
        }
    }
    let r = map_cut(min_cut_contracted, index_mapping);
    proof {
        assert forall|d: Seq<bool>|
            #[trigger] residual_graph_reverse.reach_set(paths@[0].vertices@.last() as int, d) implies {
                &&& (r is Ok <==> !d[paths@[0].vertices@[0] as int] && (forall|p: int|
                    0 <= p < paths@.len() ==> #[trigger] has_crossing(paths@[p], d)) && exists|c: Cut|
                    #[trigger] split_by(paths@, d, c) && translatable(c, index_mapping))
                &&& (r matches Ok(m) ==> exists|c: Cut| #[trigger] split_by(paths@, d, c) && translated(c, index_mapping, m))
            } by {
            assert(split_by(paths@, d, cc));
            if exists|c: Cut| #[trigger] split_by(paths@, d, c) && translatable(c, index_mapping) {
                let c = choose|c: Cut| #[trigger] split_by(paths@, d, c) && translatable(c, index_mapping);
                lemma_split_by_unique(paths@, d, c, cc);
            }
        }
    }
    r
}

/// Two cuts along the same vertex set for the same paths are the same cut.
pub proof fn lemma_split_by_unique(paths: Seq<Path>, d: Seq<bool>, c1: Cut, c2: Cut)
    requires
        d.len() <= usize::MAX,
        split_by(paths, d, c1),
        split_by(paths, d, c2),
    ensures
        c1.source_set@ == c2.source_set@,
        c1.destination_set@ == c2.destination_set@,
        c1.cut_edge_set@ == c2.cut_edge_set@,
        c1.size == c2.size,
{
    lemma_increasing_members_unique(c1.source_set@, c2.source_set@, d, false);
    lemma_increasing_members_unique(c1.destination_set@, c2.destination_set@, d, true);
    assert forall|p: int| 0 <= p < paths.len() implies c1.cut_edge_set@[p] == c2.cut_edge_set@[p] by {
        assert(picks(paths, d, c1.cut_edge_set@, p));
        assert(picks(paths, d, c2.cut_edge_set@, p));
        let i = choose|i: int| first_crossing(paths[p], d, i) && c1.cut_edge_set@[p] == paths[p].edges@[i];
        let j = choose|j: int| first_crossing(paths[p], d, j) && c2.cut_edge_set@[p] == paths[p].edges@[j];
        if i < j {
            assert(!is_crossing(paths[p], d, i));
        }
        if j < i {
            assert(!is_crossing(paths[p], d, j));
        }
    }
    assert(c1.cut_edge_set@ =~= c2.cut_edge_set@);
    assert(c1.source_set@ =~= c2.source_set@);
    assert(c1.destination_set@ =~= c2.destination_set@);
}

/// Two increasing lists of the vertices `v` with `d[v] == want` are the same list.
pub(crate) proof fn lemma_increasing_members_unique(a: Seq<usize>, b: Seq<usize>, d: Seq<bool>, want: bool)
    requires
        d.len() <= usize::MAX,
        increasing(a),
        increasing(b),
        forall|i: int| 0 <= i < a.len() ==> #[trigger] a[i] < d.len(),
        forall|i: int| 0 <= i < b.len() ==> #[trigger] b[i] < d.len(),
        forall|v: int| 0 <= v < d.len() ==> (a.contains(v as usize) <==> #[trigger] d[v] == want),
        forall|v: int| 0 <= v < d.len() ==> (b.contains(v as usize) <==> #[trigger] d[v] == want),
    ensures
        a == b,
    decreases a.len() + b.len(),
{
    if a.len() > 0 && b.len() > 0 {
        let x = a.last();
        let y = b.last();
        assert(d[x as int] == want);
        assert(d[y as int] == want);
        assert(b.contains(x));
        assert(a.contains(y));
        let j = choose|j: int| 0 <= j < b.len() && b[j] == x;
        let i = choose|i: int| 0 <= i < a.len() && a[i] == y;
        assert(x <= y) by {
            if j < b.len() - 1 {
                assert(b[j] < b[b.len() - 1]);
            }
        }
        assert(y <= x) by {
            if i < a.len() - 1 {
                assert(a[i] < a[a.len() - 1]);
            }
        }
        let d2 = d.update(x as int, !want);
        let a2 = a.drop_last();
        let b2 = b.drop_last();
        assert forall|v: int| 0 <= v < d2.len() implies (a2.contains(v as usize) <==> #[trigger] d2[v] == want) by {
            if a2.contains(v as usize) {
                let k = choose|k: int| 0 <= k < a2.len() && a2[k] == v as usize;
                assert(a[k] < a[a.len() - 1]);
                assert(a.contains(v as usize));
            }
            if d2[v] == want {
                assert(v != x);
                assert(v as usize != x);
                assert(a.contains(v as usize));
                let k = choose|k: int| 0 <= k < a.len() && a[k] == v as usize;
                assert(k != a.len() - 1);
                assert(a2[k] == v as usize);
            }
        }
        assert forall|v: int| 0 <= v < d2.len() implies (b2.contains(v as usize) <==> #[trigger] d2[v] == want) by {
            if b2.contains(v as usize) {
                let k = choose|k: int| 0 <= k < b2.len() && b2[k] == v as usize;
                assert(b[k] < b[b.len() - 1]);
                assert(b.contains(v as usize));
            }
            if d2[v] == want {
                assert(v != x);
                assert(v as usize != x);
                assert(b.contains(v as usize));
                let k = choose|k: int| 0 <= k < b.len() && b[k] == v as usize;
                assert(k != b.len() - 1);
                assert(b2[k] == v as usize);
            }
        }
        lemma_increasing_members_unique(a2, b2, d2, want);
        assert(a =~= a2.push(x));
        assert(b =~= b2.push(y));
    } else if a.len() > 0 {
        assert(d[a[0] as int] == want);
        assert(!b.contains(a[0]));
    } else if b.len() > 0 {
        assert(d[b[0] as int] == want);
        assert(!a.contains(b[0]));
    } else {
        assert(a =~= b);
    }
}


/// `s` with every value after its first occurrence left out.
pub open spec fn dedup_first<T>(s: Seq<T>) -> Seq<T>
    decreases s.len(),
{
    if s.len() == 0 {
        Seq::empty()
    } else {
        let rest = dedup_first(s.drop_last());
        if rest.contains(s.last()) {
            rest
        } else {
            rest.push(s.last())
        }
    }
}

/// Leaving out repeats keeps every value, shortens, and leaves no repeat.
pub proof fn lemma_dedup_first<T>(s: Seq<T>)
    ensures
        dedup_first(s).len() <= s.len(),
        dedup_first(s).no_duplicates(),
        forall|x: T| dedup_first(s).contains(x) <==> s.contains(x),
    decreases s.len(),
{
    if s.len() > 0 {
        let init = s.drop_last();
        lemma_dedup_first(init);
        let rest = dedup_first(init);
        let d = dedup_first(s);
        assert forall|x: T| d.contains(x) <==> s.contains(x) by {
            if s.contains(x) {
                if x == s.last() {
                    if !rest.contains(x) {
                        assert(d[rest.len() as int] == x);
                    } else {
                        let j = choose|j: int| 0 <= j < rest.len() && rest[j] == x;
                        assert(d[j] == x);
                    }
                } else {
                    let i = choose|i: int| 0 <= i < s.len() && s[i] == x;
                    assert(i < s.len() - 1);
                    assert(init[i] == x);
                    assert(init.contains(x));
                    assert(rest.contains(x));
                    let j = choose|j: int| 0 <= j < rest.len() && rest[j] == x;
                    assert(d[j] == x);
                }
            }
            if d.contains(x) {
                let j = choose|j: int| 0 <= j < d.len() && d[j] == x;
                if j < rest.len() {
                    assert(rest[j] == x);
                    assert(rest.contains(x));
                    assert(init.contains(x));
                    let i = choose|i: int| 0 <= i < init.len() && init[i] == x;
                    assert(s[i] == x);
                } else {
                    assert(x == s.last());
                    assert(s[s.len() - 1] == x);
                }
            }
        }
        assert forall|i: int, j: int| 0 <= i < d.len() && 0 <= j < d.len() && i != j implies d[i] != d[j] by {
            if i < rest.len() && j < rest.len() {
                assert(rest[i] != rest[j]);
            } else if i < rest.len() {
                assert(rest.contains(rest[i]));
            } else {
                assert(rest.contains(rest[j]));
            }
        }
    }
}

/// Relies on itertools' `Itertools::unique`: it keeps the first occurrence of each value, in
/// the order of the input.
#[verifier::external_body]
fn unique_indices(v: Vec<usize>) -> (r: Vec<usize>)
    ensures
        r@ == dedup_first(v@),
{
    v.into_iter().unique().collect()
}

/// Relies on itertools' `Itertools::unique`: it keeps the first occurrence of each list, in the
/// order of the input.
#[verifier::external_body]
fn unique_pair_lists(v: Vec<Vec<(usize, usize)>>) -> (r: Vec<Vec<(usize, usize)>>)
    ensures
        r@.map_values(|l: Vec<(usize, usize)>| l@) == dedup_first(v@.map_values(|l: Vec<(usize, usize)>| l@)),
{
    v.into_iter().unique().collect()
}

/// Relies on rand's `SliceRandom::choose` with the thread-local generator: `None` for an empty
/// slice, otherwise one of its elements.
#[verifier::external_body]
fn choose_edge(edges: &Vec<usize>) -> (r: Option<usize>)
    ensures
        r is None <==> edges@.len() == 0,
        r matches Some(e) ==> edges@.contains(e),
{
    edges.choose(&mut rand::thread_rng()).copied()
}

impl Cut {
    /// The edge `edge` of `graph` read across this cut: the edge and its endpoint on the
    /// destination side. `InvariantViolation` where the graph has no such edge or the edge does
    /// not run from the source side to the destination side.
    pub fn edge_across(&self, graph: &UnGraph, edge: usize) -> (r: Result<(usize, usize), CutError>)
        ensures
            r matches Ok(x) ==> x.0 == edge && edge < graph.edges@.len() && {
                let (a, b) = graph.edges@[edge as int];
                (self.source_set@.contains(a) && self.destination_set@.contains(b) && x.1 == b) || (
                !(self.source_set@.contains(a) && self.destination_set@.contains(b))
                    && self.source_set@.contains(b) && self.destination_set@.contains(a) && x.1 == a)
            },
            r is Err <==> edge >= graph.edges@.len() || {
                let (a, b) = graph.edges@[edge as int];
                !(self.source_set@.contains(a) && self.destination_set@.contains(b)) && !(
                self.source_set@.contains(b) && self.destination_set@.contains(a))
            },
            r matches Err(e) ==> e == CutError::InvariantViolation,
    {
        if edge >= graph.edges.len() {
            return Err(CutError::InvariantViolation);
        }
        let (a, b) = graph.edges[edge];
        if crate::path_residual::contains(&self.source_set, a) && crate::path_residual::contains(&self.destination_set, b) {
            Ok((edge, b))
        } else if crate::path_residual::contains(&self.source_set, b) && crate::path_residual::contains(&self.destination_set, a) {
            Ok((edge, a))
        } else {
            Err(CutError::InvariantViolation)
        }
    }

    /// An edge of the cut picked at random, with its endpoint on the destination side, as
    /// `edge_across` reads it. `InvariantViolation` where the cut has no edge or the picked
    /// edge does not cross it.
    pub fn arbitrary_edge(&self, graph: &UnGraph) -> (r: Result<(usize, usize), CutError>)
        ensures
            self.cut_edge_set@.len() == 0 ==> r == Err::<(usize, usize), CutError>(CutError::InvariantViolation),
            r matches Ok(x) ==> self.cut_edge_set@.contains(x.0) && x.0 < graph.edges@.len() && self.destination_set@.contains(x.1) && {
                let (a, b) = graph.edges@[x.0 as int];
                (self.source_set@.contains(a) && x.1 == b) || (self.source_set@.contains(b) && x.1 == a)
            },
            r matches Err(e) ==> e == CutError::InvariantViolation,
            (self.cut_edge_set@.len() > 0 && forall|i: int|
                0 <= i < self.cut_edge_set@.len() ==> #[trigger] self.runs_across(graph, self.cut_edge_set@[i])) ==> r is Ok,
            r is Err ==> self.cut_edge_set@.len() == 0 || exists|i: int|
                0 <= i < self.cut_edge_set@.len() && !#[trigger] self.runs_across(graph, self.cut_edge_set@[i]),
    {
        match choose_edge(&self.cut_edge_set) {
            None => Err(CutError::InvariantViolation),
            Some(edge) => {
                let r = self.edge_across(graph, edge);
                proof {
                    let i = choose|i: int| 0 <= i < self.cut_edge_set@.len() && self.cut_edge_set@[i] == edge;
                    if r is Err {
                        assert(!self.runs_across(graph, self.cut_edge_set@[i]));
                    }
                }
                r
            },
        }
    }

    /// Edge `e` is an edge of `graph` with one endpoint on each side of this cut.
    pub open spec fn runs_across(&self, graph: &UnGraph, e: usize) -> bool {
        &&& e < graph.edges@.len()
        &&& {
            let (a, b) = graph.edges@[e as int];
            (self.source_set@.contains(a) && self.destination_set@.contains(b)) || (self.source_set@.contains(b)
                && self.destination_set@.contains(a))
        }
    }
}

/// A cut reported by the important-cut enumeration: its edges, each listed once.
#[derive(Debug)]
pub struct ImportantCut {
    pub edge_indices: Vec<usize>,
}

impl ImportantCut {
    /// The cut made of `edge_indices`, repeats left out, first occurrences kept in order.
    pub fn from(edge_indices: Vec<usize>) -> (r: Self)
        ensures
            r.edge_indices@ == dedup_first(edge_indices@),
            r.edge_indices@.no_duplicates(),
            r.edge_indices@.len() <= edge_indices@.len(),
            forall|e: usize| r.edge_indices@.contains(e) <==> edge_indices@.contains(e),
    {
        proof {
            lemma_dedup_first(edge_indices@);
        }
        ImportantCut { edge_indices: unique_indices(edge_indices) }
    }

    /// The endpoints of each edge of the cut, in the order of the edges.
    pub fn vertex_pairs(&self, graph: &UnGraph) -> (r: Vec<(usize, usize)>)
        requires
            forall|i: int| 0 <= i < self.edge_indices@.len() ==> #[trigger] self.edge_indices@[i] < graph.edges@.len(),
        ensures
            r@.len() == self.edge_indices@.len(),
            forall|i: int| 0 <= i < r@.len() ==> #[trigger] r@[i] == graph.edges@[self.edge_indices@[i] as int],
    {
        let mut r: Vec<(usize, usize)> = Vec::new();
        let mut i: usize = 0;
        while i < self.edge_indices.len()
            invariant
                i <= self.edge_indices@.len(),
                forall|i: int| 0 <= i < self.edge_indices@.len() ==> #[trigger] self.edge_indices@[i] < graph.edges@.len(),
                r@.len() == i,
                forall|j: int| 0 <= j < i ==> #[trigger] r@[j] == graph.edges@[self.edge_indices@[j] as int],
            decreases self.edge_indices.len() - i,
        {
            r.push(graph.edges[self.edge_indices[i]]);
            i = i + 1;
        }
        r
    }

    /// The edge lists of the cuts, in order.
    pub fn vec_edge_indices(cuts: Vec<ImportantCut>) -> (r: Vec<Vec<usize>>)
        ensures
            r@.len() == cuts@.len(),
            forall|i: int| 0 <= i < r@.len() ==> (#[trigger] r@[i])@ == cuts@[i].edge_indices@,
    {
        let mut r: Vec<Vec<usize>> = Vec::new();
        let mut i: usize = 0;
        while i < cuts.len()
            invariant
                i <= cuts@.len(),
                r@.len() == i,
                forall|j: int| 0 <= j < i ==> (#[trigger] r@[j])@ == cuts@[j].edge_indices@,
            decreases cuts.len() - i,
        {
            r.push(copy_indices(&cuts[i].edge_indices));
            i = i + 1;
        }
        r
    }

    /// The vertex pairs of the cuts, in order, with repeated lists left out.
    pub fn vec_vertex_indices(graph: &UnGraph, cuts: Vec<ImportantCut>) -> (r: Vec<Vec<(usize, usize)>>)
        requires
            forall|c: int, i: int|
                0 <= c < cuts@.len() && 0 <= i < cuts@[c].edge_indices@.len() ==> #[trigger] cuts@[c].edge_indices@[i] < graph.edges@.len(),
        ensures
            r@.map_values(|l: Vec<(usize, usize)>| l@) == dedup_first(
                Seq::new(cuts@.len(), |c: int| cuts@[c].edge_indices@.map_values(|e: usize| graph.edges@[e as int])),
            ),
    {
        let mut pairs: Vec<Vec<(usize, usize)>> = Vec::new();
        let mut i: usize = 0;
        while i < cuts.len()
            invariant
                i <= cuts@.len(),
                forall|c: int, i: int|
                    0 <= c < cuts@.len() && 0 <= i < cuts@[c].edge_indices@.len() ==> #[trigger] cuts@[c].edge_indices@[i] < graph.edges@.len(),
                pairs@.len() == i,
                forall|j: int| 0 <= j < i ==> (#[trigger] pairs@[j])@ == cuts@[j].edge_indices@.map_values(|e: usize| graph.edges@[e as int]),
            decreases cuts.len() - i,
        {
            let p = cuts[i].vertex_pairs(graph);
            proof {
                assert(p@ =~= cuts@[i as int].edge_indices@.map_values(|e: usize| graph.edges@[e as int]));
            }
            pairs.push(p);
            i = i + 1;
        }
        proof {
            assert(pairs@.map_values(|l: Vec<(usize, usize)>| l@) =~= Seq::new(cuts@.len(), |c: int| cuts@[c].edge_indices@.map_values(|e: usize| graph.edges@[e as int])));
        }
        unique_pair_lists(pairs)
    }
}

/// A copy of a list of indices.
pub(crate) fn copy_indices(v: &Vec<usize>) -> (r: Vec<usize>)
    ensures
        r@ == v@,
{
    let mut r: Vec<usize> = Vec::new();
    let mut i: usize = 0;
    while i < v.len()
        invariant
            i <= v@.len(),
            r@ == v@.subrange(0, i as int),
        decreases v.len() - i,
    {
        r.push(v[i]);
        proof {
            assert(r@ =~= v@.subrange(0, i + 1));
        }
        i = i + 1;
    }
    proof {
        assert(r@ =~= v@);
    }
    r
}

} // verus!
