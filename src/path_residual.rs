use vstd::prelude::*;

use crate::cut::{increasing, CutError};
use crate::max_flow::{fwd_closed, lemma_blocked_source_unreached, max_flow_paths, source_unreached};
use crate::graph::{count_true, lemma_count_true_bound, lemma_count_true_set, ResidualGraph, UnGraph};

verus! {

/// A walk from a source to a destination: `edges[j]` joins `vertices[j]` and `vertices[j + 1]`.
pub struct Path {
    pub vertices: Vec<usize>,
    pub edges: Vec<usize>,
}

impl Path {
    /// The last vertex of the first path: the destination all the paths lead to. `None` where
    /// there is no path or the first one has no vertex.
    pub fn get_destination(paths: &Vec<Path>) -> (r: Option<usize>)
        ensures
            paths@.len() > 0 && paths@[0].vertices@.len() > 0 ==> r == Some(paths@[0].vertices@.last()),
            paths@.len() == 0 || paths@[0].vertices@.len() == 0 ==> r is None,
    {
        if paths.len() == 0 {
            return None;
        }
        let first = &paths[0];
        if first.vertices.len() == 0 {
            None
        } else {
            Some(first.vertices[first.vertices.len() - 1])
        }
    }

    /// The destination of the paths as a vertex index of the graph they walk in.
    pub fn get_destination_node_index(paths: &Vec<Path>) -> (r: Option<usize>)
        ensures
            r == Path::spec_destination(paths@),
    {
        Path::get_destination(paths)
    }

    pub open spec fn spec_destination(paths: Seq<Path>) -> Option<usize> {
        if paths.len() > 0 && paths[0].vertices@.len() > 0 {
            Some(paths[0].vertices@.last())
        } else {
            None
        }
    }
}

/// `p` walks in `g` from `s` to `t`.
pub open spec fn valid_path(g: &UnGraph, p: Path, s: int, t: int) -> bool {
    &&& p.vertices@.len() == p.edges@.len() + 1
    &&& p.vertices@[0] == s
    &&& p.vertices@.last() == t
    &&& forall|j: int|
        0 <= j < p.edges@.len() ==> (#[trigger] p.edges@[j]) < g.edges@.len() && g.joins(
            p.edges@[j] as int,
            p.vertices@[j] as int,
            p.vertices@[j + 1] as int,
        )
}

/// Some path of `paths` runs along edge `e`.
pub open spec fn uses(paths: Seq<Path>, e: int) -> bool {
    exists|p: int, j: int|
        0 <= p < paths.len() && 0 <= j < paths[p].edges@.len() && #[trigger] paths[p].edges@[j]
            == e
}

/// No edge is run along twice, within one path or across two.
pub open spec fn edge_disjoint(paths: Seq<Path>) -> bool {
    forall|p: int, j: int, q: int, i: int|
        0 <= p < paths.len() && 0 <= q < paths.len() && 0 <= j < paths[p].edges@.len() && 0 <= i
            < paths[q].edges@.len() && (p != q || j != i) ==> #[trigger] paths[p].edges@[j]
            != #[trigger] paths[q].edges@[i]
}

/// Each path of `paths` walks in `g` from `s` to `t`, and no edge is used twice.
pub open spec fn disjoint_paths(g: &UnGraph, paths: Seq<Path>, s: int, t: int) -> bool {
    &&& forall|p: int| 0 <= p < paths.len() ==> valid_path(g, #[trigger] paths[p], s, t)
    &&& edge_disjoint(paths)
}

/// `res` is the reverse residual graph of `g` for `paths`: an edge no path uses carries
/// both arcs, and an edge a path uses carries the one arc that points along the path,
/// from the source side to the destination side.
pub open spec fn reverse_residual_of(g: &UnGraph, paths: Seq<Path>, res: &ResidualGraph) -> bool {
    &&& res.wf()
    &&& res.node_count == g.node_count
    &&& res.ends@ == g.edges@
    &&& forall|e: int|
        0 <= e < g.edges@.len() && !uses(paths, e) ==> #[trigger] res.forward@[e]
            && res.backward@[e]
    &&& forall|p: int, j: int|
        0 <= p < paths.len() && 0 <= j < paths[p].edges@.len() ==> along_path(
            res,
            #[trigger] paths[p].edges@[j] as int,
            paths[p].vertices@[j] as int,
            paths[p].vertices@[j + 1] as int,
        )
}

/// Edge `e` carries the arc `x -> y` and not the arc `y -> x`.
pub open spec fn along_path(res: &ResidualGraph, e: int, x: int, y: int) -> bool {
    let (a, b) = res.ends@[e];
    (a == x && b == y && res.forward@[e] && !res.backward@[e]) || (a == y && b == x
        && res.backward@[e] && !res.forward@[e])
}

/// No available edge has exactly one endpoint in the vertex set `d`.
pub open spec fn avail_closed(g: &UnGraph, avail: Seq<bool>, d: Seq<bool>) -> bool {
    &&& d.len() == g.node_count
    &&& forall|e: int|
        0 <= e < g.edges@.len() && avail[e] ==> (d[(#[trigger] g.edges@[e]).0 as int] <==> d[g.edges@[e].1 as int])
}

/// Every walk from `s` to `t` along available edges is blocked: some vertex set holding `s`
/// and not `t` is left by no available edge.
pub open spec fn separated(g: &UnGraph, avail: Seq<bool>, s: int, t: int) -> bool {
    exists|d: Seq<bool>| #[trigger] avail_closed(g, avail, d) && d[s] && !d[t]
}

/// Edge `e` has `u` as an endpoint.
pub open spec fn touches(g: &UnGraph, e: int, u: int) -> bool {
    g.edges@[e].0 == u || g.edges@[e].1 == u
}

/// The vertex reached from `v` along edge `e`.
pub open spec fn other_end(g: &UnGraph, e: int, v: int) -> int {
    if g.edges@[e].0 == v {
        g.edges@[e].1 as int
    } else {
        g.edges@[e].0 as int
    }
}

/// `next` records a breadth-first tree grown from `s` along available edges: each vertex
/// with an entry was reached by that edge from a vertex of smaller `rank` that is `s` or has
/// an entry itself.
pub open spec fn search_tree(
    g: &UnGraph,
    avail: Seq<bool>,
    next: Seq<Option<usize>>,
    s: int,
    rank: Seq<nat>,
) -> bool {
    &&& next.len() == g.node_count
    &&& rank.len() == g.node_count
    &&& next[s] is None
    &&& forall|v: int|
        0 <= v < g.node_count && (#[trigger] next[v]) is Some ==> {
            let e = next[v]->0 as int;
            &&& 0 <= e < g.edges@.len()
            &&& avail[e]
            &&& (g.edges@[e].0 == v || g.edges@[e].1 == v)
            &&& other_end(g, e, v) != v
            &&& (other_end(g, e, v) == s || next[other_end(g, e, v)] is Some)
            &&& rank[other_end(g, e, v)] < rank[v]
        }
}

/// `rank` is the layer of the breadth-first tree in `next`: zero at `s`, one more than the
/// parent's for every other vertex with an entry.
pub open spec fn layered(g: &UnGraph, next: Seq<Option<usize>>, s: int, rank: Seq<nat>) -> bool {
    &&& rank[s] == 0
    &&& forall|v: int|
        0 <= v < g.node_count && (#[trigger] next[v]) is Some ==> rank[v] == rank[other_end(g, next[v]->0 as int, v)] + 1
}

/// `p` walks in `g` from `s` to `t` along available edges only.
pub open spec fn avail_walk(g: &UnGraph, avail: Seq<bool>, p: Path, s: int, t: int) -> bool {
    &&& valid_path(g, p, s, t)
    &&& forall|j: int| 0 <= j < p.edges@.len() ==> #[trigger] avail[p.edges@[j] as int]
}

/// In a breadth-first search whose queue, taken up to `head`, has handled every vertex of a
/// layer below that of `queue[head]`, the first `i` steps of an available walk from `s` end at a
/// vertex already reached, in layer at most `i`.
proof fn lemma_bfs_prefix(
    g: &UnGraph,
    avail: Seq<bool>,
    p: Path,
    s: int,
    t: int,
    visited: Seq<bool>,
    queue: Seq<usize>,
    head: int,
    rank: Seq<nat>,
    i: int,
)
    requires
        g.wf(),
        avail_walk(g, avail, p, s, t),
        visited.len() == g.node_count,
        0 <= s < g.node_count,
        visited[s],
        rank[s] == 0,
        0 <= head < queue.len(),
        0 <= i < p.vertices@.len(),
        i <= rank[queue[head] as int],
        forall|x: int| 0 <= x < queue.len() ==> (#[trigger] queue[x]) < g.node_count && visited[queue[x] as int],
        forall|v: int| 0 <= v < g.node_count && #[trigger] visited[v] ==> queue.contains(v as usize),
        forall|x: int, y: int| 0 <= x <= y < queue.len() ==> rank[#[trigger] queue[x] as int] <= rank[#[trigger] queue[y] as int],
        forall|x: int, e: int|
            0 <= x < head && 0 <= e < g.edges@.len() && avail[e] && #[trigger] touches(g, e, queue[x] as int)
                ==> visited[g.edges@[e].0 as int] && visited[g.edges@[e].1 as int],
        forall|x: int, e: int|
            0 <= x < head && 0 <= e < g.edges@.len() && avail[e] && #[trigger] touches(g, e, queue[x] as int)
                ==> rank[other_end(g, e, queue[x] as int)] <= rank[queue[x] as int] + 1,
    ensures
        visited[p.vertices@[i] as int],
        rank[p.vertices@[i] as int] <= i,
    decreases i,
{
    if i > 0 {
        lemma_bfs_prefix(g, avail, p, s, t, visited, queue, head, rank, i - 1);
        let y = p.vertices@[i - 1];
        let x = p.vertices@[i];
        let e = p.edges@[i - 1] as int;
        assert(g.joins(e, y as int, x as int));
        assert(avail[e]);
        assert(queue.contains(y)) by {
            assert(y < g.node_count);
        }
        let j = choose|j: int| 0 <= j < queue.len() && queue[j] == y;
        if j >= head {
            assert(rank[queue[head] as int] <= rank[queue[j] as int]);
        }
        assert(touches(g, e, queue[j] as int));
        if x != y {
            assert(other_end(g, e, y as int) == x);
        }
    }
}

/// The endpoint of edge `e` that is not `v`.
pub(crate) fn other_endpoint(g: &UnGraph, e: usize, v: usize) -> (r: usize)
    requires
        g.wf(),
        e < g.edges@.len(),
        g.edges@[e as int].0 == v || g.edges@[e as int].1 == v,
    ensures
        r == other_end(g, e as int, v as int),
        r < g.node_count,
        g.joins(e as int, v as int, r as int),
{
    let (a, b) = g.edges[e];
    if a == v {
        b
    } else {
        a
    }
}

/// Breadth-first search from `source` along the edges marked available. Each vertex reached
/// gets in `next_edge` the edge it was reached by. Returns `true` as soon as `destination` is
/// reached; `false` once the search has run out of vertices.
#[verifier::spinoff_prover]
#[verifier::rlimit(60)]
pub fn has_augmenting_path(
    graph: &UnGraph,
    source: usize,
    destination: usize,
    next_edge: &mut Vec<Option<usize>>,
    availability: &Vec<bool>,
) -> (r: bool)
    requires
        graph.wf(),
        source < graph.node_count,
        destination < graph.node_count,
        availability@.len() == graph.edges@.len(),
    ensures
        final(next_edge)@.len() == graph.node_count,
        r ==> source != destination && final(next_edge)@[destination as int] is Some && exists|
            rank: Seq<nat>,
        | #[trigger] search_tree(graph, availability@, final(next_edge)@, source as int, rank) && layered(graph, final(next_edge)@, source as int, rank)
            && forall|p: Path| #[trigger] avail_walk(graph, availability@, p, source as int, destination as int) ==> p.edges@.len() >= rank[destination as int],
        !r ==> source == destination || separated(
            graph,
            availability@,
            source as int,
            destination as int,
        ),
{
    let n = graph.node_count;
    let m = graph.edges.len();
    next_edge.clear();
    let mut visited: Vec<bool> = Vec::new();
    while visited.len() < n
        invariant
            visited@.len() <= n,
            next_edge@.len() == visited@.len(),
            forall|v: int| 0 <= v < visited@.len() ==> !#[trigger] visited@[v] && next_edge@[v] is None,
        decreases n - visited.len(),
    {
        visited.push(false);
        next_edge.push(None);
    }
    let ghost mut rank: Seq<nat> = Seq::new(n as nat, |i: int| 0nat);
    proof {
        assert forall|v: int| 0 <= v < n implies (#[trigger] next_edge@[v]) is None by {
            assert(!visited@[v]);
        }
        assert(search_tree(graph, availability@, next_edge@, source as int, rank));
        assert(layered(graph, next_edge@, source as int, rank));
        crate::graph::lemma_count_zero(visited@);
        lemma_count_true_set(visited@, source as int);
    }
    visited.set(source, true);
    let mut queue: Vec<usize> = Vec::new();
    queue.push(source);
    proof {
        assert forall|v: int| 0 <= v < n && #[trigger] visited@[v] implies queue@.contains(v as usize) by {
            assert(queue@[0] == source);
        }
    }
    let mut head: usize = 0;
    while head < queue.len()
        invariant
            graph.wf(),
            n == graph.node_count,
            m == graph.edges@.len(),
            availability@.len() == m,
            visited@.len() == n,
            source < n,
            destination < n,
            visited@[source as int],
            source != destination ==> !visited@[destination as int],
            head <= queue@.len(),
            queue@.len() == count_true(visited@),
            forall|i: int| 0 <= i < queue@.len() ==> (#[trigger] queue@[i]) < n && visited@[queue@[i] as int],
            forall|v: int| 0 <= v < n && #[trigger] visited@[v] ==> queue@.contains(v as usize),
            forall|i: int, e: int|
                0 <= i < head && 0 <= e < m && availability@[e] && #[trigger] touches(graph, e, queue@[i] as int)
                    ==> visited@[graph.edges@[e].0 as int] && visited@[graph.edges@[e].1 as int],
            forall|v: int| 0 <= v < n ==> ((#[trigger] visited@[v] && v != source) <==> next_edge@[v] is Some),
            next_edge@.len() == n,
            search_tree(graph, availability@, next_edge@, source as int, rank),
            layered(graph, next_edge@, source as int, rank),
            forall|i: int, j: int| 0 <= i <= j < queue@.len() ==> rank[#[trigger] queue@[i] as int] <= rank[#[trigger] queue@[j] as int],
            forall|j: int| head <= j < queue@.len() ==> rank[#[trigger] queue@[j] as int] <= rank[queue@[head as int] as int] + 1,
            forall|i: int, e: int|
                0 <= i < head && 0 <= e < m && availability@[e] && #[trigger] touches(graph, e, queue@[i] as int)
                    ==> rank[other_end(graph, e, queue@[i] as int)] <= rank[queue@[i] as int] + 1,
        decreases n - head,
    {
        proof {
            lemma_count_true_bound(visited@);
        }
        let u = queue[head];
        let mut e: usize = 0;
        while e < m
            invariant
                graph.wf(),
                n == graph.node_count,
                m == graph.edges@.len(),
                availability@.len() == m,
                visited@.len() == n,
                source < n,
                destination < n,
                visited@[source as int],
                source != destination ==> !visited@[destination as int],
                head < queue@.len(),
                u == queue@[head as int],
                e <= m,
                queue@.len() == count_true(visited@),
                forall|i: int| 0 <= i < queue@.len() ==> (#[trigger] queue@[i]) < n && visited@[queue@[i] as int],
                forall|v: int| 0 <= v < n && #[trigger] visited@[v] ==> queue@.contains(v as usize),
                forall|i: int, f: int|
                    0 <= i < head && 0 <= f < m && availability@[f] && #[trigger] touches(graph, f, queue@[i] as int)
                        ==> visited@[graph.edges@[f].0 as int] && visited@[graph.edges@[f].1 as int],
                forall|f: int|
                    0 <= f < e && availability@[f] && #[trigger] touches(graph, f, u as int)
                        ==> visited@[graph.edges@[f].0 as int] && visited@[graph.edges@[f].1 as int],
                forall|v: int| 0 <= v < n ==> ((#[trigger] visited@[v] && v != source) <==> next_edge@[v] is Some),
                next_edge@.len() == n,
                search_tree(graph, availability@, next_edge@, source as int, rank),
                layered(graph, next_edge@, source as int, rank),
                forall|i: int, j: int| 0 <= i <= j < queue@.len() ==> rank[#[trigger] queue@[i] as int] <= rank[#[trigger] queue@[j] as int],
                forall|j: int| head <= j < queue@.len() ==> rank[#[trigger] queue@[j] as int] <= rank[u as int] + 1,
                forall|i: int, f: int|
                    0 <= i < head && 0 <= f < m && availability@[f] && #[trigger] touches(graph, f, queue@[i] as int)
                        ==> rank[other_end(graph, f, queue@[i] as int)] <= rank[queue@[i] as int] + 1,
                forall|f: int|
                    0 <= f < e && availability@[f] && #[trigger] touches(graph, f, u as int)
                        ==> rank[other_end(graph, f, u as int)] <= rank[u as int] + 1,
            decreases m - e,
        {
            let (a, b) = graph.edges[e];
            let ghost old_visited = visited@;
            let ghost old_queue = queue@;
            let ghost old_next = next_edge@;
            let ghost old_rank = rank;
            if availability[e] && (a == u || b == u) {
                let w = other_endpoint(graph, e, u);
                if !visited[w] {
                    next_edge.set(w, Some(e));
                    proof {
                        rank = rank.update(w as int, old_rank[u as int] + 1);
                        assert(old_visited[u as int]);
                        assert(w != u);
                        assert forall|v: int|
                            0 <= v < n && (#[trigger] next_edge@[v]) is Some implies {
                                let f = next_edge@[v]->0 as int;
                                &&& 0 <= f < graph.edges@.len()
                                &&& availability@[f]
                                &&& (graph.edges@[f].0 == v || graph.edges@[f].1 == v)
                                &&& other_end(graph, f, v) != v
                                &&& (other_end(graph, f, v) == source || next_edge@[other_end(graph, f, v)] is Some)
                                &&& rank[other_end(graph, f, v)] < rank[v]
                            } by {
                            if v != w {
                                assert(old_next[v] is Some);
                                let x = other_end(graph, old_next[v]->0 as int, v);
                                assert(x != w) by {
                                    assert(old_visited[x] || x == source);
                                }
                            } else {
                                assert(other_end(graph, e as int, w as int) == u);
                                assert(u == source || old_next[u as int] is Some);
                            }
                        }
                    }
                    proof {
                        assert forall|v: int| 0 <= v < n && (#[trigger] next_edge@[v]) is Some implies
                            rank[v] == rank[other_end(graph, next_edge@[v]->0 as int, v)] + 1 by {
                            if v != w {
                                assert(old_next[v] is Some);
                                let x = other_end(graph, old_next[v]->0 as int, v);
                                assert(old_visited[x] || x == source);
                                assert(x != w);
                            } else {
                                assert(other_end(graph, e as int, w as int) == u);
                            }
                        }
                        assert(rank[source as int] == 0);
                        assert(layered(graph, next_edge@, source as int, rank));
                    }
                    if w == destination {
                        proof {
                            assert(search_tree(graph, availability@, next_edge@, source as int, rank));
                            assert forall|p: Path| #[trigger] avail_walk(graph, availability@, p, source as int, destination as int)
                                implies p.edges@.len() >= rank[destination as int] by {
                                if p.edges@.len() < rank[destination as int] {
                                    assert forall|i: int, j: int| 0 <= i <= j < queue@.len() implies rank[#[trigger] queue@[i] as int] <= rank[#[trigger] queue@[j] as int] by {
                                        assert(old_rank[queue@[i] as int] <= old_rank[queue@[j] as int]);
                                    }
                                    lemma_bfs_prefix(graph, availability@, p, source as int, destination as int, visited@, queue@,
                                        head as int, old_rank, p.edges@.len() as int);
                                }
                            }
                        }
                        return true;
                    }
                    proof {
                        lemma_count_true_set(visited@, w as int);
                    }
                    visited.set(w, true);
                    queue.push(w);
                    proof {
                        assert forall|i: int, j: int| 0 <= i <= j < queue@.len() implies rank[#[trigger] queue@[i] as int] <= rank[#[trigger] queue@[j] as int] by {
                            if j < old_queue.len() {
                                assert(old_rank[queue@[i] as int] <= old_rank[queue@[j] as int]);
                                assert(queue@[i] != w && queue@[j] != w);
                            } else if i < old_queue.len() {
                                assert(queue@[i] != w);
                                assert(old_rank[queue@[i] as int] <= old_rank[u as int] + 1);
                            }
                        }
                        assert forall|j: int| head <= j < queue@.len() implies rank[#[trigger] queue@[j] as int] <= rank[u as int] + 1 by {
                            if j < old_queue.len() {
                                assert(queue@[j] != w);
                            }
                        }
                        assert forall|v: int| 0 <= v < n && #[trigger] visited@[v] implies queue@.contains(v as usize) by {
                            if v != w {
                                assert(old_visited[v]);
                                let j = choose|j: int| 0 <= j < old_queue.len() && old_queue[j] == v as usize;
                                assert(queue@[j] == v as usize);
                            } else {
                                assert(queue@[queue@.len() - 1] == w);
                            }
                        }
                    }
                }
            }
            proof {
                assert forall|i: int, f: int|
                    0 <= i < head && 0 <= f < m && availability@[f] && #[trigger] touches(graph, f, queue@[i] as int)
                        implies visited@[graph.edges@[f].0 as int] && visited@[graph.edges@[f].1 as int] by {
                    assert(queue@[i] == old_queue[i]);
                    assert(touches(graph, f, old_queue[i] as int));
                }
                assert forall|f: int|
                    0 <= f < e + 1 && availability@[f] && #[trigger] touches(graph, f, u as int)
                        implies visited@[graph.edges@[f].0 as int] && visited@[graph.edges@[f].1 as int] by {
                    if f < e {
                        assert(old_visited[graph.edges@[f].0 as int]);
                        assert(old_visited[graph.edges@[f].1 as int]);
                    } else {
                        assert(old_visited[u as int]);
                    }
                }
            }
            e = e + 1;
        }
        proof {
            assert forall|i: int, f: int|
                0 <= i < head + 1 && 0 <= f < m && availability@[f] && #[trigger] touches(graph, f, queue@[i] as int)
                    implies visited@[graph.edges@[f].0 as int] && visited@[graph.edges@[f].1 as int] by {
                if i == head {
                    assert(touches(graph, f, u as int));
                }
            }
        }
        head = head + 1;
    }
    proof {
        if source != destination {
            let d = visited@;
            assert forall|f: int|
                0 <= f < graph.edges@.len() && availability@[f] implies (d[(#[trigger] graph.edges@[f]).0 as int] <==> d[graph.edges@[f].1 as int]) by {
                let (a, b) = graph.edges@[f];
                if d[a as int] {
                    assert(queue@.contains(a));
                    let j = choose|j: int| 0 <= j < queue@.len() && queue@[j] == a;
                    assert(touches(graph, f, queue@[j] as int));
                }
                if d[b as int] {
                    assert(queue@.contains(b));
                    let j = choose|j: int| 0 <= j < queue@.len() && queue@[j] == b;
                    assert(touches(graph, f, queue@[j] as int));
                }
            }
            assert(avail_closed(graph, availability@, d));
        }
    }
    false
}



pub proof fn lemma_unused_edge_both_arcs(g: &UnGraph, paths: Seq<Path>, res: &ResidualGraph, e: int)
    requires
        reverse_residual_of(g, paths, res),
        0 <= e < g.edges@.len(),
        !uses(paths, e),
    ensures
        res.forward@[e] && res.backward@[e],
{
}

/// `r1` and `r0` carry the same arcs on every edge outside `es`.
pub open spec fn same_off_path(r1: &ResidualGraph, r0: &ResidualGraph, es: Seq<usize>) -> bool {
    forall|e: int|
        0 <= e < r0.ends@.len() && !in_edges(es, e) ==> #[trigger] r1.forward@[e] == r0.forward@[e]
            && r1.backward@[e] == r0.backward@[e]
}

pub(crate) proof fn lemma_same_off_path(r1: &ResidualGraph, r0: &ResidualGraph, es: Seq<usize>, e: int)
    requires
        same_off_path(r1, r0, es),
        0 <= e < r0.ends@.len(),
        !in_edges(es, e),
    ensures
        r1.forward@[e] == r0.forward@[e] && r1.backward@[e] == r0.backward@[e],
{
}


/// Edge `e` occurs in the edge sequence `es`.
pub open spec fn in_edges(es: Seq<usize>, e: int) -> bool {
    exists|j: int| 0 <= j < es.len() && es[j] == e
}

/// The residual graph before any path is found: every edge of `graph` carries both arcs.
pub(crate) fn generate_initial_residual_graph(graph: &UnGraph) -> (r: ResidualGraph)
    requires
        graph.wf(),
    ensures
        r.wf(),
        r.node_count == graph.node_count,
        r.ends@ == graph.edges@,
        forall|e: int| 0 <= e < graph.edges@.len() ==> #[trigger] r.forward@[e] && r.backward@[e],
{
    let mut ends: Vec<(usize, usize)> = Vec::new();
    let mut i: usize = 0;
    while i < graph.edges.len()
        invariant
            i <= graph.edges@.len(),
            ends@ == graph.edges@.subrange(0, i as int),
        decreases graph.edges.len() - i,
    {
        ends.push(graph.edges[i]);
        proof {
            assert(ends@ =~= graph.edges@.subrange(0, i + 1));
        }
        i = i + 1;
    }
    proof {
        assert(ends@ =~= graph.edges@);
    }
    let forward = all_true(graph.edges.len());
    let backward = all_true(graph.edges.len());
    ResidualGraph { node_count: graph.node_count, ends, forward, backward }
}

/// A mask of `len` entries, all set.
#[verifier::spinoff_prover]
fn all_true(len: usize) -> (r: Vec<bool>)
    ensures
        r@.len() == len,
        forall|e: int| 0 <= e < len ==> #[trigger] r@[e],
{
    let mut r: Vec<bool> = Vec::new();
    while r.len() < len
        invariant
            r@.len() <= len,
            forall|e: int| 0 <= e < r@.len() ==> #[trigger] r@[e],
        decreases len - r.len(),
    {
        r.push(true);
    }
    r
}


/// Finds a maximum set of edge-disjoint augmenting paths from `source` to `destination`: flow is
/// pushed one unit at a time along breadth-first paths of the residual graph, where an edge that
/// already carries flow may be crossed against it, and the flow is then split into walks.
/// Returns the walks and the reverse residual graph, in which the destination does not reach
/// the source, or `None` when there are more than `k` walks (so that no cut of at most `k` edges
/// separates the two vertices).
pub fn get_augmenting_paths_and_residual_graph(
    graph: &UnGraph,
    source: usize,
    destination: usize,
    k: usize,
) -> (r: Option<(Vec<Path>, ResidualGraph)>)
    requires
        graph.wf(),
        source < graph.node_count,
        destination < graph.node_count,
    ensures
        match r {
            Some((paths, residual)) => {
                &&& paths@.len() <= k
                &&& disjoint_paths(graph, paths@, source as int, destination as int)
                &&& reverse_residual_of(graph, paths@, &residual)
                &&& (source == destination || source_unreached(&residual, source as int, destination as int))
                &&& (source == destination || exists|d: Seq<bool>| #[trigger] fwd_closed(&residual, d) && d[source as int] && !d[destination as int])
            },
            None => exists|ps: Seq<Path>|
                ps.len() > k && #[trigger] disjoint_paths(graph, ps, source as int, destination as int),
        },
{
    if source == destination {
        let residual = generate_initial_residual_graph(graph);
        let paths: Vec<Path> = Vec::new();
        proof {
            assert(disjoint_paths(graph, paths@, source as int, destination as int));
        }
        return Some((paths, residual));
    }
    let (paths, residual) = max_flow_paths(graph, source, destination);
    proof {
        let d = choose|d: Seq<bool>| #[trigger] fwd_closed(&residual, d) && d[source as int] && !d[destination as int];
        lemma_blocked_source_unreached(&residual, source as int, destination as int, d);
    }
    if paths.len() <= k {
        Some((paths, residual))
    } else {
        proof {
            assert(disjoint_paths(graph, paths@, source as int, destination as int));
        }
        None
    }
}


/// For each contracted vertex and each contracted edge, the original vertices and edges it
/// stands for.
pub struct IndexMapping {
    pub vertex_contracted_to_original: Vec<Vec<usize>>,
    pub edge_contracted_to_original: Vec<Vec<usize>>,
}

impl IndexMapping {
    pub open spec fn vertex_view(&self) -> Seq<Seq<usize>> {
        self.vertex_contracted_to_original@.map_values(|l: Vec<usize>| l@)
    }

    pub open spec fn edge_view(&self) -> Seq<Seq<usize>> {
        self.edge_contracted_to_original@.map_values(|l: Vec<usize>| l@)
    }

    /// The mapping that holds nothing yet.
    pub fn new() -> (r: Self)
        ensures
            r.vertex_view() == Seq::<Seq<usize>>::empty(),
            r.edge_view() == Seq::<Seq<usize>>::empty(),
    {
        let r = IndexMapping { vertex_contracted_to_original: Vec::new(), edge_contracted_to_original: Vec::new() };
        proof {
            assert(r.vertex_view() =~= Seq::<Seq<usize>>::empty());
            assert(r.edge_view() =~= Seq::<Seq<usize>>::empty());
        }
        r
    }

    /// The mapping given as one list of originals per contracted vertex and per contracted edge.
    pub fn from(vertex_contracted_to_original: Vec<Vec<usize>>, edge_contracted_to_original: Vec<Vec<usize>>) -> (r: Self)
        ensures
            r.vertex_contracted_to_original@ == vertex_contracted_to_original@,
            r.edge_contracted_to_original@ == edge_contracted_to_original@,
    {
        IndexMapping { vertex_contracted_to_original, edge_contracted_to_original }
    }

    /// Records that contracted vertex `contracted` stands for `original`. A contracted index
    /// one past the last opens a new list.
    pub fn add_vertex(&mut self, contracted: usize, original: usize)
        requires
            contracted <= old(self).vertex_view().len(),
        ensures
            final(self).edge_view() == old(self).edge_view(),
            final(self).vertex_view() == add_to(old(self).vertex_view(), contracted as int, original),
    {
        add_to_lists(&mut self.vertex_contracted_to_original, contracted, original);
    }

    /// Records that contracted edge `contracted` stands for `original`. A contracted index
    /// one past the last opens a new list.
    pub fn add_edge(&mut self, contracted: usize, original: usize)
        requires
            contracted <= old(self).edge_view().len(),
        ensures
            final(self).vertex_view() == old(self).vertex_view(),
            final(self).edge_view() == add_to(old(self).edge_view(), contracted as int, original),
    {
        add_to_lists(&mut self.edge_contracted_to_original, contracted, original);
    }
}

/// `lists` with `x` added to list `c` unless it is there already; `c == lists.len()` opens a
/// new list.
pub open spec fn add_to(lists: Seq<Seq<usize>>, c: int, x: usize) -> Seq<Seq<usize>> {
    if c == lists.len() {
        lists.push(seq![x])
    } else if lists[c].contains(x) {
        lists
    } else {
        lists.update(c, lists[c].push(x))
    }
}

/// Whether `x` occurs in `v`.
pub(crate) fn contains(v: &Vec<usize>, x: usize) -> (r: bool)
    ensures
        r == v@.contains(x),
{
    let mut i: usize = 0;
    while i < v.len()
        invariant
            i <= v@.len(),
            forall|j: int| 0 <= j < i ==> v@[j] != x,
        decreases v.len() - i,
    {
        if v[i] == x {
            return true;
        }
        i = i + 1;
    }
    false
}

fn add_to_lists(lists: &mut Vec<Vec<usize>>, c: usize, x: usize)
    requires
        c <= old(lists)@.len(),
    ensures
        final(lists)@.map_values(|l: Vec<usize>| l@) == add_to(old(lists)@.map_values(|l: Vec<usize>| l@), c as int, x),
{
    let ghost before = lists@.map_values(|l: Vec<usize>| l@);
    if c == lists.len() {
        let mut l: Vec<usize> = Vec::new();
        l.push(x);
        lists.push(l);
        proof {
            assert(lists@.map_values(|l: Vec<usize>| l@) =~= before.push(seq![x]));
        }
    } else if !contains(&lists[c], x) {
        lists[c].push(x);
        proof {
            assert(lists@.map_values(|l: Vec<usize>| l@) =~= before.update(c as int, before[c as int].push(x)));
        }
    } else {
        proof {
            assert(lists@.map_values(|l: Vec<usize>| l@) =~= before);
        }
    }
}


/// The vertex that `v` is merged into: the first source vertex for every source vertex, the
/// first destination vertex for every other destination vertex, and `v` itself otherwise.
pub open spec fn rep(src: Seq<usize>, dst: Seq<usize>, v: int) -> int {
    if src.contains(v as usize) {
        src[0] as int
    } else if dst.contains(v as usize) {
        dst[0] as int
    } else {
        v
    }
}

/// `cg` is `g` with the edges in use only, the source vertices merged into one vertex `ns`
/// and the destination vertices into one vertex `nt`; `cls[v]` is the contracted vertex of
/// original vertex `v`. `map` lists, for each contracted vertex, the original vertices it
/// stands for, and for each contracted edge the original edges it stands for. An edge whose
/// ends merge disappears; with `merge`, edges that become parallel are merged too, and
/// otherwise each contracted edge stands for exactly one original edge.
pub open spec fn contracted_by(
    g: &UnGraph,
    src: Seq<usize>,
    dst: Seq<usize>,
    in_use: Seq<bool>,
    cg: &UnGraph,
    ns: int,
    nt: int,
    map: &IndexMapping,
    merge: bool,
    cls: Seq<int>,
) -> bool {
    let vm = map.vertex_view();
    let em = map.edge_view();
    &&& cg.wf()
    &&& cls.len() == g.node_count
    &&& forall|v: int| 0 <= v < g.node_count ==> 0 <= #[trigger] cls[v] < cg.node_count
    &&& forall|v: int, w: int|
        0 <= v < g.node_count && 0 <= w < g.node_count ==> (#[trigger] cls[v] == #[trigger] cls[w]
            <==> rep(src, dst, v) == rep(src, dst, w))
    &&& ns == cls[src[0] as int]
    &&& nt == cls[dst[0] as int]
    &&& vm.len() == cg.node_count
    &&& forall|c: int, i: int|
        0 <= c < vm.len() && 0 <= i < vm[c].len() ==> #[trigger] vm[c][i] < g.node_count && cls[vm[c][i] as int] == c
    &&& forall|v: int| 0 <= v < g.node_count ==> #[trigger] vm[cls[v]].contains(v as usize)
    &&& forall|c: int| 0 <= c < vm.len() ==> increasing(#[trigger] vm[c])
    &&& em.len() == cg.edges@.len()
    &&& forall|c: int| 0 <= c < em.len() ==> increasing(#[trigger] em[c]) && em[c].len() > 0
    &&& forall|c: int, i: int|
        0 <= c < em.len() && 0 <= i < em[c].len() ==> {
            let f = #[trigger] em[c][i] as int;
            &&& 0 <= f < g.edges@.len()
            &&& in_use[f]
            &&& joins_pair(cg.edges@[c], cls[g.edges@[f].0 as int] as usize, cls[g.edges@[f].1 as int] as usize)
        }
    &&& forall|f: int|
        0 <= f < g.edges@.len() && in_use[f] && cls[(#[trigger] g.edges@[f]).0 as int] != cls[g.edges@[f].1 as int]
            ==> exists|c: int| 0 <= c < em.len() && #[trigger] em[c].contains(f as usize)
    &&& forall|c: int, d: int, i: int, j: int|
        0 <= c < em.len() && 0 <= d < em.len() && 0 <= i < em[c].len() && 0 <= j < em[d].len()
            && #[trigger] em[c][i] == #[trigger] em[d][j] ==> c == d
    &&& forall|c: int| 0 <= c < cg.edges@.len() ==> (#[trigger] cg.edges@[c]).0 != cg.edges@[c].1
    &&& !merge ==> forall|c: int| 0 <= c < em.len() ==> (#[trigger] em[c]).len() == 1
    &&& merge ==> forall|c: int, d: int| 0 <= c < d < cg.edges@.len() ==> !joins_pair(#[trigger] cg.edges@[c], (#[trigger] cg.edges@[d]).0, cg.edges@[d].1)
    &&& forall|c: int| 0 <= c < vm.len() ==> (#[trigger] vm[c]).len() > 0
    &&& first_seen_order(g, src, dst, in_use).len() == cg.node_count
    &&& forall|v: int| 0 <= v < g.node_count ==> first_seen_order(g, src, dst, in_use)[#[trigger] cls[v]] == rep(src, dst, v)
    &&& cg.edges@ == edges_met(contracted_pairs(g, src, dst, in_use, cls, g.edges@.len() as int), merge)
}

/// The membership mask over `0..n` of the vertices listed in `vs`.
fn membership(vs: &Vec<usize>, n: usize) -> (r: Vec<bool>)
    requires
        forall|i: int| 0 <= i < vs@.len() ==> #[trigger] vs@[i] < n,
    ensures
        r@.len() == n,
        forall|v: int| 0 <= v < n ==> #[trigger] r@[v] == vs@.contains(v as usize),
{
    let mut r: Vec<bool> = Vec::new();
    while r.len() < n
        invariant
            r@.len() <= n,
            forall|v: int| 0 <= v < r@.len() ==> !#[trigger] r@[v],
        decreases n - r.len(),
    {
        r.push(false);
    }
    let mut i: usize = 0;
    while i < vs.len()
        invariant
            r@.len() == n,
            i <= vs@.len(),
            forall|i: int| 0 <= i < vs@.len() ==> #[trigger] vs@[i] < n,
            forall|v: int| 0 <= v < n ==> #[trigger] r@[v] == vs@.subrange(0, i as int).contains(v as usize),
        decreases vs.len() - i,
    {
        let ghost old_r = r@;
        r.set(vs[i], true);
        proof {
            assert forall|v: int| 0 <= v < n implies #[trigger] r@[v] == vs@.subrange(0, i + 1).contains(v as usize) by {
                let pre = vs@.subrange(0, i as int);
                let post = vs@.subrange(0, i + 1);
                assert(post =~= pre.push(vs@[i as int]));
                if pre.contains(v as usize) {
                    let j = choose|j: int| 0 <= j < pre.len() && pre[j] == v as usize;
                    assert(post[j] == v as usize);
                }
                if post.contains(v as usize) && v != vs@[i as int] {
                    let j = choose|j: int| 0 <= j < post.len() && post[j] == v as usize;
                    assert(pre[j] == v as usize);
                }
                if v == vs@[i as int] {
                    assert(post[i as int] == v as usize);
                }
            }
        }
        i = i + 1;
    }
    proof {
        assert(vs@.subrange(0, vs@.len() as int) =~= vs@);
    }
    r
}

/// The pair `p` joins `a` and `b`, in either order.
pub open spec fn joins_pair(p: (usize, usize), a: usize, b: usize) -> bool {
    p == (a, b) || p == (b, a)
}

/// Position of a contracted edge joining `a` and `b`, in either order, if there is one.
fn position(edges: &Vec<(usize, usize)>, a: usize, b: usize) -> (r: Option<usize>)
    ensures
        r matches Some(c) ==> c < edges@.len() && joins_pair(edges@[c as int], a, b),
        r is None ==> forall|j: int| 0 <= j < edges@.len() ==> !joins_pair(#[trigger] edges@[j], a, b),
{
    let mut i: usize = 0;
    while i < edges.len()
        invariant
            i <= edges@.len(),
            forall|j: int| 0 <= j < i ==> !joins_pair(#[trigger] edges@[j], a, b),
        decreases edges.len() - i,
    {
        let (x, y) = edges[i];
        if (x == a && y == b) || (x == b && y == a) {
            return Some(i);
        }
        i = i + 1;
    }
    None
}


/// The vertices `v < n` whose entry in `idx` is set, as a mask.
pub open spec fn set_entries(idx: Seq<Option<usize>>) -> Seq<bool> {
    Seq::new(idx.len(), |r: int| idx[r] is Some)
}

/// `rep` computed from the membership masks of the two sets.
fn rep_of(ms: &Vec<bool>, mt: &Vec<bool>, s0: usize, t0: usize, v: usize, Ghost(src): Ghost<Seq<usize>>, Ghost(dst): Ghost<Seq<usize>>) -> (r: usize)
    requires
        v < ms@.len(),
        ms@.len() == mt@.len(),
        src.len() > 0,
        dst.len() > 0,
        s0 == src[0],
        t0 == dst[0],
        s0 < ms@.len(),
        t0 < ms@.len(),
        forall|w: int| 0 <= w < ms@.len() ==> #[trigger] ms@[w] == src.contains(w as usize),
        forall|w: int| 0 <= w < mt@.len() ==> #[trigger] mt@[w] == dst.contains(w as usize),
    ensures
        r == rep(src, dst, v as int),
        r < ms@.len(),
{
    if ms[v] {
        s0
    } else if mt[v] {
        t0
    } else {
        v
    }
}


/// The membership masks and first elements of the two vertex sets.
pub open spec fn masks_of(ms: &Vec<bool>, mt: &Vec<bool>, s0: usize, t0: usize, src: Seq<usize>, dst: Seq<usize>, n: nat) -> bool {
    &&& ms@.len() == n
    &&& mt@.len() == n
    &&& src.len() > 0
    &&& dst.len() > 0
    &&& s0 == src[0]
    &&& t0 == dst[0]
    &&& s0 < n
    &&& t0 < n
    &&& forall|w: int| 0 <= w < n ==> #[trigger] ms@[w] == src.contains(w as usize)
    &&& forall|w: int| 0 <= w < n ==> #[trigger] mt@[w] == dst.contains(w as usize)
}

/// The state of the contraction after its first `e` edges: `idx` numbers the merged vertices
/// met so far (`count` of them, one number each), and `new_edges` with the edge lists `em`
/// holds a contracted edge for every edge in use whose ends did not merge.
pub open spec fn edge_phase(
    graph: &UnGraph,
    src: Seq<usize>,
    dst: Seq<usize>,
    in_use: Seq<bool>,
    e: int,
    idx: Seq<Option<usize>>,
    count: usize,
    new_edges: Seq<(usize, usize)>,
    em: Seq<Seq<usize>>,
    merge: bool,
) -> bool {
    let n = graph.node_count;
    &&& idx.len() == n
    &&& count == count_true(set_entries(idx))
    &&& forall|r: int| 0 <= r < n && (#[trigger] idx[r]) is Some ==> idx[r]->0 < count
    &&& forall|r1: int, r2: int|
        0 <= r1 < n && 0 <= r2 < n && (#[trigger] idx[r1]) is Some && idx[r1] == #[trigger] idx[r2] ==> r1 == r2
    &&& forall|c: int| 0 <= c < new_edges.len() ==> (#[trigger] new_edges[c]).0 < count && new_edges[c].1 < count
        && new_edges[c].0 != new_edges[c].1
    &&& em.len() == new_edges.len()
    &&& forall|c: int| 0 <= c < em.len() ==> increasing(#[trigger] em[c]) && em[c].len() > 0
    &&& forall|c: int, i: int|
        0 <= c < em.len() && 0 <= i < em[c].len() ==> {
            let f = #[trigger] em[c][i] as int;
            &&& 0 <= f < e
            &&& in_use[f]
            &&& idx[rep(src, dst, graph.edges@[f].0 as int)] is Some
            &&& idx[rep(src, dst, graph.edges@[f].1 as int)] is Some
            &&& joins_pair(new_edges[c], idx[rep(src, dst, graph.edges@[f].0 as int)]->0, idx[rep(src, dst, graph.edges@[f].1 as int)]->0)
        }
    &&& forall|f: int|
        0 <= f < e && in_use[f] ==> idx[rep(src, dst, (#[trigger] graph.edges@[f]).0 as int)] is Some
            && idx[rep(src, dst, graph.edges@[f].1 as int)] is Some
    &&& forall|f: int|
        0 <= f < e && in_use[f] && rep(src, dst, (#[trigger] graph.edges@[f]).0 as int) != rep(src, dst, graph.edges@[f].1 as int)
            ==> exists|c: int| 0 <= c < em.len() && #[trigger] em[c].contains(f as usize)
    &&& forall|c: int, d: int, i: int, j: int|
        0 <= c < em.len() && 0 <= d < em.len() && 0 <= i < em[c].len()
            && 0 <= j < em[d].len() && #[trigger] em[c][i] == #[trigger] em[d][j] ==> c == d
    &&& !merge ==> forall|c: int| 0 <= c < em.len() ==> (#[trigger] em[c]).len() == 1
    &&& merge ==> forall|c: int, d: int| 0 <= c < d < new_edges.len() ==> !joins_pair(#[trigger] new_edges[c], (#[trigger] new_edges[d]).0, new_edges[d].1)
}

/// The merged vertices in the order the contraction meets them along the edges `0..e`: for
/// each edge in use, the smaller of its two merged ends, then the larger.
pub open spec fn met_by_edges(g: &UnGraph, src: Seq<usize>, dst: Seq<usize>, in_use: Seq<bool>, e: int) -> Seq<usize>
    decreases e,
{
    if e <= 0 {
        Seq::empty()
    } else {
        let prev = met_by_edges(g, src, dst, in_use, e - 1);
        if in_use[e - 1] {
            let a = rep(src, dst, g.edges@[e - 1].0 as int);
            let b = rep(src, dst, g.edges@[e - 1].1 as int);
            let lo = if a <= b { a } else { b };
            let hi = if a <= b { b } else { a };
            prev.push(lo as usize).push(hi as usize)
        } else {
            prev
        }
    }
}

/// The merged vertices of the vertices `0..v`, in order.
pub open spec fn met_by_vertices(src: Seq<usize>, dst: Seq<usize>, v: int) -> Seq<usize>
    decreases v,
{
    if v <= 0 {
        Seq::empty()
    } else {
        met_by_vertices(src, dst, v - 1).push(rep(src, dst, v - 1) as usize)
    }
}

/// The merged vertices in first-seen order: first along the edges in use, then along the
/// vertices; the contracted vertex `c` is the `c`-th of them.
pub open spec fn first_seen_order(g: &UnGraph, src: Seq<usize>, dst: Seq<usize>, in_use: Seq<bool>) -> Seq<usize> {
    crate::cut::dedup_first(met_by_edges(g, src, dst, in_use, g.edges@.len() as int) + met_by_vertices(src, dst, g.node_count as int))
}

/// The contracted edges met along the edges `0..e`: for each edge in use whose merged ends
/// differ, the numbers of its two ends in `idx`, in the edge's own orientation.
pub open spec fn pairs_met(g: &UnGraph, src: Seq<usize>, dst: Seq<usize>, in_use: Seq<bool>, idx: Seq<Option<usize>>, e: int) -> Seq<(usize, usize)>
    decreases e,
{
    if e <= 0 {
        Seq::empty()
    } else {
        let prev = pairs_met(g, src, dst, in_use, idx, e - 1);
        let a = rep(src, dst, g.edges@[e - 1].0 as int);
        let b = rep(src, dst, g.edges@[e - 1].1 as int);
        if in_use[e - 1] && a != b {
            prev.push((idx[a]->0, idx[b]->0))
        } else {
            prev
        }
    }
}

/// The contracted edges met along the edges `0..e`, as numbered by `cls`: for each edge in use
/// whose merged ends differ, the contracted vertices of its ends, in the edge's own orientation.
pub open spec fn contracted_pairs(g: &UnGraph, src: Seq<usize>, dst: Seq<usize>, in_use: Seq<bool>, cls: Seq<int>, e: int) -> Seq<(usize, usize)>
    decreases e,
{
    if e <= 0 {
        Seq::empty()
    } else {
        let prev = contracted_pairs(g, src, dst, in_use, cls, e - 1);
        let u = g.edges@[e - 1].0 as int;
        let v = g.edges@[e - 1].1 as int;
        if in_use[e - 1] && rep(src, dst, u) != rep(src, dst, v) {
            prev.push((cls[u] as usize, cls[v] as usize))
        } else {
            prev
        }
    }
}

proof fn lemma_pairs_as_classes(
    g: &UnGraph,
    src: Seq<usize>,
    dst: Seq<usize>,
    in_use: Seq<bool>,
    idx: Seq<Option<usize>>,
    cls: Seq<int>,
    e: int,
)
    requires
        g.wf(),
        0 <= e <= g.edges@.len(),
        forall|w: int| 0 <= w < g.node_count ==> #[trigger] cls[w] == idx[rep(src, dst, w)]->0 as int,
    ensures
        pairs_met(g, src, dst, in_use, idx, e) == contracted_pairs(g, src, dst, in_use, cls, e),
    decreases e,
{
    if e > 0 {
        lemma_pairs_as_classes(g, src, dst, in_use, idx, cls, e - 1);
        let u = g.edges@[e - 1].0 as int;
        let v = g.edges@[e - 1].1 as int;
        assert(cls[u] == idx[rep(src, dst, u)]->0 as int);
        assert(cls[v] == idx[rep(src, dst, v)]->0 as int);
    }
}

/// `s` with every pair that joins the same two vertices as an earlier one left out.
pub open spec fn dedup_pairs(s: Seq<(usize, usize)>) -> Seq<(usize, usize)>
    decreases s.len(),
{
    if s.len() == 0 {
        Seq::empty()
    } else {
        let rest = dedup_pairs(s.drop_last());
        if exists|i: int| 0 <= i < rest.len() && joins_pair(#[trigger] rest[i], s.last().0, s.last().1) {
            rest
        } else {
            rest.push(s.last())
        }
    }
}

/// The contracted edges in the order they are met: with `merge`, each pair of contracted
/// vertices once, in the orientation first met.
pub open spec fn edges_met(pairs: Seq<(usize, usize)>, merge: bool) -> Seq<(usize, usize)> {
    if merge {
        dedup_pairs(pairs)
    } else {
        pairs
    }
}

/// Numbering more merged vertices leaves the pairs met along edges whose ends were numbered
/// already as they were.
proof fn lemma_pairs_met_stable(
    g: &UnGraph,
    src: Seq<usize>,
    dst: Seq<usize>,
    in_use: Seq<bool>,
    idx0: Seq<Option<usize>>,
    idx1: Seq<Option<usize>>,
    e: int,
)
    requires
        0 <= e <= g.edges@.len(),
        idx0.len() == idx1.len(),
        forall|r: int| 0 <= r < idx0.len() && (#[trigger] idx0[r]) is Some ==> idx1[r] == idx0[r],
        forall|f: int| 0 <= f < e && in_use[f] ==> 0 <= rep(src, dst, (#[trigger] g.edges@[f]).0 as int) < idx0.len()
            && 0 <= rep(src, dst, g.edges@[f].1 as int) < idx0.len() && idx0[rep(src, dst, g.edges@[f].0 as int)] is Some
            && idx0[rep(src, dst, g.edges@[f].1 as int)] is Some,
    ensures
        pairs_met(g, src, dst, in_use, idx1, e) == pairs_met(g, src, dst, in_use, idx0, e),
    decreases e,
{
    if e > 0 {
        lemma_pairs_met_stable(g, src, dst, in_use, idx0, idx1, e - 1);
        if in_use[e - 1] {
            assert(g.edges@[e - 1] == g.edges@[e - 1]);
        }
    }
}

/// The numbers in `idx` are the positions of the merged vertices in `order`.
pub open spec fn numbered_by(idx: Seq<Option<usize>>, count: usize, order: Seq<usize>) -> bool {
    &&& order.len() == count
    &&& forall|i: int| 0 <= i < order.len() ==> #[trigger] order[i] < idx.len()
    &&& forall|r: int| 0 <= r < idx.len() ==> ((#[trigger] idx[r]) is Some <==> order.contains(r as usize))
    &&& forall|r: int| 0 <= r < idx.len() && (#[trigger] idx[r]) is Some ==> idx[r]->0 < order.len() && order[idx[r]->0 as int] == r
}

/// Numbering `r` when it is met keeps `idx` the first-seen numbering.
proof fn lemma_numbered_push(
    idx0: Seq<Option<usize>>,
    count0: usize,
    idx1: Seq<Option<usize>>,
    count1: usize,
    seen: Seq<usize>,
    r: usize,
)
    requires
        numbered_by(idx0, count0, crate::cut::dedup_first(seen)),
        r < idx0.len(),
        idx0.len() <= usize::MAX,
        idx0[r as int] is Some ==> idx1 == idx0 && count1 == count0,
        idx0[r as int] is None ==> idx1 == idx0.update(r as int, Some(count0)) && count1 == count0 + 1,
    ensures
        numbered_by(idx1, count1, crate::cut::dedup_first(seen.push(r))),
{
    let o0 = crate::cut::dedup_first(seen);
    assert(seen.push(r).drop_last() =~= seen);
    assert(seen.push(r).last() == r);
    let o1 = crate::cut::dedup_first(seen.push(r));
    if idx0[r as int] is Some {
        assert(o0.contains(r));
        assert(o1 == o0);
    } else {
        assert(!o0.contains(r));
        assert(o1 == o0.push(r));
        assert forall|x: int| 0 <= x < idx1.len() implies ((#[trigger] idx1[x]) is Some <==> o1.contains(x as usize)) by {
            if x == r {
                assert(o1[o0.len() as int] == r);
            } else {
                if o1.contains(x as usize) {
                    let j = choose|j: int| 0 <= j < o1.len() && o1[j] == x as usize;
                    assert((x as usize) as int == x);
                    assert(j < o0.len());
                    assert(o0[j] == x as usize);
                }
                if o0.contains(x as usize) {
                    let j = choose|j: int| 0 <= j < o0.len() && o0[j] == x as usize;
                    assert(o1[j] == x as usize);
                }
            }
        }
        assert forall|x: int| 0 <= x < idx1.len() && (#[trigger] idx1[x]) is Some implies idx1[x]->0 < o1.len() && o1[idx1[x]->0 as int] == x by {
            if x != r {
                assert(idx0[x] is Some);
            }
        }
        assert forall|i: int| 0 <= i < o1.len() implies #[trigger] o1[i] < idx1.len() by {
            if i < o0.len() {
                assert(o1[i] == o0[i]);
            }
        }
    }
}

/// `r` is the merged vertex of some vertex below `n`.
pub open spec fn is_rep(src: Seq<usize>, dst: Seq<usize>, n: nat, r: int) -> bool {
    exists|u: int| 0 <= u < n && rep(src, dst, u) == r
}

/// Some merged vertex has number `c`.
pub open spec fn numbered(idx: Seq<Option<usize>>, c: int) -> bool {
    exists|r: int| 0 <= r < idx.len() && idx[r] == Some(c as usize)
}

/// Only merged vertices get numbers, and the numbers below `count` are all given.
pub open spec fn well_numbered(src: Seq<usize>, dst: Seq<usize>, n: nat, idx: Seq<Option<usize>>, count: usize) -> bool {
    &&& forall|r: int| 0 <= r < n && (#[trigger] idx[r]) is Some ==> is_rep(src, dst, n, r)
    &&& forall|c: int| 0 <= c < count ==> #[trigger] numbered(idx, c)
}

/// An edge not in use leaves the contraction as it is.
proof fn lemma_phase_skip(
    graph: &UnGraph,
    src: Seq<usize>,
    dst: Seq<usize>,
    in_use: Seq<bool>,
    e: int,
    idx: Seq<Option<usize>>,
    count: usize,
    ne: Seq<(usize, usize)>,
    em: Seq<Seq<usize>>,
    merge: bool,
)
    requires
        edge_phase(graph, src, dst, in_use, e, idx, count, ne, em, merge),
        0 <= e < in_use.len(),
        !in_use[e],
    ensures
        edge_phase(graph, src, dst, in_use, e + 1, idx, count, ne, em, merge),
{
    assert forall|c: int, i: int| 0 <= c < em.len() && 0 <= i < em[c].len() implies (#[trigger] em[c][i]) != e by {
        assert(in_use[em[c][i] as int]);
    }
}

/// An edge in use whose ends merge, once those are numbered, leaves the contraction as it is.
proof fn lemma_phase_merged_ends(
    graph: &UnGraph,
    src: Seq<usize>,
    dst: Seq<usize>,
    in_use: Seq<bool>,
    e: int,
    idx: Seq<Option<usize>>,
    count: usize,
    ne: Seq<(usize, usize)>,
    em: Seq<Seq<usize>>,
    merge: bool,
)
    requires
        edge_phase(graph, src, dst, in_use, e, idx, count, ne, em, merge),
        0 <= e < graph.edges@.len(),
        idx[rep(src, dst, graph.edges@[e].0 as int)] is Some,
        idx[rep(src, dst, graph.edges@[e].1 as int)] is Some,
        rep(src, dst, graph.edges@[e].0 as int) == rep(src, dst, graph.edges@[e].1 as int),
    ensures
        edge_phase(graph, src, dst, in_use, e + 1, idx, count, ne, em, merge),
{
    assert forall|c: int, i: int| 0 <= c < em.len() && 0 <= i < em[c].len() implies (#[trigger] em[c][i]) < e + 1 by {}
}

/// Gives merged vertex `r` the next number unless it has one.
fn number_vertex(
    graph: &UnGraph,
    idx: &mut Vec<Option<usize>>,
    count: &mut usize,
    r: usize,
    Ghost(src): Ghost<Seq<usize>>,
    Ghost(dst): Ghost<Seq<usize>>,
    Ghost(in_use): Ghost<Seq<bool>>,
    Ghost(e): Ghost<int>,
    Ghost(ne): Ghost<Seq<(usize, usize)>>,
    Ghost(em): Ghost<Seq<Seq<usize>>>,
    Ghost(merge): Ghost<bool>,
    Ghost(seen): Ghost<Seq<usize>>,
)
    requires
        graph.wf(),
        valid_sets(graph, src, dst, in_use),
        numbered_by(old(idx)@, *old(count), crate::cut::dedup_first(seen)),
        0 <= e <= graph.edges@.len(),
        edge_phase(graph, src, dst, in_use, e, old(idx)@, *old(count), ne, em, merge),
        r < graph.node_count,
        well_numbered(src, dst, graph.node_count as nat, old(idx)@, *old(count)),
        is_rep(src, dst, graph.node_count as nat, r as int),
    ensures
        numbered_by(final(idx)@, *final(count), crate::cut::dedup_first(seen.push(r))),
        well_numbered(src, dst, graph.node_count as nat, final(idx)@, *final(count)),
        edge_phase(graph, src, dst, in_use, e, final(idx)@, *final(count), ne, em, merge),
        final(idx)@[r as int] is Some,
        forall|x: int| 0 <= x < graph.node_count && (#[trigger] old(idx)@[x]) is Some ==> final(idx)@[x] == old(idx)@[x],
{
    let ghost idx0 = idx@;
    let ghost count0 = *count;
    if idx[r].is_none() {
        proof {
            lemma_count_true_set(set_entries(idx@), r as int);
            lemma_count_true_bound(set_entries(idx@).update(r as int, true));
            assert(set_entries(idx@.update(r as int, Some(*count))) =~= set_entries(idx@).update(r as int, true));
        }
        idx.set(r, Some(*count));
        *count = *count + 1;
        proof {
            let n = graph.node_count;
            assert forall|x: int| 0 <= x < n && (#[trigger] idx@[x]) is Some implies is_rep(src, dst, n as nat, x) by {
                if x != r {
                    assert(idx0[x] is Some);
                }
            }
            assert forall|c: int| 0 <= c < *count implies #[trigger] numbered(idx@, c) by {
                if c < count0 {
                    assert(numbered(idx0, c));
                    let x = choose|x: int| 0 <= x < idx0.len() && idx0[x] == Some(c as usize);
                    assert(x != r);
                    assert(idx@[x] == Some(c as usize));
                } else {
                    assert(idx@[r as int] == Some(c as usize));
                }
            }
            assert forall|x: int| 0 <= x < n && (#[trigger] idx0[x]) is Some implies idx@[x] == idx0[x] by {}
            assert forall|r1: int, r2: int|
                0 <= r1 < n && 0 <= r2 < n && (#[trigger] idx@[r1]) is Some && idx@[r1] == #[trigger] idx@[r2] implies r1 == r2 by {
                if r1 != r && r2 != r {
                    assert(idx0[r1] == idx0[r2]);
                } else if r1 == r && r2 != r {
                    assert(idx0[r2]->0 < count0);
                } else if r2 == r && r1 != r {
                    assert(idx0[r1]->0 < count0);
                }
            }
            assert forall|c: int, i: int|
                0 <= c < em.len() && 0 <= i < em[c].len() implies {
                    let f = #[trigger] em[c][i] as int;
                    &&& idx@[rep(src, dst, graph.edges@[f].0 as int)] is Some
                    &&& idx@[rep(src, dst, graph.edges@[f].1 as int)] is Some
                    &&& joins_pair(ne[c], idx@[rep(src, dst, graph.edges@[f].0 as int)]->0, idx@[rep(src, dst, graph.edges@[f].1 as int)]->0)
                } by {
                let f = em[c][i] as int;
                let x = rep(src, dst, graph.edges@[f].0 as int);
                let y = rep(src, dst, graph.edges@[f].1 as int);
                assert(idx0[x] is Some);
                assert(idx0[y] is Some);
                assert(0 <= x < n && 0 <= y < n) by {
                    assert(graph.edges@[f].0 < n && graph.edges@[f].1 < n);
                    assert(src[0] < n && dst[0] < n);
                }
                assert(idx@[x] == idx0[x]);
                assert(idx@[y] == idx0[y]);
            }
            assert forall|f: int|
                0 <= f < e && in_use[f] implies idx@[rep(src, dst, (#[trigger] graph.edges@[f]).0 as int)] is Some
                    && idx@[rep(src, dst, graph.edges@[f].1 as int)] is Some by {
                let x = rep(src, dst, graph.edges@[f].0 as int);
                let y = rep(src, dst, graph.edges@[f].1 as int);
                assert(idx0[x] is Some);
                assert(idx0[y] is Some);
                assert(0 <= x < n && 0 <= y < n) by {
                    assert(graph.edges@[f].0 < n && graph.edges@[f].1 < n);
                    assert(src[0] < n && dst[0] < n);
                }
                assert(idx@[x] == idx0[x]);
                assert(idx@[y] == idx0[y]);
            }
        }
    }
    proof {
        assert(idx0.len() == graph.node_count);
        lemma_numbered_push(idx0, count0, idx@, *count, seen, r);
    }
}

/// Adds edge `e`, whose ends are the distinct contracted vertices `ca` and `cb`, to a contracted
/// edge: with `merge` to the one already joining them if there is one, else to a new one.
#[verifier::spinoff_prover]
fn add_contracted_edge(
    graph: &UnGraph,
    e: usize,
    ca: usize,
    cb: usize,
    merge: bool,
    new_edges: &mut Vec<(usize, usize)>,
    mapping: &mut IndexMapping,
    Ghost(src): Ghost<Seq<usize>>,
    Ghost(dst): Ghost<Seq<usize>>,
    Ghost(in_use): Ghost<Seq<bool>>,
    Ghost(idx): Ghost<Seq<Option<usize>>>,
    Ghost(count): Ghost<usize>,
)
    requires
        edge_phase(graph, src, dst, in_use, e as int, idx, count, old(new_edges)@, old(mapping).edge_view(), merge),
        e < graph.edges@.len(),
        in_use[e as int],
        idx[rep(src, dst, graph.edges@[e as int].0 as int)] == Some(ca),
        idx[rep(src, dst, graph.edges@[e as int].1 as int)] == Some(cb),
        ca != cb,
        ca < count,
        cb < count,
    ensures
        edge_phase(graph, src, dst, in_use, e + 1, idx, count, final(new_edges)@, final(mapping).edge_view(), merge),
        final(mapping).vertex_view() == old(mapping).vertex_view(),
        merge && (exists|i: int| 0 <= i < old(new_edges)@.len() && joins_pair(#[trigger] old(new_edges)@[i], ca, cb))
            ==> final(new_edges)@ == old(new_edges)@,
        !(merge && (exists|i: int| 0 <= i < old(new_edges)@.len() && joins_pair(#[trigger] old(new_edges)@[i], ca, cb)))
            ==> final(new_edges)@ == old(new_edges)@.push((ca, cb)),
{
    let ghost em0 = mapping.edge_view();
    let ghost ne0 = new_edges@;
    let found = if merge {
        position(&new_edges, ca, cb)
    } else {
        None
    };
    let c = match found {
        Some(c) => c,
        None => {
            new_edges.push((ca, cb));
            new_edges.len() - 1
        },
    };
    proof {
        if let Some(c1) = found {
            assert(joins_pair(ne0[c1 as int], ca, cb));
        }
        assert forall|c2: int, i: int| 0 <= c2 < em0.len() && 0 <= i < em0[c2].len() implies #[trigger] em0[c2][i] < e by {}
        if c < em0.len() {
            assert(!em0[c as int].contains(e)) by {
                if em0[c as int].contains(e) {
                    let i = choose|i: int| 0 <= i < em0[c as int].len() && em0[c as int][i] == e;
                    assert(em0[c as int][i] < e);
                }
            }
        }
    }
    mapping.add_edge(c, e);
    proof {
        let em = mapping.edge_view();
        assert(em.len() == new_edges@.len());
        assert forall|c2: int| 0 <= c2 < new_edges@.len() implies (#[trigger] new_edges@[c2]).0 < count && new_edges@[c2].1 < count
            && new_edges@[c2].0 != new_edges@[c2].1 by {
            if c2 < ne0.len() {
                assert(new_edges@[c2] == ne0[c2]);
            }
        }
        assert forall|c2: int| 0 <= c2 < em.len() implies increasing(#[trigger] em[c2]) && em[c2].len() > 0 by {
            if c2 == c {
                if c < em0.len() {
                    assert(em[c2] == em0[c2].push(e));
                    assert forall|i: int, j: int| 0 <= i < j < em[c2].len() implies #[trigger] em[c2][i] < #[trigger] em[c2][j] by {
                        if j == em[c2].len() - 1 {
                            assert(em0[c2][i] < e);
                        } else {
                            assert(em0[c2][i] < em0[c2][j]);
                        }
                    }
                } else {
                    assert(em[c2] == seq![e]);
                }
            } else {
                assert(em[c2] == em0[c2]);
            }
        }
        assert forall|c2: int, i: int|
            0 <= c2 < em.len() && 0 <= i < em[c2].len() implies {
                let f = #[trigger] em[c2][i] as int;
                &&& 0 <= f < e + 1
                &&& in_use[f]
                &&& idx[rep(src, dst, graph.edges@[f].0 as int)] is Some
                &&& idx[rep(src, dst, graph.edges@[f].1 as int)] is Some
                &&& joins_pair(new_edges@[c2], idx[rep(src, dst, graph.edges@[f].0 as int)]->0, idx[rep(src, dst, graph.edges@[f].1 as int)]->0)
            } by {
            if c2 == c && (c >= em0.len() || i == em0[c2].len()) {
                assert(em[c2][i] == e);
            } else {
                assert(em[c2][i] == em0[c2][i]);
                assert(new_edges@[c2] == ne0[c2]);
            }
        }
        assert forall|f: int|
            0 <= f < e + 1 && in_use[f] && rep(src, dst, (#[trigger] graph.edges@[f]).0 as int) != rep(src, dst, graph.edges@[f].1 as int)
                implies exists|c2: int| 0 <= c2 < em.len() && #[trigger] em[c2].contains(f as usize) by {
            if f < e {
                let c2 = choose|c2: int| 0 <= c2 < em0.len() && #[trigger] em0[c2].contains(f as usize);
                let i = choose|i: int| 0 <= i < em0[c2].len() && em0[c2][i] == f as usize;
                assert(em[c2][i] == f as usize);
                assert(em[c2].contains(f as usize));
            } else {
                assert(em[c as int][em[c as int].len() - 1] == e);
                assert(em[c as int].contains(f as usize));
            }
        }
        assert forall|f: int|
            0 <= f < e + 1 && in_use[f] implies idx[rep(src, dst, (#[trigger] graph.edges@[f]).0 as int)] is Some
                && idx[rep(src, dst, graph.edges@[f].1 as int)] is Some by {}
        assert forall|c2: int, d: int, i: int, j: int|
            0 <= c2 < em.len() && 0 <= d < em.len() && 0 <= i < em[c2].len()
                && 0 <= j < em[d].len() && #[trigger] em[c2][i] == #[trigger] em[d][j] implies c2 == d by {
            let x_new = c2 == c && (c >= em0.len() || i == em0[c2].len());
            let y_new = d == c && (c >= em0.len() || j == em0[d].len());
            if !x_new {
                assert(em[c2][i] == em0[c2][i]);
                assert(em0[c2][i] < e);
            }
            if !y_new {
                assert(em[d][j] == em0[d][j]);
                assert(em0[d][j] < e);
            }
            if !x_new && !y_new {
                assert(em0[c2][i] == em0[d][j]);
            }
        }
        if merge {
            assert forall|c2: int, d: int| 0 <= c2 < d < new_edges@.len() implies !joins_pair(#[trigger] new_edges@[c2], (#[trigger] new_edges@[d]).0, new_edges@[d].1) by {
                if d < ne0.len() {
                    assert(new_edges@[c2] == ne0[c2] && new_edges@[d] == ne0[d]);
                } else {
                    assert(found is None);
                    assert(new_edges@[d] == (ca, cb));
                    assert(new_edges@[c2] == ne0[c2]);
                    assert(!joins_pair(ne0[c2], ca, cb));
                }
            }
        }
        if !merge {
            assert(found is None);
            assert forall|c2: int| 0 <= c2 < em.len() implies (#[trigger] em[c2]).len() == 1 by {
                if c2 == c {
                    assert(em[c2] == seq![e]);
                } else {
                    assert(em[c2] == em0[c2]);
                }
            }
        }
    }
}

/// Contracts edge `e` where it is in use: numbers the merged ends it meets for the first time
/// and, where they differ, adds it to a contracted edge.
fn contract_edge(
    graph: &UnGraph,
    ms: &Vec<bool>,
    mt: &Vec<bool>,
    s0: usize,
    t0: usize,
    edges_in_use: &Vec<bool>,
    e: usize,
    merge: bool,
    idx: &mut Vec<Option<usize>>,
    count: &mut usize,
    new_edges: &mut Vec<(usize, usize)>,
    mapping: &mut IndexMapping,
    Ghost(src): Ghost<Seq<usize>>,
    Ghost(dst): Ghost<Seq<usize>>,
)
    requires
        graph.wf(),
        valid_sets(graph, src, dst, edges_in_use@),
        masks_of(ms, mt, s0, t0, src, dst, graph.node_count as nat),
        e < graph.edges@.len(),
        edge_phase(graph, src, dst, edges_in_use@, e as int, old(idx)@, *old(count), old(new_edges)@, old(mapping).edge_view(), merge),
        well_numbered(src, dst, graph.node_count as nat, old(idx)@, *old(count)),
        numbered_by(old(idx)@, *old(count), crate::cut::dedup_first(met_by_edges(graph, src, dst, edges_in_use@, e as int))),
        old(new_edges)@ == edges_met(pairs_met(graph, src, dst, edges_in_use@, old(idx)@, e as int), merge),
    ensures
        final(new_edges)@ == edges_met(pairs_met(graph, src, dst, edges_in_use@, final(idx)@, e + 1), merge),
        edge_phase(graph, src, dst, edges_in_use@, e + 1, final(idx)@, *final(count), final(new_edges)@, final(mapping).edge_view(), merge),
        well_numbered(src, dst, graph.node_count as nat, final(idx)@, *final(count)),
        numbered_by(final(idx)@, *final(count), crate::cut::dedup_first(met_by_edges(graph, src, dst, edges_in_use@, e + 1))),
        final(mapping).vertex_view() == old(mapping).vertex_view(),
{
    let ghost in_use = edges_in_use@;
    if !edges_in_use[e] {
        proof {
            lemma_phase_skip(graph, src, dst, in_use, e as int, idx@, *count, new_edges@, mapping.edge_view(), merge);
            assert(met_by_edges(graph, src, dst, in_use, e + 1) == met_by_edges(graph, src, dst, in_use, e as int));
            assert(pairs_met(graph, src, dst, in_use, idx@, e + 1) == pairs_met(graph, src, dst, in_use, idx@, e as int));
        }
        return;
    }
    let (u, v) = graph.edges[e];
    let a = rep_of(ms, mt, s0, t0, u, Ghost(src), Ghost(dst));
    let b = rep_of(ms, mt, s0, t0, v, Ghost(src), Ghost(dst));
    let lo = if a <= b { a } else { b };
    let hi = if a <= b { b } else { a };
    proof {
        assert(rep(src, dst, u as int) == a);
        assert(rep(src, dst, v as int) == b);
        assert(is_rep(src, dst, graph.node_count as nat, a as int));
        assert(is_rep(src, dst, graph.node_count as nat, b as int));
    }
    let ghost idx_before = idx@;
    let ghost met = met_by_edges(graph, src, dst, in_use, e as int);
    number_vertex(graph, idx, count, lo, Ghost(src), Ghost(dst), Ghost(in_use), Ghost(e as int), Ghost(new_edges@), Ghost(mapping.edge_view()), Ghost(merge), Ghost(met));
    number_vertex(graph, idx, count, hi, Ghost(src), Ghost(dst), Ghost(in_use), Ghost(e as int), Ghost(new_edges@), Ghost(mapping.edge_view()), Ghost(merge), Ghost(met.push(lo)));
    proof {
        assert(met_by_edges(graph, src, dst, in_use, e + 1) == met.push(lo).push(hi));
        let n = graph.node_count;
        assert forall|f: int| 0 <= f < e && in_use[f] implies 0 <= rep(src, dst, (#[trigger] graph.edges@[f]).0 as int) < idx_before.len()
            && 0 <= rep(src, dst, graph.edges@[f].1 as int) < idx_before.len() && idx_before[rep(src, dst, graph.edges@[f].0 as int)] is Some
            && idx_before[rep(src, dst, graph.edges@[f].1 as int)] is Some by {
            assert(graph.edges@[f].0 < n && graph.edges@[f].1 < n);
            assert(src[0] < n && dst[0] < n);
        }
        lemma_pairs_met_stable(graph, src, dst, in_use, idx_before, idx@, e as int);
    }
    let ca = idx[a].unwrap();
    let cb = idx[b].unwrap();
    let ghost pm = pairs_met(graph, src, dst, in_use, idx@, e as int);
    proof {
        if a != b {
            assert(pairs_met(graph, src, dst, in_use, idx@, e + 1) == pm.push((ca, cb)));
            assert(pm.push((ca, cb)).drop_last() =~= pm);
        } else {
            assert(pairs_met(graph, src, dst, in_use, idx@, e + 1) == pm);
        }
    }
    if a != b {
        add_contracted_edge(graph, e, ca, cb, merge, new_edges, mapping, Ghost(src), Ghost(dst), Ghost(in_use), Ghost(idx@), Ghost(*count));
    } else {
        proof {
            lemma_phase_merged_ends(graph, src, dst, in_use, e as int, idx@, *count, new_edges@, mapping.edge_view(), merge);
        }
    }
}

/// The sets are non-empty, name vertices of `g` only, and `in_use` has one entry per edge.
pub open spec fn valid_sets(g: &UnGraph, src: Seq<usize>, dst: Seq<usize>, in_use: Seq<bool>) -> bool {
    &&& src.len() > 0
    &&& dst.len() > 0
    &&& forall|i: int| 0 <= i < src.len() ==> #[trigger] src[i] < g.node_count
    &&& forall|i: int| 0 <= i < dst.len() ==> #[trigger] dst[i] < g.node_count
    &&& in_use.len() == g.edges@.len()
}

#[verifier::rlimit(100)]
#[verifier::spinoff_prover]
fn contract(
    graph: &UnGraph,
    source_set: &Vec<usize>,
    destination_set: &Vec<usize>,
    edges_in_use: &Vec<bool>,
    merge: bool,
) -> (r: (UnGraph, usize, usize, IndexMapping))
    requires
        graph.wf(),
        valid_sets(graph, source_set@, destination_set@, edges_in_use@),
    ensures
        exists|cls: Seq<int>|
            contracted_by(
                graph,
                source_set@,
                destination_set@,
                edges_in_use@,
                &r.0,
                r.1 as int,
                r.2 as int,
                &r.3,
                merge,
                cls,
            ),
{
    let ghost src = source_set@;
    let ghost dst = destination_set@;
    let ghost in_use = edges_in_use@;
    let n = graph.node_count;
    let m = graph.edges.len();
    let ms = membership(source_set, n);
    let mt = membership(destination_set, n);
    let s0 = source_set[0];
    let t0 = destination_set[0];
    let mut idx: Vec<Option<usize>> = Vec::new();
    while idx.len() < n
        invariant
            idx@.len() <= n,
            forall|r: int| 0 <= r < idx@.len() ==> #[trigger] idx@[r] is None,
        decreases n - idx.len(),
    {
        idx.push(None);
    }
    let mut count: usize = 0;
    proof {
        assert forall|r: int| 0 <= r < n implies !#[trigger] set_entries(idx@)[r] by {}
        crate::graph::lemma_count_zero(set_entries(idx@));
    }
    let mut new_edges: Vec<(usize, usize)> = Vec::new();
    let mut mapping = IndexMapping::new();
    proof {
        assert(edge_phase(graph, src, dst, in_use, 0, idx@, count, new_edges@, mapping.edge_view(), merge));
        assert(crate::cut::dedup_first(met_by_edges(graph, src, dst, in_use, 0)) =~= Seq::<usize>::empty());
        assert(numbered_by(idx@, count, crate::cut::dedup_first(met_by_edges(graph, src, dst, in_use, 0))));
        assert(new_edges@ =~= edges_met(pairs_met(graph, src, dst, in_use, idx@, 0), merge));
    }
    let mut e: usize = 0;
    while e < m
        invariant
            graph.wf(),
            n == graph.node_count,
            m == graph.edges@.len(),
            valid_sets(graph, src, dst, in_use),
            src == source_set@,
            dst == destination_set@,
            in_use == edges_in_use@,
            masks_of(&ms, &mt, s0, t0, src, dst, n as nat),
            e <= m,
            mapping.vertex_view() == Seq::<Seq<usize>>::empty(),
            edge_phase(graph, src, dst, in_use, e as int, idx@, count, new_edges@, mapping.edge_view(), merge),
            well_numbered(src, dst, n as nat, idx@, count),
            numbered_by(idx@, count, crate::cut::dedup_first(met_by_edges(graph, src, dst, in_use, e as int))),
            new_edges@ == edges_met(pairs_met(graph, src, dst, in_use, idx@, e as int), merge),
        decreases m - e,
    {
        contract_edge(graph, &ms, &mt, s0, t0, edges_in_use, e, merge, &mut idx, &mut count, &mut new_edges, &mut mapping, Ghost(src), Ghost(dst));
        e = e + 1;
    }
    let ghost idx_e = idx@;
    let ghost count_e = count;
    let ghost ne_e = new_edges@;
    let ghost em_e = mapping.edge_view();
    while mapping.vertex_contracted_to_original.len() < count
        invariant
            mapping.vertex_contracted_to_original@.len() <= count,
            mapping.edge_view() == em_e,
            forall|c: int| 0 <= c < mapping.vertex_view().len() ==> (#[trigger] mapping.vertex_view()[c]).len() == 0,
        decreases count - mapping.vertex_contracted_to_original.len(),
    {
        let ghost vm0 = mapping.vertex_view();
        mapping.vertex_contracted_to_original.push(Vec::new());
        proof {
            assert(mapping.vertex_view() =~= vm0.push(Seq::<usize>::empty()));
        }
    }
    let mut v: usize = 0;
    proof {
        assert(met_by_edges(graph, src, dst, in_use, m as int) + met_by_vertices(src, dst, 0) =~= met_by_edges(graph, src, dst, in_use, m as int));
    }
    while v < n
        invariant
            graph.wf(),
            n == graph.node_count,
            m == graph.edges@.len(),
            valid_sets(graph, src, dst, in_use),
            src == source_set@,
            dst == destination_set@,
            in_use == edges_in_use@,
            ms@.len() == n,
            mt@.len() == n,
            s0 == src[0],
            t0 == dst[0],
            forall|w: int| 0 <= w < n ==> #[trigger] ms@[w] == src.contains(w as usize),
            forall|w: int| 0 <= w < n ==> #[trigger] mt@[w] == dst.contains(w as usize),
            v <= n,
            idx@.len() == n,
            count == count_true(set_entries(idx@)),
            forall|r: int| 0 <= r < n && (#[trigger] idx@[r]) is Some ==> idx@[r]->0 < count,
            forall|r1: int, r2: int|
                0 <= r1 < n && 0 <= r2 < n && (#[trigger] idx@[r1]) is Some && idx@[r1] == #[trigger] idx@[r2] ==> r1 == r2,
            forall|r: int| 0 <= r < n && (#[trigger] idx_e[r]) is Some ==> idx@[r] == idx_e[r],
            edge_phase(graph, src, dst, in_use, m as int, idx_e, count_e, ne_e, em_e, merge),
            new_edges@ == ne_e,
            mapping.edge_view() == em_e,
            forall|c: int| 0 <= c < new_edges@.len() ==> (#[trigger] new_edges@[c]).0 < count && new_edges@[c].1 < count
                && new_edges@[c].0 != new_edges@[c].1,
            mapping.vertex_view().len() == count,
            forall|c: int, i: int|
                0 <= c < count && 0 <= i < mapping.vertex_view()[c].len() ==> #[trigger] mapping.vertex_view()[c][i] < v
                    && idx@[rep(src, dst, mapping.vertex_view()[c][i] as int)] == Some(c as usize),
            forall|w: int| 0 <= w < v ==> #[trigger] idx@[rep(src, dst, w)] is Some
                && mapping.vertex_view()[idx@[rep(src, dst, w)]->0 as int].contains(w as usize),
            forall|c: int| 0 <= c < count ==> increasing(#[trigger] mapping.vertex_view()[c]),
            well_numbered(src, dst, n as nat, idx@, count),
            numbered_by(idx@, count, crate::cut::dedup_first(met_by_edges(graph, src, dst, in_use, m as int) + met_by_vertices(src, dst, v as int))),
            new_edges@ == edges_met(pairs_met(graph, src, dst, in_use, idx@, m as int), merge),
        decreases n - v,
    {
        let r = rep_of(&ms, &mt, s0, t0, v, Ghost(src), Ghost(dst));
        let ghost idx0 = idx@;
        let ghost vm0 = mapping.vertex_view();
        let ghost cnt0 = count;
        if idx[r].is_none() {
            proof {
                lemma_count_true_set(set_entries(idx@), r as int);
                lemma_count_true_bound(set_entries(idx@).update(r as int, true));
                assert(set_entries(idx@.update(r as int, Some(count))) =~= set_entries(idx@).update(r as int, true));
            }
            let ghost count0 = count;
            idx.set(r, Some(count));
            count = count + 1;
            mapping.vertex_contracted_to_original.push(Vec::new());
            proof {
                assert(mapping.vertex_view() =~= vm0.push(Seq::<usize>::empty()));
                assert(rep(src, dst, v as int) == r);
                assert forall|x: int| 0 <= x < n && (#[trigger] idx@[x]) is Some implies is_rep(src, dst, n as nat, x) by {
                    if x != r {
                        assert(idx0[x] is Some);
                    }
                }
                assert forall|c2: int| 0 <= c2 < count implies #[trigger] numbered(idx@, c2) by {
                    if c2 < count0 {
                        assert(numbered(idx0, c2));
                        let x = choose|x: int| 0 <= x < idx0.len() && idx0[x] == Some(c2 as usize);
                        assert(x != r);
                        assert(idx@[x] == Some(c2 as usize));
                    } else {
                        assert(idx@[r as int] == Some(c2 as usize));
                    }
                }
            }
        }
        proof {
            let seen = met_by_edges(graph, src, dst, in_use, m as int) + met_by_vertices(src, dst, v as int);
            assert(idx0.len() == n);
            lemma_numbered_push(idx0, cnt0, idx@, count, seen, r);
            assert forall|f: int| 0 <= f < m && in_use[f] implies 0 <= rep(src, dst, (#[trigger] graph.edges@[f]).0 as int) < idx0.len()
                && 0 <= rep(src, dst, graph.edges@[f].1 as int) < idx0.len() && idx0[rep(src, dst, graph.edges@[f].0 as int)] is Some
                && idx0[rep(src, dst, graph.edges@[f].1 as int)] is Some by {
                assert(graph.edges@[f].0 < n && graph.edges@[f].1 < n);
                assert(src[0] < n && dst[0] < n);
                assert(idx_e[rep(src, dst, graph.edges@[f].0 as int)] is Some);
                assert(idx_e[rep(src, dst, graph.edges@[f].1 as int)] is Some);
            }
            lemma_pairs_met_stable(graph, src, dst, in_use, idx0, idx@, m as int);
            assert(seen.push(r) =~= met_by_edges(graph, src, dst, in_use, m as int) + met_by_vertices(src, dst, v + 1));
        }
        let c = idx[r].unwrap();
        let ghost vm1 = mapping.vertex_view();
        proof {
            assert(!vm1[c as int].contains(v)) by {
                if vm1[c as int].contains(v) {
                    let i = choose|i: int| 0 <= i < vm1[c as int].len() && vm1[c as int][i] == v;
                    if c < vm0.len() {
                        assert(vm1[c as int] == vm0[c as int]);
                        assert(vm0[c as int][i] < v);
                    }
                }
            }
        }
        mapping.add_vertex(c, v);
        proof {
            let vm = mapping.vertex_view();
            assert(vm == vm1.update(c as int, vm1[c as int].push(v)));
            assert forall|c2: int, i: int|
                0 <= c2 < count && 0 <= i < vm[c2].len() implies #[trigger] vm[c2][i] < v + 1
                    && idx@[rep(src, dst, vm[c2][i] as int)] == Some(c2 as usize) by {
                if c2 == c && i == vm1[c2].len() {
                } else {
                    assert(vm[c2][i] == vm1[c2][i]);
                    if c2 < vm0.len() {
                        assert(vm1[c2] == vm0[c2]);
                        assert(idx0[rep(src, dst, vm0[c2][i] as int)] == Some(c2 as usize));
                    }
                }
            }
            assert forall|w: int| 0 <= w < v + 1 implies #[trigger] idx@[rep(src, dst, w)] is Some
                && vm[idx@[rep(src, dst, w)]->0 as int].contains(w as usize) by {
                if w < v {
                    assert(idx0[rep(src, dst, w)] is Some);
                    let c2 = idx0[rep(src, dst, w)]->0 as int;
                    assert(vm0[c2].contains(w as usize));
                    let i = choose|i: int| 0 <= i < vm0[c2].len() && vm0[c2][i] == w as usize;
                    assert(vm1[c2] == vm0[c2]);
                    assert(vm[c2][i] == w as usize);
                } else {
                    assert(vm[c as int][vm1[c as int].len() as int] == v);
                }
            }
            assert forall|c2: int| 0 <= c2 < count implies increasing(#[trigger] vm[c2]) by {
                if c2 == c {
                    assert forall|i: int, j: int| 0 <= i < j < vm[c2].len() implies #[trigger] vm[c2][i] < #[trigger] vm[c2][j] by {
                        if j == vm1[c2].len() {
                            assert(vm1[c2][i] < v);
                        } else {
                            assert(vm1[c2][i] < vm1[c2][j]);
                        }
                    }
                } else {
                    assert(vm[c2] == vm1[c2]);
                    if c2 < vm0.len() {
                        assert(vm1[c2] == vm0[c2]);
                    }
                }
            }
            assert forall|x: int| 0 <= x < n && (#[trigger] idx_e[x]) is Some implies idx@[x] == idx_e[x] by {
                assert(idx0[x] == idx_e[x]);
            }
        }
        v = v + 1;
    }
    proof {
        assert(src[0] == s0);
        assert(src.contains(s0));
        assert(rep(src, dst, s0 as int) == s0);
        assert(idx@[rep(src, dst, s0 as int)] is Some);
    }
    let ns = idx[s0].unwrap();
    let t_rep = rep_of(&ms, &mt, s0, t0, t0, Ghost(src), Ghost(dst));
    let nt = idx[t_rep].unwrap();
    let cg = UnGraph { node_count: count, edges: new_edges };
    let ghost cls = Seq::new(n as nat, |w: int| idx@[rep(src, dst, w)]->0 as int);
    proof {
        assert(src.contains(s0));
        assert(rep(src, dst, s0 as int) == s0);
        assert(cls[s0 as int] == ns);
        let vm = mapping.vertex_view();
        let em = mapping.edge_view();
        assert forall|w: int, x: int|
            0 <= w < n && 0 <= x < n implies (#[trigger] cls[w] == #[trigger] cls[x] <==> rep(src, dst, w) == rep(src, dst, x)) by {
            assert(idx@[rep(src, dst, w)] is Some);
            assert(idx@[rep(src, dst, x)] is Some);
        }
        assert forall|w: int| 0 <= w < n implies 0 <= #[trigger] cls[w] < count by {
            assert(idx@[rep(src, dst, w)] is Some);
        }
        assert forall|c: int, i: int|
            0 <= c < vm.len() && 0 <= i < vm[c].len() implies #[trigger] vm[c][i] < n && cls[vm[c][i] as int] == c by {}
        assert forall|w: int| 0 <= w < n implies #[trigger] vm[cls[w]].contains(w as usize) by {
            assert(idx@[rep(src, dst, w)] is Some);
        }
        assert forall|c: int, i: int|
            0 <= c < em.len() && 0 <= i < em[c].len() implies {
                let f = #[trigger] em[c][i] as int;
                &&& 0 <= f < graph.edges@.len()
                &&& in_use[f]
                &&& joins_pair(cg.edges@[c], cls[graph.edges@[f].0 as int] as usize, cls[graph.edges@[f].1 as int] as usize)
            } by {
            let f = em[c][i] as int;
            let (u, w) = graph.edges@[f];
            assert(idx_e[rep(src, dst, u as int)] is Some);
            assert(idx_e[rep(src, dst, w as int)] is Some);
            assert(idx@[rep(src, dst, u as int)] == idx_e[rep(src, dst, u as int)]);
            assert(idx@[rep(src, dst, w as int)] == idx_e[rep(src, dst, w as int)]);
        }
        assert forall|f: int|
            0 <= f < graph.edges@.len() && in_use[f] && cls[(#[trigger] graph.edges@[f]).0 as int] != cls[graph.edges@[f].1 as int]
                implies exists|c: int| 0 <= c < em.len() && #[trigger] em[c].contains(f as usize) by {
            let (u, w) = graph.edges@[f];
            assert(rep(src, dst, u as int) != rep(src, dst, w as int));
        }
        assert forall|c: int| 0 <= c < vm.len() implies (#[trigger] vm[c]).len() > 0 by {
            assert(numbered(idx@, c));
            let x = choose|x: int| 0 <= x < idx@.len() && idx@[x] == Some(c as usize);
            assert(is_rep(src, dst, n as nat, x));
            let u = choose|u: int| 0 <= u < n && rep(src, dst, u) == x;
            assert(cls[u] == c);
            assert(vm[cls[u]].contains(u as usize));
        }
        lemma_pairs_as_classes(graph, src, dst, in_use, idx@, cls, m as int);
        assert(first_seen_order(graph, src, dst, in_use) == crate::cut::dedup_first(met_by_edges(graph, src, dst, in_use, m as int) + met_by_vertices(src, dst, n as int)));
        assert forall|w: int| 0 <= w < n implies first_seen_order(graph, src, dst, in_use)[#[trigger] cls[w]] == rep(src, dst, w) by {
            assert(idx@[rep(src, dst, w)] is Some);
        }
        assert(contracted_by(graph, src, dst, in_use, &cg, ns as int, nt as int, &mapping, merge, cls));
    }
    let r = (cg, ns, nt, mapping);
    proof {
        assert(contracted_by(graph, source_set@, destination_set@, edges_in_use@, &r.0, r.1 as int, r.2 as int, &r.3, merge, cls));
    }
    r
}


/// Tells whether the sets are non-empty, name vertices of `graph` only, and `edges_in_use`
/// has one entry per edge.
fn sets_are_valid(graph: &UnGraph, source_set: &Vec<usize>, destination_set: &Vec<usize>, edges_in_use: &Vec<bool>) -> (r: bool)
    ensures
        r == valid_sets(graph, source_set@, destination_set@, edges_in_use@),
{
    if source_set.len() == 0 || destination_set.len() == 0 || edges_in_use.len() != graph.edges.len() {
        return false;
    }
    let mut i: usize = 0;
    while i < source_set.len()
        invariant
            i <= source_set@.len(),
            forall|j: int| 0 <= j < i ==> #[trigger] source_set@[j] < graph.node_count,
        decreases source_set.len() - i,
    {
        if source_set[i] >= graph.node_count {
            return false;
        }
        i = i + 1;
    }
    let mut i: usize = 0;
    while i < destination_set.len()
        invariant
            i <= destination_set@.len(),
            forall|j: int| 0 <= j < i ==> #[trigger] destination_set@[j] < graph.node_count,
        decreases destination_set.len() - i,
    {
        if destination_set[i] >= graph.node_count {
            return false;
        }
        i = i + 1;
    }
    true
}

/// Some vertex lies in both sets.
pub open spec fn sets_overlap(src: Seq<usize>, dst: Seq<usize>) -> bool {
    exists|i: int| 0 <= i < dst.len() && src.contains(#[trigger] dst[i])
}

fn overlap(source_set: &Vec<usize>, destination_set: &Vec<usize>, n: usize) -> (r: bool)
    requires
        forall|i: int| 0 <= i < source_set@.len() ==> #[trigger] source_set@[i] < n,
        forall|i: int| 0 <= i < destination_set@.len() ==> #[trigger] destination_set@[i] < n,
    ensures
        r == sets_overlap(source_set@, destination_set@),
{
    let ms = membership(source_set, n);
    let mut i: usize = 0;
    while i < destination_set.len()
        invariant
            ms@.len() == n,
            forall|w: int| 0 <= w < n ==> #[trigger] ms@[w] == source_set@.contains(w as usize),
            forall|i: int| 0 <= i < destination_set@.len() ==> #[trigger] destination_set@[i] < n,
            i <= destination_set@.len(),
            forall|j: int| 0 <= j < i ==> !source_set@.contains(#[trigger] destination_set@[j]),
        decreases destination_set.len() - i,
    {
        if ms[destination_set[i]] {
            proof {
                assert(source_set@.contains(destination_set@[i as int]));
            }
            return true;
        }
        i = i + 1;
    }
    false
}

/// Contracts `original_graph`, restricted to the edges marked in `edges_in_use`, for a
/// set-to-set query: the source vertices become one vertex, the destination vertices another,
/// edges inside either set disappear and edges made parallel are merged. Vertices are numbered
/// in the order in which the edges meet them, then the vertices no edge in use meets
/// (`first_seen_order`), and contracted edges in the order and orientation first met.
/// Returns the contracted graph, its source, its
/// destination and the mapping back to original indices; `InvalidInput` where a set is empty
/// or names a vertex the graph lacks, or `edges_in_use` does not match the edges.
pub fn create_contracted_graph(
    original_graph: &UnGraph,
    source_set: &Vec<usize>,
    destination_set: &Vec<usize>,
    edges_in_use: &Vec<bool>,
) -> (r: Result<(UnGraph, usize, usize, IndexMapping), CutError>)
    requires
        original_graph.wf(),
    ensures
        r is Err <==> !valid_sets(original_graph, source_set@, destination_set@, edges_in_use@),
        r matches Err(e) ==> e == CutError::InvalidInput,
        r matches Ok(c) ==> exists|cls: Seq<int>|
            contracted_by(
                original_graph,
                source_set@,
                destination_set@,
                edges_in_use@,
                &c.0,
                c.1 as int,
                c.2 as int,
                &c.3,
                true,
                cls,
            ),
{
    if !sets_are_valid(original_graph, source_set, destination_set, edges_in_use) {
        return Err(CutError::InvalidInput);
    }
    let r = contract(original_graph, source_set, destination_set, edges_in_use, true);
    let ghost cls = choose|cls: Seq<int>|
            contracted_by(original_graph, source_set@, destination_set@, edges_in_use@, &r.0, r.1 as int, r.2 as int, &r.3, true, cls);
    let out: Result<(UnGraph, usize, usize, IndexMapping), CutError> = Ok(r);
    proof {
        let c = out->Ok_0;
        assert(c == r);
        assert(contracted_by(original_graph, source_set@, destination_set@, edges_in_use@, &c.0, c.1 as int, c.2 as int, &c.3, true, cls));
    }
    out
}

/// What a set-to-set search leaves: the contracted graph `cg` with source `ns` and
/// destination `nt` contracts `g` as `contracted_by` says, and `paths` with `res` are what the
/// augmenting-path search returns on it for budget `k`.
pub open spec fn set_search_result(
    g: &UnGraph,
    src: Seq<usize>,
    dst: Seq<usize>,
    in_use: Seq<bool>,
    k: usize,
    merge: bool,
    cg: &UnGraph,
    ns: int,
    nt: int,
    map: &IndexMapping,
    paths: Seq<Path>,
    res: &ResidualGraph,
) -> bool {
    &&& exists|cls: Seq<int>| contracted_by(g, src, dst, in_use, cg, ns, nt, map, merge, cls)
    &&& paths.len() <= k
    &&& disjoint_paths(cg, paths, ns, nt)
    &&& reverse_residual_of(cg, paths, res)
    &&& (ns == nt || source_unreached(res, ns, nt))
}

/// The contraction of `g` for the two sets has more than `k` edge-disjoint paths between its
/// two merged vertices, so no cut of at most `k` edges separates them.
pub open spec fn more_paths_than(g: &UnGraph, src: Seq<usize>, dst: Seq<usize>, in_use: Seq<bool>, merge: bool, k: usize) -> bool {
    exists|cg: UnGraph, ns: int, nt: int, map: IndexMapping, cls: Seq<int>, ps: Seq<Path>|
        #![trigger contracted_by(g, src, dst, in_use, &cg, ns, nt, &map, merge, cls), disjoint_paths(&cg, ps, ns, nt)]
        contracted_by(g, src, dst, in_use, &cg, ns, nt, &map, merge, cls) && ps.len() > k && disjoint_paths(&cg, ps, ns, nt)
}

/// The set-to-set search, where the contracted graph is wanted too.
pub(crate) fn paths_for_sets(
    original_graph: &UnGraph,
    source_set: &Vec<usize>,
    destination_set: &Vec<usize>,
    k: usize,
    edges_in_use: &Vec<bool>,
    merge: bool,
) -> (r: Result<Option<(Vec<Path>, ResidualGraph, IndexMapping, UnGraph, usize, usize)>, CutError>)
    requires
        original_graph.wf(),
    ensures
        r is Err <==> !valid_sets(original_graph, source_set@, destination_set@, edges_in_use@),
        r matches Err(e) ==> e == CutError::InvalidInput,
        r matches Ok(Some(x)) ==> !sets_overlap(source_set@, destination_set@) && set_search_result(
            original_graph,
            source_set@,
            destination_set@,
            edges_in_use@,
            k,
            merge,
            &x.3,
            x.4 as int,
            x.5 as int,
            &x.2,
            x.0@,
            &x.1,
        ),
        r matches Ok(None) ==> sets_overlap(source_set@, destination_set@) || more_paths_than(original_graph, source_set@, destination_set@, edges_in_use@, merge, k),
{
    if !sets_are_valid(original_graph, source_set, destination_set, edges_in_use) {
        return Err(CutError::InvalidInput);
    }
    if overlap(source_set, destination_set, original_graph.node_count) {
        return Ok(None);
    }
    let (graph, source, destination, index_mapping) = contract(original_graph, source_set, destination_set, edges_in_use, merge);
    let ghost cls = choose|cls: Seq<int>|
        contracted_by(original_graph, source_set@, destination_set@, edges_in_use@, &graph, source as int, destination as int, &index_mapping, merge, cls);
    proof {
        assert(source < graph.node_count && destination < graph.node_count) by {
            assert(0 <= cls[source_set@[0] as int] < graph.node_count);
            assert(0 <= cls[destination_set@[0] as int] < graph.node_count);
        }
    }
    match get_augmenting_paths_and_residual_graph(&graph, source, destination, k) {
        Some((paths, residual)) => Ok(Some((paths, residual, index_mapping, graph, source, destination))),
        None => {
            proof {
                let ps = choose|ps: Seq<Path>| ps.len() > k && #[trigger] disjoint_paths(&graph, ps, source as int, destination as int);
                assert(contracted_by(original_graph, source_set@, destination_set@, edges_in_use@, &graph, source as int, destination as int, &index_mapping, merge, cls));
                assert(disjoint_paths(&graph, ps, source as int, destination as int));
            }
            Ok(None)
        },
    }
}

/// The augmenting paths and reverse residual graph between two vertex sets: the graph,
/// restricted to the edges in use, is contracted as `create_contracted_graph` does (the
/// contraction is unique, `lemma_contraction_unique`, so it is the one that function returns) and searched
/// between the two merged vertices. Returns the paths and residual graph, in contracted
/// indices, with the mapping back; `Ok(None)` where no cut of at most `k` edges exists (the sets
/// share a vertex, or more than `k` edge-disjoint paths were found); `InvalidInput` as for
/// `create_contracted_graph`.
pub fn get_augmenting_paths_and_residual_graph_for_sets(
    original_graph: &UnGraph,
    source_set: &Vec<usize>,
    destination_set: &Vec<usize>,
    k: usize,
    edges_in_use: &Vec<bool>,
) -> (r: Result<Option<(Vec<Path>, ResidualGraph, IndexMapping)>, CutError>)
    requires
        original_graph.wf(),
    ensures
        r is Err <==> !valid_sets(original_graph, source_set@, destination_set@, edges_in_use@),
        r matches Err(e) ==> e == CutError::InvalidInput,
        r matches Ok(Some(x)) ==> !sets_overlap(source_set@, destination_set@) && exists|cg: UnGraph, ns: int, nt: int|
            #[trigger] set_search_result(
                original_graph,
                source_set@,
                destination_set@,
                edges_in_use@,
                k,
                true,
                &cg,
                ns,
                nt,
                &x.2,
                x.0@,
                &x.1,
            ),
        r matches Ok(None) ==> sets_overlap(source_set@, destination_set@) || more_paths_than(original_graph, source_set@, destination_set@, edges_in_use@, true, k),
{
    match paths_for_sets(original_graph, source_set, destination_set, k, edges_in_use, true) {
        Err(e) => Err(e),
        Ok(None) => Ok(None),
        Ok(Some(x)) => {
            let ghost cg = x.3;
            let ghost ns = x.4 as int;
            let ghost nt = x.5 as int;
            let ghost ps = x.0@;
            let (paths, residual, index_mapping, _graph, _source, _destination) = x;
            let r = (paths, residual, index_mapping);
            proof {
                assert(ps == r.0@);
                assert(set_search_result(original_graph, source_set@, destination_set@, edges_in_use@, k, true,
                    &cg, ns, nt, &r.2, r.0@, &r.1));
            }
            let out: Result<Option<(Vec<Path>, ResidualGraph, IndexMapping)>, CutError> = Ok(Some(r));
            proof {
                let y = out->Ok_0->Some_0;
                assert(y == r);
                assert(set_search_result(original_graph, source_set@, destination_set@, edges_in_use@, k, true,
                    &cg, ns, nt, &y.2, y.0@, &y.1));
            }
            out
        },
    }
}

} // verus!
