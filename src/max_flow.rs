use vstd::prelude::*;

use crate::graph::{count_true, lemma_count_true_bound, lemma_count_true_set, ResidualGraph, UnGraph};
use crate::path_residual::{
    along_path, disjoint_paths, edge_disjoint, generate_initial_residual_graph, in_edges, reverse_residual_of, lemma_same_off_path, other_end, other_endpoint, same_off_path, touches, uses,
    valid_path, Path,
};

verus! {

/// Every edge carries at least one arc: either both (no flow) or the one pointing the way its
/// unit of flow runs.
pub open spec fn flow_ok(g: &UnGraph, r: &ResidualGraph) -> bool {
    &&& r.wf()
    &&& r.node_count == g.node_count
    &&& r.ends@ == g.edges@
    &&& forall|e: int| 0 <= e < r.ends@.len() ==> #[trigger] r.forward@[e] || r.backward@[e]
}

/// Flow on edge `e` leaves `v`, minus flow on it entering `v`.
pub open spec fn edge_balance(r: &ResidualGraph, e: int, v: int) -> int {
    let (a, b) = r.ends@[e];
    let leaves = (r.forward@[e] && !r.backward@[e] && a == v) || (r.backward@[e] && !r.forward@[e] && b == v);
    let enters = (r.forward@[e] && !r.backward@[e] && b == v) || (r.backward@[e] && !r.forward@[e] && a == v);
    (if leaves { 1int } else { 0int }) - (if enters { 1int } else { 0int })
}

pub open spec fn net_upto(r: &ResidualGraph, v: int, i: int) -> int
    decreases i,
{
    if i <= 0 {
        0
    } else {
        net_upto(r, v, i - 1) + edge_balance(r, i - 1, v)
    }
}

/// The flow leaving `v` minus the flow entering it.
pub open spec fn net(r: &ResidualGraph, v: int) -> int {
    net_upto(r, v, r.ends@.len() as int)
}

/// Flow is conserved everywhere but at `s` and `t`, and `f` units leave `s` and reach `t`.
pub open spec fn conserved(g: &UnGraph, r: &ResidualGraph, s: int, t: int, f: int) -> bool {
    &&& flow_ok(g, r)
    &&& net(r, s) == f
    &&& net(r, t) == -f
    &&& forall|v: int| 0 <= v < g.node_count && v != s && v != t ==> #[trigger] net(r, v) == 0
}

proof fn lemma_net_change_upto(r1: &ResidualGraph, r2: &ResidualGraph, e: int, v: int, i: int)
    requires
        r1.ends@ == r2.ends@,
        r1.forward@.len() == r2.forward@.len(),
        r1.backward@.len() == r2.backward@.len(),
        forall|f: int| 0 <= f < r1.ends@.len() && f != e ==> #[trigger] r1.forward@[f] == r2.forward@[f] && r1.backward@[f] == r2.backward@[f],
        0 <= e,
        i <= r1.ends@.len(),
    ensures
        net_upto(r2, v, i) == net_upto(r1, v, i) + if e < i { edge_balance(r2, e, v) - edge_balance(r1, e, v) } else { 0 },
    decreases i,
{
    if i > 0 {
        lemma_net_change_upto(r1, r2, e, v, i - 1);
        if i - 1 != e {
            assert(r1.forward@[i - 1] == r2.forward@[i - 1] && r1.backward@[i - 1] == r2.backward@[i - 1]);
        }
    }
}

/// Changing the arcs of one edge changes the balance of each vertex by the change on that edge.
proof fn lemma_net_change(r1: &ResidualGraph, r2: &ResidualGraph, e: int, v: int)
    requires
        r1.ends@ == r2.ends@,
        r1.forward@.len() == r1.ends@.len(),
        r2.forward@.len() == r1.ends@.len(),
        r1.backward@.len() == r1.ends@.len(),
        r2.backward@.len() == r1.ends@.len(),
        forall|f: int| 0 <= f < r1.ends@.len() && f != e ==> #[trigger] r1.forward@[f] == r2.forward@[f] && r1.backward@[f] == r2.backward@[f],
        0 <= e < r1.ends@.len(),
    ensures
        net(r2, v) == net(r1, v) + edge_balance(r2, e, v) - edge_balance(r1, e, v),
{
    lemma_net_change_upto(r1, r2, e, v, r1.ends@.len() as int);
}

proof fn lemma_positive_net_upto(r: &ResidualGraph, v: int, i: int)
    requires
        0 <= i <= r.ends@.len(),
        net_upto(r, v, i) > 0,
    ensures
        exists|e: int| 0 <= e < i && #[trigger] edge_balance(r, e, v) > 0,
    decreases i,
{
    if i > 0 {
        if edge_balance(r, i - 1, v) <= 0 {
            lemma_positive_net_upto(r, v, i - 1);
            let e = choose|e: int| 0 <= e < i - 1 && #[trigger] edge_balance(r, e, v) > 0;
        }
    }
}

proof fn lemma_net_bound_upto(r: &ResidualGraph, v: int, i: int)
    requires
        0 <= i,
    ensures
        -i <= net_upto(r, v, i) <= i,
    decreases i,
{
    if i > 0 {
        lemma_net_bound_upto(r, v, i - 1);
    }
}

/// Every vertex has balance zero when no edge carries flow.
proof fn lemma_net_zero_upto(r: &ResidualGraph, v: int, i: int)
    requires
        0 <= i <= r.ends@.len(),
        forall|e: int| 0 <= e < r.ends@.len() ==> #[trigger] r.forward@[e] && r.backward@[e],
    ensures
        net_upto(r, v, i) == 0,
    decreases i,
{
    if i > 0 {
        lemma_net_zero_upto(r, v, i - 1);
    }
}

/// The arcs of edge `e` after one unit of flow is pushed along it from `x` to `y`: with no flow
/// only the arc `x -> y` stays; with flow from `y` to `x` both arcs come back.
fn push_flow(r: &mut ResidualGraph, e: usize, x: usize, y: usize)
    requires
        old(r).wf(),
        e < old(r).ends@.len(),
        x != y,
        old(r).arc(e as int, y as int, x as int),
        old(r).forward@[e as int] || old(r).backward@[e as int],
    ensures
        final(r).wf(),
        final(r).node_count == old(r).node_count,
        final(r).ends@ == old(r).ends@,
        final(r).forward@[e as int] || final(r).backward@[e as int],
        forall|f: int| 0 <= f < old(r).ends@.len() && f != e ==> #[trigger] final(r).forward@[f] == old(r).forward@[f]
            && final(r).backward@[f] == old(r).backward@[f],
        forall|v: int| #[trigger] net(final(r), v) == net(old(r), v) + (if v == x { 1int } else { 0int }) - (if v == y { 1int } else { 0int }),
        old(r).forward@[e as int] && old(r).backward@[e as int] ==> final(r).arc(e as int, x as int, y as int) && !final(r).arc(e as int, y as int, x as int),
{
    let ghost r0 = *r;
    let (a, b) = r.ends[e];
    let both = r.forward[e] && r.backward[e];
    if a == x && b == y {
        if both {
            r.backward.set(e, false);
        } else {
            r.forward.set(e, true);
        }
    } else {
        if both {
            r.forward.set(e, false);
        } else {
            r.backward.set(e, true);
        }
    }
    proof {
        assert forall|v: int| #[trigger] net(r, v) == net(&r0, v) + (if v == x { 1int } else { 0int }) - (if v == y { 1int } else { 0int }) by {
            lemma_net_change(&r0, r, e as int, v);
        }
    }
}


/// No arc of the forward residual graph leaves the vertex set `d`: the edge `e` with the
/// reverse arc `y -> x` lets flow go from `x` to `y`.
pub open spec fn fwd_closed(r: &ResidualGraph, d: Seq<bool>) -> bool {
    &&& d.len() == r.node_count
    &&& forall|e: int, x: int, y: int| 0 <= e < r.ends@.len() && #[trigger] r.arc(e, y, x) && d[x] ==> d[y]
}

/// `next` records a breadth-first tree grown from `s` in the forward residual graph: each
/// vertex with an entry was reached by that edge, which can take more flow toward it, from a
/// vertex of smaller `rank` that is `s` or has an entry itself.
pub open spec fn flow_tree(
    g: &UnGraph,
    r: &ResidualGraph,
    next: Seq<Option<usize>>,
    s: int,
    rank: Seq<nat>,
) -> bool {
    &&& next.len() == g.node_count
    &&& rank.len() == g.node_count
    &&& next[s] is None
    &&& forall|v: int|
        0 <= v < g.node_count && (#[trigger] next[v]) is Some ==> {
            let e = next[v]->0 as int;
            &&& 0 <= e < g.edges@.len()
            &&& r.arc(e, v, other_end(g, e, v))
            &&& (g.edges@[e].0 == v || g.edges@[e].1 == v)
            &&& other_end(g, e, v) != v
            &&& (other_end(g, e, v) == s || next[other_end(g, e, v)] is Some)
            &&& rank[other_end(g, e, v)] < rank[v]
        }
}

/// Breadth-first search from `source` in the forward residual graph: an edge is followed from
/// `u` where it can take more flow away from `u`. Each vertex reached gets in `next_edge` the
/// edge it was reached by; returns `true` as soon as `destination` is reached.
#[verifier::spinoff_prover]
fn find_augmenting(
    graph: &UnGraph,
    rr: &ResidualGraph,
    source: usize,
    destination: usize,
    next_edge: &mut Vec<Option<usize>>,
) -> (r: bool)
    requires
        graph.wf(),
        flow_ok(graph, rr),
        source < graph.node_count,
        destination < graph.node_count,
    ensures
        final(next_edge)@.len() == graph.node_count,
        r ==> source != destination && final(next_edge)@[destination as int] is Some && exists|
            rank: Seq<nat>,
        | flow_tree(graph, rr, final(next_edge)@, source as int, rank),
        !r ==> source == destination || exists|d: Seq<bool>| #[trigger] fwd_closed(rr, d) && d[source as int] && !d[destination as int],
{
    let n = graph.node_count;
    let m = graph.edges.len();
    next_edge.clear();
    let mut visited: Vec<bool> = Vec::new();
    while visited.len() < n
        invariant
            visited@.len() <= n,
            next_edge@.len() == visited@.len(),
            forall|v: int| 0 <= v < visited@.len() ==> !#[trigger] visited@[v] && next_edge@[v] is None,
        decreases n - visited.len(),
    {
        visited.push(false);
        next_edge.push(None);
    }
    let ghost mut rank: Seq<nat> = Seq::new(n as nat, |i: int| 0nat);
    let ghost mut counter: nat = 1;
    proof {
        assert forall|v: int| 0 <= v < n implies (#[trigger] next_edge@[v]) is None by {
            assert(!visited@[v]);
        }
        assert(flow_tree(graph, rr, next_edge@, source as int, rank));
        crate::graph::lemma_count_zero(visited@);
        lemma_count_true_set(visited@, source as int);
    }
    visited.set(source, true);
    let mut queue: Vec<usize> = Vec::new();
    queue.push(source);
    proof {
        assert forall|v: int| 0 <= v < n && #[trigger] visited@[v] implies queue@.contains(v as usize) by {
            assert(queue@[0] == source);
        }
    }
    let mut head: usize = 0;
    while head < queue.len()
        invariant
            graph.wf(),
            flow_ok(graph, rr),
            n == graph.node_count,
            m == graph.edges@.len(),
            visited@.len() == n,
            source < n,
            destination < n,
            visited@[source as int],
            source != destination ==> !visited@[destination as int],
            head <= queue@.len(),
            queue@.len() == count_true(visited@),
            forall|i: int| 0 <= i < queue@.len() ==> (#[trigger] queue@[i]) < n && visited@[queue@[i] as int],
            forall|v: int| 0 <= v < n && #[trigger] visited@[v] ==> queue@.contains(v as usize),
            forall|i: int, e: int|
                0 <= i < head && 0 <= e < m && #[trigger] touches(graph, e, queue@[i] as int) && rr.arc(e, other_end(graph, e, queue@[i] as int), queue@[i] as int)
                    ==> visited@[other_end(graph, e, queue@[i] as int)],
            forall|v: int| 0 <= v < n ==> ((#[trigger] visited@[v] && v != source) <==> next_edge@[v] is Some),
            next_edge@.len() == n,
            flow_tree(graph, rr, next_edge@, source as int, rank),
            forall|v: int| 0 <= v < n && #[trigger] visited@[v] ==> rank[v] < counter,
        decreases n - head,
    {
        proof {
            lemma_count_true_bound(visited@);
        }
        let u = queue[head];
        let mut e: usize = 0;
        while e < m
            invariant
                graph.wf(),
                flow_ok(graph, rr),
                n == graph.node_count,
                m == graph.edges@.len(),
                    visited@.len() == n,
                source < n,
                destination < n,
                visited@[source as int],
                source != destination ==> !visited@[destination as int],
                head < queue@.len(),
                u == queue@[head as int],
                e <= m,
                queue@.len() == count_true(visited@),
                forall|i: int| 0 <= i < queue@.len() ==> (#[trigger] queue@[i]) < n && visited@[queue@[i] as int],
                forall|v: int| 0 <= v < n && #[trigger] visited@[v] ==> queue@.contains(v as usize),
                forall|i: int, f: int|
                    0 <= i < head && 0 <= f < m && #[trigger] touches(graph, f, queue@[i] as int) && rr.arc(f, other_end(graph, f, queue@[i] as int), queue@[i] as int)
                        ==> visited@[other_end(graph, f, queue@[i] as int)],
                forall|f: int|
                    0 <= f < e && #[trigger] touches(graph, f, u as int) && rr.arc(f, other_end(graph, f, u as int), u as int)
                        ==> visited@[other_end(graph, f, u as int)],
                forall|v: int| 0 <= v < n ==> ((#[trigger] visited@[v] && v != source) <==> next_edge@[v] is Some),
                next_edge@.len() == n,
                flow_tree(graph, rr, next_edge@, source as int, rank),
                forall|v: int| 0 <= v < n && #[trigger] visited@[v] ==> rank[v] < counter,
            decreases m - e,
        {
            let (a, b) = graph.edges[e];
            let ghost old_visited = visited@;
            let ghost old_queue = queue@;
            let ghost old_next = next_edge@;
            let ghost old_rank = rank;
            if (a == u && rr.backward[e]) || (b == u && rr.forward[e]) {
                let w = other_endpoint(graph, e, u);
                if !visited[w] {
                    next_edge.set(w, Some(e));
                    proof {
                        rank = rank.update(w as int, counter);
                        counter = counter + 1;
                        assert(old_visited[u as int]);
                        assert forall|v: int|
                            0 <= v < n && (#[trigger] next_edge@[v]) is Some implies {
                                let f = next_edge@[v]->0 as int;
                                &&& 0 <= f < graph.edges@.len()
                                &&& rr.arc(f, v, other_end(graph, f, v))
                                &&& (graph.edges@[f].0 == v || graph.edges@[f].1 == v)
                                &&& other_end(graph, f, v) != v
                                &&& (other_end(graph, f, v) == source || next_edge@[other_end(graph, f, v)] is Some)
                                &&& rank[other_end(graph, f, v)] < rank[v]
                            } by {
                            if v != w {
                                assert(old_next[v] is Some);
                                let x = other_end(graph, old_next[v]->0 as int, v);
                                assert(x != w) by {
                                    assert(old_visited[x] || x == source);
                                }
                            } else {
                                assert(other_end(graph, e as int, w as int) == u);
                                assert(rr.arc(e as int, w as int, u as int));
                                assert(u == source || old_next[u as int] is Some);
                            }
                        }
                    }
                    if w == destination {
                        proof {
                            assert(flow_tree(graph, rr, next_edge@, source as int, rank));
                        }
                        return true;
                    }
                    proof {
                        lemma_count_true_set(visited@, w as int);
                    }
                    visited.set(w, true);
                    queue.push(w);
                    proof {
                        assert forall|v: int| 0 <= v < n && #[trigger] visited@[v] implies queue@.contains(v as usize) by {
                            if v != w {
                                assert(old_visited[v]);
                                let j = choose|j: int| 0 <= j < old_queue.len() && old_queue[j] == v as usize;
                                assert(queue@[j] == v as usize);
                            } else {
                                assert(queue@[queue@.len() - 1] == w);
                            }
                        }
                    }
                }
            }
            proof {
                assert forall|i: int, f: int|
                    0 <= i < head && 0 <= f < m && #[trigger] touches(graph, f, queue@[i] as int) && rr.arc(f, other_end(graph, f, queue@[i] as int), queue@[i] as int)
                        implies visited@[other_end(graph, f, queue@[i] as int)] by {
                    assert(queue@[i] == old_queue[i]);
                    assert(touches(graph, f, old_queue[i] as int));
                }
                assert forall|f: int|
                    0 <= f < e + 1 && #[trigger] touches(graph, f, u as int) && rr.arc(f, other_end(graph, f, u as int), u as int)
                        implies visited@[other_end(graph, f, u as int)] by {
                    if f < e {
                        assert(old_visited[other_end(graph, f, u as int)]);
                    } else {
                        assert(old_visited[u as int]);
                        let w = other_end(graph, f, u as int);
                        if w != u {
                            if a == u {
                                assert(w == b);
                                assert(rr.backward@[f]);
                            } else {
                                assert(w == a);
                                assert(rr.forward@[f]);
                            }
                            assert(visited@[w]);
                        }
                    }
                }
            }
            e = e + 1;
        }
        proof {
            assert forall|i: int, f: int|
                0 <= i < head + 1 && 0 <= f < m && #[trigger] touches(graph, f, queue@[i] as int) && rr.arc(f, other_end(graph, f, queue@[i] as int), queue@[i] as int)
                    implies visited@[other_end(graph, f, queue@[i] as int)] by {
                if i == head {
                    assert(touches(graph, f, u as int));
                }
            }
        }
        head = head + 1;
    }
    proof {
        if source != destination {
            let d = visited@;
            assert forall|f: int, x: int, y: int|
                0 <= f < rr.ends@.len() && #[trigger] rr.arc(f, y, x) && d[x] implies d[y] by {
                assert(0 <= x < n);
                assert(queue@.contains(x as usize));
                let j = choose|j: int| 0 <= j < queue@.len() && queue@[j] == x as usize;
                assert(touches(graph, f, queue@[j] as int));
                if x != y {
                    assert(other_end(graph, f, x) == y);
                }
            }
            assert(fwd_closed(rr, d));
        }
    }
    false
}

/// Step `j` of a walk back up a search tree: vertex `cv[j]` was left by its tree edge `ce[j]`,
/// and its rank is above `bound`.
pub open spec fn walked(g: &UnGraph, next: Seq<Option<usize>>, rank: Seq<nat>, cv: Seq<usize>, ce: Seq<usize>, j: int, bound: nat) -> bool {
    &&& cv[j] < g.node_count
    &&& next[cv[j] as int] == Some(ce[j])
    &&& rank[cv[j] as int] > bound
}

/// Pushes one unit of flow along the tree path from `source` to `destination`.
#[verifier::spinoff_prover]
fn augment(
    graph: &UnGraph,
    r: &mut ResidualGraph,
    source: usize,
    destination: usize,
    next_edge: &Vec<Option<usize>>,
    Ghost(rank): Ghost<Seq<nat>>,
)
    requires
        graph.wf(),
        flow_ok(graph, old(r)),
        source < graph.node_count,
        destination < graph.node_count,
        source != destination,
        next_edge@[destination as int] is Some,
        flow_tree(graph, old(r), next_edge@, source as int, rank),
    ensures
        flow_ok(graph, final(r)),
        forall|v: int| #[trigger] net(final(r), v) == net(old(r), v) + (if v == source { 1int } else { 0int }) - (if v == destination { 1int } else { 0int }),
{
    let ghost r0 = *r;
    let ghost mut ce: Seq<usize> = Seq::empty();
    let ghost mut cv: Seq<usize> = Seq::empty();
    let mut vertex = destination;
    loop
        invariant
            graph.wf(),
            flow_ok(graph, r),
            flow_ok(graph, &r0),
            flow_tree(graph, &r0, next_edge@, source as int, rank),
            source < graph.node_count,
            destination < graph.node_count,
            vertex < graph.node_count,
            vertex == source || next_edge@[vertex as int] is Some,
            forall|v: int| #[trigger] net(r, v) == net(&r0, v) + (if v == vertex { 1int } else { 0int }) - (if v == destination { 1int } else { 0int }),
            same_off_path(r, &r0, ce),
            ce.len() == cv.len(),
            forall|j: int| 0 <= j < ce.len() ==> #[trigger] walked(graph, next_edge@, rank, cv, ce, j, rank[vertex as int]),
        ensures
            vertex == source,
            flow_ok(graph, r),
            forall|v: int| #[trigger] net(r, v) == net(&r0, v) + (if v == vertex { 1int } else { 0int }) - (if v == destination { 1int } else { 0int }),
        decreases rank[vertex as int],
    {
        let e = match next_edge[vertex] {
            None => break,
            Some(e) => e,
        };
        let p = other_endpoint(graph, e, vertex);
        let ghost r1 = *r;
        proof {
            assert(!in_edges(ce, e as int)) by {
                if in_edges(ce, e as int) {
                    let j = choose|j: int| 0 <= j < ce.len() && ce[j] == e as int;
                    assert(walked(graph, next_edge@, rank, cv, ce, j, rank[vertex as int]));
                    let w = cv[j] as int;
                    assert(next_edge@[w] == Some(e));
                    assert(rank[w] > rank[vertex as int]);
                    assert(rank[p as int] < rank[vertex as int]);
                    assert(other_end(graph, e as int, w) != w);
                }
            }
            lemma_same_off_path(r, &r0, ce, e as int);
            assert(r0.arc(e as int, vertex as int, p as int));
        }
        push_flow(r, e, p, vertex);
        proof {
            assert forall|f: int|
                0 <= f < r0.ends@.len() && !in_edges(ce.push(e), f) implies #[trigger] r.forward@[f] == r0.forward@[f]
                    && r.backward@[f] == r0.backward@[f] by {
                assert(f != e) by {
                    if f == e {
                        assert(ce.push(e)[ce.len() as int] == e);
                    }
                }
                assert(!in_edges(ce, f)) by {
                    if in_edges(ce, f) {
                        let j = choose|j: int| 0 <= j < ce.len() && ce[j] == f;
                        assert(ce.push(e)[j] == f);
                    }
                }
                assert(r1.forward@[f] == r0.forward@[f] && r1.backward@[f] == r0.backward@[f]);
            }
            let old_vertex = vertex;
            let nce = ce.push(e);
            let ncv = cv.push(old_vertex);
            assert(next_edge@[old_vertex as int] == Some(e));
            assert(rank[p as int] < rank[old_vertex as int]);
            assert forall|j: int| 0 <= j < nce.len() implies #[trigger] walked(graph, next_edge@, rank, ncv, nce, j, rank[p as int]) by {
                if j < ce.len() {
                    assert(walked(graph, next_edge@, rank, cv, ce, j, rank[old_vertex as int]));
                    assert(nce[j] == ce[j]);
                    assert(ncv[j] == cv[j]);
                    assert(next_edge@[cv[j] as int] == Some(ce[j]));
                } else {
                    assert(nce[j] == e);
                    assert(ncv[j] == old_vertex);
                }
            }
            ce = nce;
            cv = ncv;
        }
        vertex = p;
    }
}

/// The edges that carry no flow.
pub open spec fn idle_mask(r: &ResidualGraph) -> Seq<bool> {
    Seq::new(r.ends@.len(), |e: int| r.forward@[e] && r.backward@[e])
}

/// The balance of `v` once `f` units run from `s` to `t` and one more has gone from `s` to `cur`.
pub open spec fn walk_balance(s: int, t: int, f: int, cur: int, v: int) -> int {
    (if v == s { f } else if v == t { -f } else { 0 }) - (if v == s { 1int } else { 0int }) + (if v == cur { 1int } else { 0int })
}

/// An edge along which flow leaves `cur`.
fn find_leaving(graph: &UnGraph, r: &ResidualGraph, cur: usize) -> (e: usize)
    requires
        flow_ok(graph, r),
        net(r, cur as int) > 0,
    ensures
        e < r.ends@.len(),
        edge_balance(r, e as int, cur as int) > 0,
{
    proof {
        lemma_positive_net_upto(r, cur as int, r.ends@.len() as int);
    }
    let mut e: usize = 0;
    while e < r.ends.len()
        invariant
            flow_ok(graph, r),
            e <= r.ends@.len(),
            forall|f: int| 0 <= f < e ==> #[trigger] edge_balance(r, f, cur as int) <= 0,
            exists|f: int| 0 <= f < r.ends@.len() && #[trigger] edge_balance(r, f, cur as int) > 0,
        decreases r.ends.len() - e,
    {
        let (a, b) = r.ends[e];
        let fw = r.forward[e];
        let bw = r.backward[e];
        let leaves = (fw && !bw && a == cur) || (bw && !fw && b == cur);
        let enters = (fw && !bw && b == cur) || (bw && !fw && a == cur);
        if leaves && !enters {
            return e;
        }
        e = e + 1;
    }
    proof {
        let f = choose|f: int| 0 <= f < r.ends@.len() && #[trigger] edge_balance(r, f, cur as int) > 0;
        assert(false);
    }
    0
}

/// Takes the flow off edge `e`: both arcs come back.
fn clear_flow(r: &mut ResidualGraph, e: usize)
    requires
        old(r).wf(),
        e < old(r).ends@.len(),
    ensures
        final(r).wf(),
        final(r).node_count == old(r).node_count,
        final(r).ends@ == old(r).ends@,
        final(r).forward@ == old(r).forward@.update(e as int, true),
        final(r).backward@ == old(r).backward@.update(e as int, true),
        forall|v: int| #[trigger] net(final(r), v) == net(old(r), v) - edge_balance(old(r), e as int, v),
{
    let ghost r0 = *r;
    r.forward.set(e, true);
    r.backward.set(e, true);
    proof {
        assert forall|v: int| #[trigger] net(r, v) == net(&r0, v) - edge_balance(&r0, e as int, v) by {
            lemma_net_change(&r0, r, e as int, v);
        }
    }
}



/// The edges the paths use carry no flow.
pub open spec fn used_are_idle(paths: Seq<Path>, r: &ResidualGraph) -> bool {
    forall|e: int| 0 <= e < r.ends@.len() && uses(paths, e) ==> #[trigger] idle_mask(r)[e]
}

proof fn lemma_used_idle(paths: Seq<Path>, r: &ResidualGraph, e: int)
    requires
        used_are_idle(paths, r),
        0 <= e < r.ends@.len(),
        uses(paths, e),
    ensures
        r.forward@[e] && r.backward@[e],
{
    assert(idle_mask(r)[e]);
}

/// No step of any path stays at one vertex.
pub open spec fn no_loops(paths: Seq<Path>) -> bool {
    forall|p: int, j: int| 0 <= p < paths.len() && 0 <= j < paths[p].edges@.len() ==> #[trigger] paths[p].vertices@[j] != paths[p].vertices@[j + 1]
}

/// Splits a flow of `f` units from `source` to `destination` into `f` edge-disjoint walks, each
/// following edges that carry flow the way it runs.
#[verifier::spinoff_prover]
fn decompose(graph: &UnGraph, r: ResidualGraph, source: usize, destination: usize, f: usize) -> (paths: Vec<Path>)
    requires
        graph.wf(),
        source < graph.node_count,
        destination < graph.node_count,
        source != destination,
        conserved(graph, &r, source as int, destination as int, f as int),
    ensures
        paths@.len() == f,
        disjoint_paths(graph, paths@, source as int, destination as int),
        no_loops(paths@),
{
    let mut rc = r;
    let m = rc.ends.len();
    let mut paths: Vec<Path> = Vec::new();
    let mut p: usize = 0;
    while p < f
        invariant
            graph.wf(),
            source < graph.node_count,
            destination < graph.node_count,
            source != destination,
            m == rc.ends@.len(),
            p <= f,
            paths@.len() == p,
            conserved(graph, &rc, source as int, destination as int, (f - p) as int),
            disjoint_paths(graph, paths@, source as int, destination as int),
            no_loops(paths@),
            used_are_idle(paths@, &rc),
        decreases f - p,
    {
        let ghost rem = (f - p) as int;
        let mut cur = source;
        let mut vs: Vec<usize> = Vec::new();
        vs.push(source);
        let mut es: Vec<usize> = Vec::new();
        while cur != destination
            invariant
                graph.wf(),
                source < graph.node_count,
                destination < graph.node_count,
                source != destination,
                m == rc.ends@.len(),
                rem >= 1,
                flow_ok(graph, &rc),
                cur < graph.node_count,
                forall|v: int| 0 <= v < graph.node_count ==> #[trigger] net(&rc, v) == walk_balance(source as int, destination as int, rem, cur as int, v),
                vs@.len() == es@.len() + 1,
                vs@[0] == source,
                vs@.last() == cur,
                forall|j: int| 0 <= j < es@.len() ==> (#[trigger] es@[j]) < graph.edges@.len() && graph.joins(es@[j] as int, vs@[j] as int, vs@[j + 1] as int)
                    && vs@[j] != vs@[j + 1] && rc.forward@[es@[j] as int] && rc.backward@[es@[j] as int],
                forall|i: int, j: int| 0 <= i < j < es@.len() ==> #[trigger] es@[i] != #[trigger] es@[j],
                used_are_idle(paths@, &rc),
                forall|q: int, i: int, j: int| 0 <= q < paths@.len() && 0 <= i < paths@[q].edges@.len() && 0 <= j < es@.len()
                    ==> #[trigger] paths@[q].edges@[i] != #[trigger] es@[j],
            decreases m - count_true(idle_mask(&rc)),
        {
            proof {
                assert(net(&rc, cur as int) >= 1);
            }
            let e = find_leaving(graph, &rc, cur);
            let (a, b) = rc.ends[e];
            let w = if a == cur { b } else { a };
            let ghost rc0 = rc;
            let ghost es0 = es@;
            proof {
                assert(!(rc.forward@[e as int] && rc.backward@[e as int]));
                assert forall|j: int| 0 <= j < es0.len() implies es0[j] != e by {}
                assert forall|q: int, i: int| 0 <= q < paths@.len() && 0 <= i < paths@[q].edges@.len() implies paths@[q].edges@[i] != e by {
                    if paths@[q].edges@[i] == e {
                        assert(uses(paths@, e as int));
                        lemma_used_idle(paths@, &rc, e as int);
                    }
                }
                lemma_count_true_set(idle_mask(&rc), e as int);
                lemma_count_true_bound(idle_mask(&rc).update(e as int, true));
            }
            clear_flow(&mut rc, e);
            proof {
                assert(idle_mask(&rc) =~= idle_mask(&rc0).update(e as int, true));
                assert(w != cur);
                assert forall|v: int| 0 <= v < graph.node_count implies #[trigger] net(&rc, v) == walk_balance(source as int, destination as int, rem, w as int, v) by {
                    assert(net(&rc, v) == net(&rc0, v) - edge_balance(&rc0, e as int, v));
                }
            }
            vs.push(w);
            es.push(e);
            cur = w;
            proof {
                assert forall|j: int| 0 <= j < es@.len() implies (#[trigger] es@[j]) < graph.edges@.len() && graph.joins(es@[j] as int, vs@[j] as int, vs@[j + 1] as int)
                    && vs@[j] != vs@[j + 1] && rc.forward@[es@[j] as int] && rc.backward@[es@[j] as int] by {
                    if j < es0.len() {
                        assert(es@[j] == es0[j]);
                        assert(es0[j] != e);
                    }
                }
                assert forall|i: int, j: int| 0 <= i < j < es@.len() implies #[trigger] es@[i] != #[trigger] es@[j] by {
                    if j < es0.len() {
                        assert(es0[i] != es0[j]);
                    }
                }
                assert forall|e2: int| 0 <= e2 < m && uses(paths@, e2) implies #[trigger] idle_mask(&rc)[e2] by {
                    lemma_used_idle(paths@, &rc0, e2);
                }
            }
        }
        let ghost old_paths = paths@;
        let ghost cv = vs@;
        let ghost ce = es@;
        paths.push(Path { vertices: vs, edges: es });
        proof {
            let np = paths@;
            assert(np[p as int].vertices@ == cv && np[p as int].edges@ == ce);
            assert forall|q: int| 0 <= q < old_paths.len() implies np[q] == old_paths[q] by {}
            assert forall|q: int| 0 <= q < np.len() implies valid_path(graph, #[trigger] np[q], source as int, destination as int) by {
                if q < old_paths.len() {
                    assert(np[q] == old_paths[q]);
                }
            }
            assert forall|q: int, j: int, q2: int, i: int|
                0 <= q < np.len() && 0 <= q2 < np.len() && 0 <= j < np[q].edges@.len() && 0 <= i
                    < np[q2].edges@.len() && (q != q2 || j != i) implies #[trigger] np[q].edges@[j]
                    != #[trigger] np[q2].edges@[i] by {
                let last = old_paths.len() as int;
                if q < last && q2 < last {
                    assert(old_paths[q].edges@[j] != old_paths[q2].edges@[i]);
                } else if q == last && q2 == last {
                    if j < i {
                        assert(ce[j] != ce[i]);
                    } else {
                        assert(ce[i] != ce[j]);
                    }
                } else if q == last {
                    assert(old_paths[q2].edges@[i] != ce[j]);
                } else {
                    assert(old_paths[q].edges@[j] != ce[i]);
                }
            }
            assert(edge_disjoint(np));
            assert forall|q: int, j: int| 0 <= q < np.len() && 0 <= j < np[q].edges@.len() implies #[trigger] np[q].vertices@[j] != np[q].vertices@[j + 1] by {
                if q < old_paths.len() {
                    assert(np[q] == old_paths[q]);
                    assert(no_loops(old_paths));
                    assert(old_paths[q].vertices@[j] != old_paths[q].vertices@[j + 1]);
                } else {
                    assert(q == p);
                    assert(np[q].edges@[j] == ce[j]);
                    assert(ce[j] < graph.edges@.len());
                    assert(np[q].vertices@ == cv);
                    assert(cv[j] != cv[j + 1]);
                }
            }
            assert forall|e2: int| 0 <= e2 < m && uses(np, e2) implies #[trigger] idle_mask(&rc)[e2] by {
                let (q, j) = choose|q: int, j: int| 0 <= q < np.len() && 0 <= j < np[q].edges@.len() && #[trigger] np[q].edges@[j] == e2;
                if q < old_paths.len() {
                    assert(old_paths[q].edges@[j] == e2);
                    assert(uses(old_paths, e2));
                    lemma_used_idle(old_paths, &rc, e2);
                } else {
                    assert(ce[j] == e2);
                    assert(ce[j] < graph.edges@.len());
                }
            }
            assert forall|v: int| 0 <= v < graph.node_count && v != source && v != destination implies #[trigger] net(&rc, v) == 0 by {
                assert(net(&rc, v) == walk_balance(source as int, destination as int, rem, destination as int, v));
            }
            assert(net(&rc, source as int) == walk_balance(source as int, destination as int, rem, destination as int, source as int));
            assert(net(&rc, destination as int) == walk_balance(source as int, destination as int, rem, destination as int, destination as int));
        }
        p = p + 1;
    }
    paths
}

proof fn lemma_flags_kept(r: &ResidualGraph, r0: &ResidualGraph, e: int, f: int)
    requires
        forall|g: int| 0 <= g < r0.ends@.len() && g != e ==> #[trigger] r.forward@[g] == r0.forward@[g] && r.backward@[g] == r0.backward@[g],
        0 <= f < r0.ends@.len(),
        f != e,
    ensures
        r.forward@[f] == r0.forward@[f] && r.backward@[f] == r0.backward@[f],
{
}

/// Step `i` of path `q` comes before step `j` of path `p`.
pub open spec fn before(p: int, j: int, q: int, i: int) -> bool {
    q < p || (q == p && i < j)
}

/// Some step before step `j` of path `p` runs along edge `e`.
pub open spec fn done_edge(paths: Seq<Path>, p: int, j: int, e: int) -> bool {
    exists|q: int, i: int| 0 <= q < paths.len() && 0 <= i < paths[q].edges@.len() && before(p, j, q, i) && #[trigger] paths[q].edges@[i] == e
}

/// The balance of `v` once `f` units run from `s` to `t`.
pub open spec fn path_balance(s: int, t: int, f: int, v: int) -> int {
    if v == s { f } else if v == t { -f } else { 0 }
}

/// What `rebuild` has made of the steps before step `j` of path `p`.
pub open spec fn rebuilt(g: &UnGraph, paths: Seq<Path>, r: &ResidualGraph, p: int, j: int) -> bool {
    &&& forall|e: int| 0 <= e < g.edges@.len() && !done_edge(paths, p, j, e) ==> #[trigger] idle_mask(r)[e]
    &&& forall|q: int, i: int| 0 <= q < paths.len() && 0 <= i < paths[q].edges@.len() && before(p, j, q, i) ==> along_path(
        r,
        #[trigger] paths[q].edges@[i] as int,
        paths[q].vertices@[i] as int,
        paths[q].vertices@[i + 1] as int,
    )
}

/// The reverse residual graph of edge-disjoint walks: every edge starts with both arcs, and
/// each step of each walk keeps only the arc that points along it.
#[verifier::spinoff_prover]
fn rebuild(graph: &UnGraph, paths: &Vec<Path>, Ghost(s): Ghost<int>, Ghost(t): Ghost<int>) -> (r: ResidualGraph)
    requires
        graph.wf(),
        0 <= s < graph.node_count,
        0 <= t < graph.node_count,
        s != t,
        disjoint_paths(graph, paths@, s, t),
        no_loops(paths@),
    ensures
        conserved(graph, &r, s, t, paths@.len() as int),
        reverse_residual_of(graph, paths@, &r),
{
    let mut r = generate_initial_residual_graph(graph);
    proof {
        assert forall|v: int| #[trigger] net(&r, v) == 0 by {
            lemma_net_zero_upto(&r, v, r.ends@.len() as int);
        }
        assert forall|e: int| 0 <= e < graph.edges@.len() && !done_edge(paths@, 0, 0, e) implies #[trigger] idle_mask(&r)[e] by {}
    }
    let mut p: usize = 0;
    while p < paths.len()
        invariant
            graph.wf(),
            0 <= s < graph.node_count,
            0 <= t < graph.node_count,
            s != t,
            disjoint_paths(graph, paths@, s, t),
            no_loops(paths@),
            p <= paths@.len(),
            flow_ok(graph, &r),
            forall|v: int| #[trigger] net(&r, v) == path_balance(s, t, p as int, v),
            rebuilt(graph, paths@, &r, p as int, 0),
        decreases paths.len() - p,
    {
        let path = &paths[p];
        proof {
            assert(valid_path(graph, paths@[p as int], s, t));
        }
        let mut j: usize = 0;
        while j < path.edges.len()
            invariant
                graph.wf(),
                0 <= s < graph.node_count,
                0 <= t < graph.node_count,
                s != t,
                disjoint_paths(graph, paths@, s, t),
                no_loops(paths@),
                p < paths@.len(),
                *path == paths@[p as int],
                valid_path(graph, *path, s, t),
                j <= path.edges@.len(),
                flow_ok(graph, &r),
                forall|v: int| #[trigger] net(&r, v) == path_balance(s, t, p as int, v) + (if v == s { 1int } else { 0int })
                    - (if v == path.vertices@[j as int] { 1int } else { 0int }),
                rebuilt(graph, paths@, &r, p as int, j as int),
            decreases path.edges.len() - j,
        {
            let e = path.edges[j];
            let x = path.vertices[j];
            let y = path.vertices[j + 1];
            let ghost r0 = r;
            proof {
                assert(!done_edge(paths@, p as int, j as int, e as int)) by {
                    if done_edge(paths@, p as int, j as int, e as int) {
                        let (q, i) = choose|q: int, i: int| 0 <= q < paths@.len() && 0 <= i < paths@[q].edges@.len()
                            && before(p as int, j as int, q, i) && #[trigger] paths@[q].edges@[i] == e as int;
                        assert(paths@[q].edges@[i] != paths@[p as int].edges@[j as int]);
                    }
                }
                assert(e < graph.edges@.len());
                assert(idle_mask(&r)[e as int]);
                assert(graph.joins(e as int, x as int, y as int));
                assert(x != y);
            }
            push_flow(&mut r, e, x, y);
            proof {
                assert forall|e2: int| 0 <= e2 < graph.edges@.len() && !done_edge(paths@, p as int, j + 1, e2) implies #[trigger] idle_mask(&r)[e2] by {
                    if e2 == e {
                        assert(before(p as int, j + 1, p as int, j as int));
                        assert(paths@[p as int].edges@[j as int] == e2);
                    } else {
                        if done_edge(paths@, p as int, j as int, e2) {
                            let (q, i) = choose|q: int, i: int| 0 <= q < paths@.len() && 0 <= i < paths@[q].edges@.len()
                                && before(p as int, j as int, q, i) && #[trigger] paths@[q].edges@[i] == e2;
                            assert(before(p as int, j + 1, q, i));
                        }
                        assert(idle_mask(&r0)[e2]);
                        lemma_flags_kept(&r, &r0, e as int, e2);
                    }
                }
                assert forall|q: int, i: int| 0 <= q < paths@.len() && 0 <= i < paths@[q].edges@.len() && before(p as int, j + 1, q, i) implies along_path(
                    &r,
                    #[trigger] paths@[q].edges@[i] as int,
                    paths@[q].vertices@[i] as int,
                    paths@[q].vertices@[i + 1] as int,
                ) by {
                    if q == p && i == j {
                        assert(paths@[q].edges@[i] == e && paths@[q].vertices@[i] == x && paths@[q].vertices@[i + 1] == y);
                        assert(r0.forward@[e as int] && r0.backward@[e as int]);
                        assert(r.arc(e as int, x as int, y as int) && !r.arc(e as int, y as int, x as int));
                    } else {
                        assert(before(p as int, j as int, q, i));
                        assert(valid_path(graph, paths@[q], s, t));
                        let f = paths@[q].edges@[i] as int;
                        assert(0 <= f < graph.edges@.len());
                        assert(paths@[q].edges@[i] != paths@[p as int].edges@[j as int]);
                        assert(paths@[p as int].edges@[j as int] == e);
                        assert(f != e as int);
                        assert(r0.ends@.len() == graph.edges@.len());
                        lemma_flags_kept(&r, &r0, e as int, f);
                        assert(along_path(&r0, paths@[q].edges@[i] as int, paths@[q].vertices@[i] as int, paths@[q].vertices@[i + 1] as int));
                    }
                }
            }
            j = j + 1;
        }
        proof {
            assert forall|e2: int| 0 <= e2 < graph.edges@.len() && !done_edge(paths@, p + 1, 0, e2) implies #[trigger] idle_mask(&r)[e2] by {
                if done_edge(paths@, p as int, j as int, e2) {
                    let (q, i) = choose|q: int, i: int| 0 <= q < paths@.len() && 0 <= i < paths@[q].edges@.len()
                        && before(p as int, j as int, q, i) && #[trigger] paths@[q].edges@[i] == e2;
                    assert(before(p + 1, 0, q, i));
                }
            }
            assert forall|q: int, i: int| 0 <= q < paths@.len() && 0 <= i < paths@[q].edges@.len() && before(p + 1, 0, q, i) implies along_path(
                &r,
                #[trigger] paths@[q].edges@[i] as int,
                paths@[q].vertices@[i] as int,
                paths@[q].vertices@[i + 1] as int,
            ) by {
                assert(before(p as int, j as int, q, i));
            }
            assert forall|v: int| #[trigger] net(&r, v) == path_balance(s, t, p + 1, v) by {}
        }
        p = p + 1;
    }
    proof {
        assert forall|e: int| 0 <= e < graph.edges@.len() && !uses(paths@, e) implies #[trigger] r.forward@[e] && r.backward@[e] by {
            if done_edge(paths@, p as int, 0, e) {
                let (q, i) = choose|q: int, i: int| 0 <= q < paths@.len() && 0 <= i < paths@[q].edges@.len()
                    && before(p as int, 0, q, i) && #[trigger] paths@[q].edges@[i] == e;
                assert(uses(paths@, e));
            }
            assert(idle_mask(&r)[e]);
        }
        assert forall|q: int, i: int| 0 <= q < paths@.len() && 0 <= i < paths@[q].edges@.len() implies along_path(
            &r,
            #[trigger] paths@[q].edges@[i] as int,
            paths@[q].vertices@[i] as int,
            paths@[q].vertices@[i + 1] as int,
        ) by {
            assert(before(p as int, 0, q, i));
        }
        assert(net(&r, s) == paths@.len());
        assert(net(&r, t) == -paths@.len());
    }
    r
}

/// The destination's reach in the reverse residual graph misses the source.
pub open spec fn source_unreached(r: &ResidualGraph, s: int, t: int) -> bool {
    forall|d: Seq<bool>| #[trigger] r.reach_set(t, d) ==> !d[s]
}

/// A set that holds the source, misses the destination and that no forward residual arc
/// leaves shows that the destination does not reach the source in the reverse residual graph.
pub proof fn lemma_blocked_source_unreached(r: &ResidualGraph, s: int, t: int, d0: Seq<bool>)
    requires
        r.wf(),
        fwd_closed(r, d0),
        0 <= s < d0.len(),
        0 <= t < d0.len(),
        d0[s],
        !d0[t],
    ensures
        source_unreached(r, s, t),
{
    let c = Seq::new(d0.len(), |v: int| !d0[v]);
    assert forall|e: int, u: int, v: int| 0 <= e < r.ends@.len() && #[trigger] r.arc(e, u, v) && c[u] implies c[v] by {
        let (a, b) = r.ends@[e];
        assert(a < r.node_count && b < r.node_count);
        assert(0 <= u < d0.len() && 0 <= v < d0.len());
        if !c[v] {
            assert(d0[v]);
            assert(r.arc(e, u, v) && d0[v]);
            assert(d0[u]);
        }
    }
    assert(r.closed(c));
    assert forall|d: Seq<bool>| #[trigger] r.reach_set(t, d) implies !d[s] by {
        assert(c[t]);
        if d[s] {
            assert(c[s]);
        }
    }
}

/// A maximum flow from `source` to `destination` split into edge-disjoint walks, with the
/// reverse residual graph of the walks. No forward residual path is left from `source` to
/// `destination`.
#[verifier::spinoff_prover]
pub(crate) fn max_flow_paths(graph: &UnGraph, source: usize, destination: usize) -> (res: (Vec<Path>, ResidualGraph))
    requires
        graph.wf(),
        source < graph.node_count,
        destination < graph.node_count,
        source != destination,
    ensures
        disjoint_paths(graph, res.0@, source as int, destination as int),
        reverse_residual_of(graph, res.0@, &res.1),
        exists|d: Seq<bool>| #[trigger] fwd_closed(&res.1, d) && d[source as int] && !d[destination as int],
{
    let m = graph.edges.len();
    let mut r = generate_initial_residual_graph(graph);
    proof {
        assert forall|v: int| #[trigger] net(&r, v) == 0 by {
            lemma_net_zero_upto(&r, v, r.ends@.len() as int);
        }
    }
    let mut f: usize = 0;
    let mut next_edge: Vec<Option<usize>> = Vec::new();
    loop
        invariant
            graph.wf(),
            source < graph.node_count,
            destination < graph.node_count,
            source != destination,
            m == graph.edges@.len(),
            f <= m,
            conserved(graph, &r, source as int, destination as int, f as int),
        decreases m - f,
    {
        if find_augmenting(graph, &r, source, destination, &mut next_edge) {
            let ghost rank = choose|rank: Seq<nat>| flow_tree(graph, &r, next_edge@, source as int, rank);
            let ghost r_before = r;
            augment(graph, &mut r, source, destination, &next_edge, Ghost(rank));
            proof {
                lemma_net_bound_upto(&r, source as int, r.ends@.len() as int);
                assert(net(&r, source as int) == net(&r_before, source as int) + 1);
                assert(f + 1 <= m);
                assert forall|v: int| 0 <= v < graph.node_count && v != source && v != destination implies #[trigger] net(&r, v) == 0 by {}
            }
            f = f + 1;
        } else {
            let paths = decompose(graph, r, source, destination, f);
            let mut r2 = rebuild(graph, &paths, Ghost(source as int), Ghost(destination as int));
            if !find_augmenting(graph, &r2, source, destination, &mut next_edge) {
                return (paths, r2);
            }
            let ghost rank = choose|rank: Seq<nat>| flow_tree(graph, &r2, next_edge@, source as int, rank);
            let ghost r_before = r2;
            augment(graph, &mut r2, source, destination, &next_edge, Ghost(rank));
            proof {
                lemma_net_bound_upto(&r2, source as int, r2.ends@.len() as int);
                assert(net(&r2, source as int) == net(&r_before, source as int) + 1);
                assert(f + 1 <= m);
                assert forall|v: int| 0 <= v < graph.node_count && v != source && v != destination implies #[trigger] net(&r2, v) == 0 by {}
            }
            r = r2;
            f = f + 1;
        }
    }
}

} // verus!
