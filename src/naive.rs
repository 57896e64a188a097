use vstd::prelude::*;

use crate::cut::{all_edges, copy_indices, exact_cut, members_upto, Cut};
use crate::graph::{count_true, lemma_count_true_bound, lemma_count_true_set, lemma_count_zero, UnGraph};

verus! {

/// The three lists and the size of a cut.
pub open spec fn cut_view(c: Cut) -> (Seq<usize>, Seq<usize>, Seq<usize>, usize) {
    (c.source_set@, c.destination_set@, c.cut_edge_set@, c.size)
}

fn same_list(a: &Vec<usize>, b: &Vec<usize>) -> (r: bool)
    ensures
        r == (a@ == b@),
{
    if a.len() != b.len() {
        return false;
    }
    let mut i: usize = 0;
    while i < a.len()
        invariant
            a@.len() == b@.len(),
            i <= a@.len(),
            forall|j: int| 0 <= j < i ==> a@[j] == b@[j],
        decreases a.len() - i,
    {
        if a[i] != b[i] {
            return false;
        }
        i = i + 1;
    }
    proof {
        assert(a@ =~= b@);
    }
    true
}

fn same_cut(a: &Cut, b: &Cut) -> (r: bool)
    ensures
        r == (cut_view(*a) == cut_view(*b)),
{
    same_list(&a.source_set, &b.source_set) && same_list(&a.destination_set, &b.destination_set)
        && same_list(&a.cut_edge_set, &b.cut_edge_set) && a.size == b.size
}

fn contains_cut(cuts: &Vec<Cut>, c: &Cut) -> (r: bool)
    ensures
        r == exists|i: int| 0 <= i < cuts@.len() && cut_view(#[trigger] cuts@[i]) == cut_view(*c),
{
    let mut i: usize = 0;
    while i < cuts.len()
        invariant
            i <= cuts@.len(),
            forall|j: int| 0 <= j < i ==> cut_view(#[trigger] cuts@[j]) != cut_view(*c),
        decreases cuts.len() - i,
    {
        if same_cut(&cuts[i], c) {
            return true;
        }
        i = i + 1;
    }
    false
}

/// The edges `e' < e` of `graph` with exactly one endpoint marked in `mask`, in increasing order.
pub open spec fn frontier_upto(graph: &UnGraph, mask: Seq<bool>, e: int) -> Seq<usize>
    decreases e,
{
    if e <= 0 {
        Seq::empty()
    } else if mask[graph.edges@[e - 1].0 as int] != mask[graph.edges@[e - 1].1 as int] {
        frontier_upto(graph, mask, e - 1).push((e - 1) as usize)
    } else {
        frontier_upto(graph, mask, e - 1)
    }
}

/// The edges of `graph` with exactly one endpoint marked in `mask`, in increasing order.
fn frontier(graph: &UnGraph, mask: &Vec<bool>) -> (r: Vec<usize>)
    requires
        graph.wf(),
        mask@.len() == graph.node_count,
    ensures
        forall|e: int| 0 <= e < graph.edges@.len() ==> (r@.contains(e as usize) <==> mask@[graph.edges@[e].0 as int] != mask@[graph.edges@[e].1 as int]),
        forall|i: int| 0 <= i < r@.len() ==> #[trigger] r@[i] < graph.edges@.len(),
        crate::cut::increasing(r@),
        r@ == frontier_upto(graph, mask@, graph.edges@.len() as int),
{
    let mut r: Vec<usize> = Vec::new();
    let mut e: usize = 0;
    while e < graph.edges.len()
        invariant
            graph.wf(),
            mask@.len() == graph.node_count,
            e <= graph.edges@.len(),
            forall|f: int| 0 <= f < e ==> (r@.contains(f as usize) <==> mask@[graph.edges@[f].0 as int] != mask@[graph.edges@[f].1 as int]),
            forall|i: int| 0 <= i < r@.len() ==> #[trigger] r@[i] < e,
            crate::cut::increasing(r@),
            r@ == frontier_upto(graph, mask@, e as int),
        decreases graph.edges.len() - e,
    {
        let (a, b) = graph.edges[e];
        let ghost old_r = r@;
        if mask[a] != mask[b] {
            r.push(e);
        }
        proof {
            assert forall|f: int| 0 <= f < e + 1 implies (r@.contains(f as usize) <==> mask@[graph.edges@[f].0 as int] != mask@[graph.edges@[f].1 as int]) by {
                if r@.contains(f as usize) {
                    let j = choose|j: int| 0 <= j < r@.len() && r@[j] == f as usize;
                    if j < old_r.len() {
                        assert(old_r[j] == f);
                        assert(old_r.contains(f as usize));
                    }
                }
                if f < e && old_r.contains(f as usize) {
                    let j = choose|j: int| 0 <= j < old_r.len() && old_r[j] == f as usize;
                    assert(r@[j] == f as usize);
                }
                if f == e && mask@[a as int] != mask@[b as int] {
                    assert(r@[r@.len() - 1] == e);
                }
            }
        }
        e = e + 1;
    }
    r
}

/// The discovery marks and queue after the neighbours of `u` along the edges `e' < e` are
/// put at the end of the queue, each one not discovered yet.
pub open spec fn discover_upto(graph: &UnGraph, u: usize, disc: Seq<bool>, queue: Seq<usize>, e: int) -> (Seq<bool>, Seq<usize>)
    decreases e,
{
    if e <= 0 {
        (disc, queue)
    } else {
        let (d, q) = discover_upto(graph, u, disc, queue, e - 1);
        let (a, b) = graph.edges@[e - 1];
        if a == u || b == u {
            let w = if a == u { b } else { a };
            if !d[w as int] {
                (d.update(w as int, true), q.push(w))
            } else {
                (d, q)
            }
        } else {
            (d, q)
        }
    }
}

/// Puts every neighbour of `u` not discovered yet at the end of the queue, marking it.
fn discover(graph: &UnGraph, u: usize, discovered: &mut Vec<bool>, queue: &mut Vec<usize>)
    requires
        graph.wf(),
        old(discovered)@.len() == graph.node_count,
        old(queue)@.len() == count_true(old(discovered)@),
        forall|i: int| 0 <= i < old(queue)@.len() ==> (#[trigger] old(queue)@[i]) < graph.node_count && old(discovered)@[old(queue)@[i] as int],
        forall|i: int, j: int| 0 <= i < j < old(queue)@.len() ==> #[trigger] old(queue)@[i] != #[trigger] old(queue)@[j],
    ensures
        final(discovered)@.len() == graph.node_count,
        final(queue)@.len() == count_true(final(discovered)@),
        forall|i: int| 0 <= i < final(queue)@.len() ==> (#[trigger] final(queue)@[i]) < graph.node_count && final(discovered)@[final(queue)@[i] as int],
        forall|i: int, j: int| 0 <= i < j < final(queue)@.len() ==> #[trigger] final(queue)@[i] != #[trigger] final(queue)@[j],
        final(queue)@.len() >= old(queue)@.len(),
        forall|i: int| 0 <= i < old(queue)@.len() ==> #[trigger] final(queue)@[i] == old(queue)@[i],
        (final(discovered)@, final(queue)@) == discover_upto(graph, u, old(discovered)@, old(queue)@, graph.edges@.len() as int),
{
    let ghost d0 = discovered@;
    let n = graph.node_count;
    let ghost q0 = queue@;
    let mut e: usize = 0;
    while e < graph.edges.len()
        invariant
            graph.wf(),
            n == graph.node_count,
            e <= graph.edges@.len(),
            discovered@.len() == n,
            queue@.len() == count_true(discovered@),
            forall|i: int| 0 <= i < queue@.len() ==> (#[trigger] queue@[i]) < n && discovered@[queue@[i] as int],
            forall|i: int, j: int| 0 <= i < j < queue@.len() ==> #[trigger] queue@[i] != #[trigger] queue@[j],
            queue@.len() >= q0.len(),
            forall|i: int| 0 <= i < q0.len() ==> #[trigger] queue@[i] == q0[i],
            (discovered@, queue@) == discover_upto(graph, u, d0, q0, e as int),
        decreases graph.edges.len() - e,
    {
        let (a, b) = graph.edges[e];
        if a == u || b == u {
            let w = if a == u { b } else { a };
            if !discovered[w] {
                let ghost old_queue = queue@;
                proof {
                    lemma_count_true_set(discovered@, w as int);
                    lemma_count_true_bound(discovered@.update(w as int, true));
                    assert forall|i: int| 0 <= i < old_queue.len() implies old_queue[i] != w by {
                        assert(discovered@[old_queue[i] as int]);
                    }
                }
                discovered.set(w, true);
                queue.push(w);
                proof {
                    assert forall|i: int, j: int| 0 <= i < j < queue@.len() implies #[trigger] queue@[i] != #[trigger] queue@[j] by {
                        if j == queue@.len() - 1 {
                            assert(old_queue[i] != w);
                        } else {
                            assert(old_queue[i] != old_queue[j]);
                        }
                    }
                    assert forall|i: int| 0 <= i < q0.len() implies #[trigger] queue@[i] == q0[i] by {
                        assert(old_queue[i] == q0[i]);
                    }
                }
            }
        }
        e = e + 1;
    }
}

/// The views of the cuts recorded so far.
pub open spec fn cut_views(cuts: Seq<Cut>) -> Seq<(Seq<usize>, Seq<usize>, Seq<usize>, usize)> {
    cuts.map_values(|c: Cut| cut_view(c))
}

/// One step of the search of `generate_cuts`, on its state: the queue, how far it has been
/// taken, the discovered vertices, the vertices taken (as a list and as a mask) and the cuts
/// recorded.
pub open spec fn naive_step(
    graph: &UnGraph,
    destination: usize,
    k: usize,
    st: (Seq<usize>, int, Seq<bool>, Seq<usize>, Seq<bool>, Seq<(Seq<usize>, Seq<usize>, Seq<usize>, usize)>),
) -> (Seq<usize>, int, Seq<bool>, Seq<usize>, Seq<bool>, Seq<(Seq<usize>, Seq<usize>, Seq<usize>, usize)>) {
    let u = st.0[st.1];
    let visited = if u != destination { st.3.push(u) } else { st.3 };
    let mask = if u != destination { st.4.update(u as int, true) } else { st.4 };
    let fr = frontier_upto(graph, mask, graph.edges@.len() as int);
    let cv = (visited, members_upto(mask, false, mask.len() as int), fr, fr.len() as usize);
    let cuts = if fr.len() <= k && !st.5.contains(cv) { st.5.push(cv) } else { st.5 };
    let (disc, queue) = discover_upto(graph, u, st.2, st.0, graph.edges@.len() as int);
    (queue, st.1 + 1, disc, visited, mask, cuts)
}

/// The state of the search after at most `fuel` steps; it stops once the queue is used up.
pub open spec fn naive_run(
    graph: &UnGraph,
    destination: usize,
    k: usize,
    st: (Seq<usize>, int, Seq<bool>, Seq<usize>, Seq<bool>, Seq<(Seq<usize>, Seq<usize>, Seq<usize>, usize)>),
    fuel: nat,
) -> (Seq<usize>, int, Seq<bool>, Seq<usize>, Seq<bool>, Seq<(Seq<usize>, Seq<usize>, Seq<usize>, usize)>)
    decreases fuel,
{
    if fuel == 0 || st.1 >= st.0.len() || st.1 < 0 {
        st
    } else {
        naive_run(graph, destination, k, naive_step(graph, destination, k, st), (fuel - 1) as nat)
    }
}

/// The state the search of `generate_cuts` starts from.
pub open spec fn naive_start(graph: &UnGraph, source: usize) -> (Seq<usize>, int, Seq<bool>, Seq<usize>, Seq<bool>, Seq<(Seq<usize>, Seq<usize>, Seq<usize>, usize)>) {
    (seq![source], 0, Seq::new(graph.node_count as nat, |v: int| v == source), Seq::empty(), Seq::new(graph.node_count as nat, |v: int| false), Seq::empty())
}

/// `cuts` is what the search of `generate_cuts` records once its queue is used up.
pub open spec fn naive_outcome(graph: &UnGraph, source: usize, destination: usize, k: usize, cuts: Seq<(Seq<usize>, Seq<usize>, Seq<usize>, usize)>) -> bool {
    exists|j: nat| {
        let st = #[trigger] naive_run(graph, destination, k, naive_start(graph, source), j);
        st.1 >= st.0.len() && st.5 == cuts
    }
}

proof fn lemma_run_one_more(
    graph: &UnGraph,
    destination: usize,
    k: usize,
    st: (Seq<usize>, int, Seq<bool>, Seq<usize>, Seq<bool>, Seq<(Seq<usize>, Seq<usize>, Seq<usize>, usize)>),
    j: nat,
)
    requires
        0 <= naive_run(graph, destination, k, st, j).1 < naive_run(graph, destination, k, st, j).0.len(),
    ensures
        naive_run(graph, destination, k, st, j + 1) == naive_step(graph, destination, k, naive_run(graph, destination, k, st, j)),
    decreases j,
{
    let next = naive_step(graph, destination, k, st);
    if j == 0 {
        assert(naive_run(graph, destination, k, st, 0) == st);
        assert(naive_run(graph, destination, k, next, 0) == next);
        assert(naive_run(graph, destination, k, st, 1) == naive_run(graph, destination, k, next, 0));
    } else {
        assert(!(st.1 >= st.0.len() || st.1 < 0)) by {
            if st.1 >= st.0.len() || st.1 < 0 {
                assert(naive_run(graph, destination, k, st, j) == st);
            }
        }
        assert(naive_run(graph, destination, k, st, j) == naive_run(graph, destination, k, next, (j - 1) as nat));
        assert(naive_run(graph, destination, k, st, j + 1) == naive_run(graph, destination, k, next, j));
        lemma_run_one_more(graph, destination, k, next, (j - 1) as nat);
    }
}

proof fn lemma_run_stays(
    graph: &UnGraph,
    destination: usize,
    k: usize,
    st: (Seq<usize>, int, Seq<bool>, Seq<usize>, Seq<bool>, Seq<(Seq<usize>, Seq<usize>, Seq<usize>, usize)>),
    j: nat,
    i: nat,
)
    requires
        j <= i,
        naive_run(graph, destination, k, st, j).1 >= naive_run(graph, destination, k, st, j).0.len(),
    ensures
        naive_run(graph, destination, k, st, i) == naive_run(graph, destination, k, st, j),
    decreases j,
{
    if j > 0 && !(st.1 >= st.0.len() || st.1 < 0) {
        lemma_run_stays(graph, destination, k, naive_step(graph, destination, k, st), (j - 1) as nat, (i - 1) as nat);
    }
}

proof fn lemma_run_keeps_cuts(
    graph: &UnGraph,
    destination: usize,
    k: usize,
    st: (Seq<usize>, int, Seq<bool>, Seq<usize>, Seq<bool>, Seq<(Seq<usize>, Seq<usize>, Seq<usize>, usize)>),
    j: nat,
)
    ensures
        naive_run(graph, destination, k, st, j).5.len() >= st.5.len(),
    decreases j,
{
    if j > 0 && !(st.1 >= st.0.len() || st.1 < 0) {
        lemma_run_keeps_cuts(graph, destination, k, naive_step(graph, destination, k, st), (j - 1) as nat);
    }
}

/// The search of `generate_cuts` records at least one cut when the edges leaving the source
/// number at most `k`: the cut around the source alone.
pub proof fn lemma_source_cut_recorded(
    graph: &UnGraph,
    source: usize,
    destination: usize,
    k: usize,
    cuts: Seq<(Seq<usize>, Seq<usize>, Seq<usize>, usize)>,
)
    requires
        graph.wf(),
        source < graph.node_count,
        destination < graph.node_count,
        source != destination,
        naive_outcome(graph, source, destination, k, cuts),
        frontier_upto(graph, Seq::new(graph.node_count as nat, |v: int| v == source as int), graph.edges@.len() as int).len() <= k,
    ensures
        cuts.len() > 0,
{
    let st = naive_start(graph, source);
    let j = choose|j: nat| {
        let s = #[trigger] naive_run(graph, destination, k, st, j);
        s.1 >= s.0.len() && s.5 == cuts
    };
    assert(st.1 < st.0.len());
    if j == 0 {
        assert(naive_run(graph, destination, k, st, 0) == st);
    }
    let next = naive_step(graph, destination, k, st);
    assert(naive_run(graph, destination, k, st, j) == naive_run(graph, destination, k, next, (j - 1) as nat));
    let mask = st.4.update(source as int, true);
    assert(mask =~= Seq::new(graph.node_count as nat, |v: int| v == source as int));
    assert(next.5.len() == 1);
    lemma_run_keeps_cuts(graph, destination, k, next, (j - 1) as nat);
}

/// Running `generate_cuts` twice on the same inputs gives the same cuts, in the same order.
pub proof fn lemma_generate_cuts_repeatable(
    graph: &UnGraph,
    source: usize,
    destination: usize,
    k: usize,
    first: Seq<(Seq<usize>, Seq<usize>, Seq<usize>, usize)>,
    second: Seq<(Seq<usize>, Seq<usize>, Seq<usize>, usize)>,
)
    requires
        naive_outcome(graph, source, destination, k, first),
        naive_outcome(graph, source, destination, k, second),
    ensures
        first == second,
{
    let st = naive_start(graph, source);
    let j1 = choose|j: nat| {
        let s = #[trigger] naive_run(graph, destination, k, st, j);
        s.1 >= s.0.len() && s.5 == first
    };
    let j2 = choose|j: nat| {
        let s = #[trigger] naive_run(graph, destination, k, st, j);
        s.1 >= s.0.len() && s.5 == second
    };
    if j1 <= j2 {
        lemma_run_stays(graph, destination, k, st, j1, j2);
    } else {
        lemma_run_stays(graph, destination, k, st, j2, j1);
    }
}

/// Every cut of `cuts` is an exact cut of `graph` of at most `k` edges with `destination`
/// on its destination side and, unless the two coincide, `source` on its source side; no cut
/// is listed twice.
pub open spec fn naive_cuts(graph: &UnGraph, source: int, destination: int, k: usize, cuts: Seq<Cut>) -> bool {
    &&& forall|i: int|
        0 <= i < cuts.len() ==> {
            &&& exact_cut(graph, all_edges(graph), #[trigger] cuts[i])
            &&& cuts[i].size <= k
            &&& cuts[i].destination_set@.contains(destination as usize)
            &&& (source != destination ==> cuts[i].source_set@.contains(source as usize))
        }
    &&& forall|i: int, j: int| 0 <= i < j < cuts.len() ==> cut_view(#[trigger] cuts[i]) != cut_view(#[trigger] cuts[j])
}

/// Cuts between `source` and `destination` of at most `k` edges, found by breadth-first
/// search from `source`: after each vertex the search takes (never the destination itself),
/// the vertices taken so far form the source side, and the cut is recorded if it is small
/// enough and new.
pub fn generate_cuts(graph: &UnGraph, source: usize, destination: usize, k: usize) -> (r: Vec<Cut>)
    requires
        graph.wf(),
        source < graph.node_count,
        destination < graph.node_count,
    ensures
        naive_cuts(graph, source as int, destination as int, k, r@),
        naive_outcome(graph, source, destination, k, cut_views(r@)),
{
    let n = graph.node_count;
    let m = graph.edges.len();
    let mut ret: Vec<Cut> = Vec::new();
    let mut discovered: Vec<bool> = Vec::new();
    let mut visited_mask: Vec<bool> = Vec::new();
    while discovered.len() < n
        invariant
            discovered@.len() <= n,
            visited_mask@.len() == discovered@.len(),
            forall|v: int| 0 <= v < discovered@.len() ==> !#[trigger] discovered@[v],
            forall|v: int| 0 <= v < visited_mask@.len() ==> !#[trigger] visited_mask@[v],
        decreases n - discovered.len(),
    {
        discovered.push(false);
        visited_mask.push(false);
    }
    proof {
        lemma_count_zero(discovered@);
        lemma_count_true_set(discovered@, source as int);
    }
    discovered.set(source, true);
    let mut queue: Vec<usize> = Vec::new();
    queue.push(source);
    let mut visited: Vec<usize> = Vec::new();
    let mut head: usize = 0;
    proof {
        assert forall|v: int| 0 <= v < n implies !#[trigger] visited_mask@[v] by {}
        let st0 = naive_start(graph, source);
        assert(queue@ =~= st0.0);
        assert(discovered@ =~= st0.2);
        assert(visited@ =~= st0.3);
        assert(visited_mask@ =~= st0.4);
        assert(cut_views(ret@) =~= st0.5);
        assert(naive_run(graph, destination, k, st0, 0) == st0);
    }
    while head < queue.len()
        invariant
            graph.wf(),
            n == graph.node_count,
            m == graph.edges@.len(),
            source < n,
            destination < n,
            discovered@.len() == n,
            visited_mask@.len() == n,
            head <= queue@.len(),
            queue@.len() == count_true(discovered@),
            queue@.len() > 0,
            queue@[0] == source,
            forall|i: int| 0 <= i < queue@.len() ==> (#[trigger] queue@[i]) < n && discovered@[queue@[i] as int],
            forall|i: int, j: int| 0 <= i < j < queue@.len() ==> #[trigger] queue@[i] != #[trigger] queue@[j],
            forall|v: int| 0 <= v < n ==> (#[trigger] visited_mask@[v] <==> v != destination && exists|i: int| 0 <= i < head && queue@[i] == v),
            forall|i: int| 0 <= i < visited@.len() ==> (#[trigger] visited@[i]) < n && visited_mask@[visited@[i] as int],
            forall|v: int| 0 <= v < n && #[trigger] visited_mask@[v] ==> visited@.contains(v as usize),
            visited@.no_duplicates(),
            naive_cuts(graph, source as int, destination as int, k, ret@),
            naive_run(graph, destination, k, naive_start(graph, source), head as nat) == (
                queue@, head as int, discovered@, visited@, visited_mask@, cut_views(ret@)),
        decreases n - head,
    {
        proof {
            lemma_count_true_bound(discovered@);
        }
        let ghost st_before = (queue@, head as int, discovered@, visited@, visited_mask@, cut_views(ret@));
        proof {
            lemma_run_one_more(graph, destination, k, naive_start(graph, source), head as nat);
        }
        let u = queue[head];
        if u != destination {
            proof {
                assert(!visited_mask@[u as int]) by {
                    if visited_mask@[u as int] {
                        let i = choose|i: int| 0 <= i < head && queue@[i] == u;
                        assert(queue@[i] != queue@[head as int]);
                    }
                }
                assert(!visited@.contains(u));
            }
            let ghost old_visited = visited@;
            visited.push(u);
            visited_mask.set(u, true);
            proof {
                assert forall|v: int| 0 <= v < n && #[trigger] visited_mask@[v] implies visited@.contains(v as usize) by {
                    if v == u {
                        assert(visited@[visited@.len() - 1] == u);
                    } else {
                        assert(old_visited.contains(v as usize));
                        let i = choose|i: int| 0 <= i < old_visited.len() && old_visited[i] == v as usize;
                        assert(visited@[i] == v as usize);
                    }
                }
                assert forall|i: int| 0 <= i < visited@.len() implies (#[trigger] visited@[i]) < n && visited_mask@[visited@[i] as int] by {
                    if i < old_visited.len() {
                        assert(visited@[i] == old_visited[i]);
                    }
                }
                assert(visited@.no_duplicates()) by {
                    assert forall|i: int, j: int| 0 <= i < visited@.len() && 0 <= j < visited@.len() && i != j implies visited@[i] != visited@[j] by {
                        if i < old_visited.len() && j < old_visited.len() {
                            assert(old_visited[i] != old_visited[j]);
                        } else if i < old_visited.len() {
                            assert(old_visited.contains(old_visited[i]));
                        } else {
                            assert(old_visited.contains(old_visited[j]));
                        }
                    }
                }
            }
        }
        proof {
            assert forall|v: int| 0 <= v < n implies (#[trigger] visited_mask@[v] <==> v != destination && exists|i: int| 0 <= i < head + 1 && queue@[i] == v) by {
                if v == u && v != destination {
                    assert(queue@[head as int] == v);
                }
            }
        }
        let cut_edges = frontier(graph, &visited_mask);
        let ghost views_before = cut_views(ret@);
        if cut_edges.len() <= k {
            let dest_set = crate::cut::members(&visited_mask, false);
            let cut = Cut::new(copy_indices(&visited), dest_set, cut_edges);
            proof {
                let c = cut;
                assert forall|v: int|
                    0 <= v < n implies (c.source_set@.contains(v as usize) <==> !#[trigger] c.destination_set@.contains(v as usize)) by {
                    assert(c.destination_set@.contains(v as usize) == !visited_mask@[v]);
                    if c.source_set@.contains(v as usize) {
                        let i = choose|i: int| 0 <= i < visited@.len() && visited@[i] == v as usize;
                        assert(visited_mask@[visited@[i] as int]);
                    }
                }
                assert forall|e: int| 0 <= e < m implies #[trigger] crate::cut::listed_iff_crossing(graph, all_edges(graph), c, e) by {
                    let (a, b) = graph.edges@[e];
                    assert(c.destination_set@.contains(a) == !visited_mask@[a as int]);
                    assert(c.destination_set@.contains(b) == !visited_mask@[b as int]);
                }
                assert(c.cut_edge_set@.no_duplicates()) by {
                    assert forall|i: int, j: int| 0 <= i < c.cut_edge_set@.len() && 0 <= j < c.cut_edge_set@.len() && i != j implies c.cut_edge_set@[i] != c.cut_edge_set@[j] by {
                        if i < j {
                            assert(c.cut_edge_set@[i] < c.cut_edge_set@[j]);
                        } else {
                            assert(c.cut_edge_set@[j] < c.cut_edge_set@[i]);
                        }
                    }
                }
                assert(exact_cut(graph, all_edges(graph), c));
                assert(!visited_mask@[destination as int]);
                assert(c.destination_set@.contains(destination));
                if source != destination {
                    assert(visited_mask@[source as int]) by {
                        assert(queue@[0] == source);
                    }
                    assert(c.source_set@.contains(source));
                }
            }
            let present = contains_cut(&ret, &cut);
            proof {
                if views_before.contains(cut_view(cut)) {
                    let i = choose|i: int| 0 <= i < views_before.len() && views_before[i] == cut_view(cut);
                    assert(cut_view(ret@[i]) == cut_view(cut));
                }
                if present {
                    let i = choose|i: int| 0 <= i < ret@.len() && cut_view(#[trigger] ret@[i]) == cut_view(cut);
                    assert(views_before[i] == cut_view(cut));
                }
                assert(present == views_before.contains(cut_view(cut)));
            }
            if !present {
                let ghost before = ret@;
                ret.push(cut);
                proof {
                    assert(cut_views(ret@) =~= views_before.push(cut_view(cut)));
                }
                proof {
                    assert forall|i: int, j: int| 0 <= i < j < ret@.len() implies cut_view(#[trigger] ret@[i]) != cut_view(#[trigger] ret@[j]) by {
                        if j == ret@.len() - 1 {
                            assert(ret@[i] == before[i]);
                        } else {
                            assert(ret@[i] == before[i] && ret@[j] == before[j]);
                        }
                    }
                    assert forall|i: int| 0 <= i < ret@.len() implies {
                        &&& exact_cut(graph, all_edges(graph), #[trigger] ret@[i])
                        &&& ret@[i].size <= k
                        &&& ret@[i].destination_set@.contains(destination as usize)
                        &&& (source != destination ==> ret@[i].source_set@.contains(source as usize))
                    } by {
                        if i < before.len() {
                            assert(ret@[i] == before[i]);
                        }
                    }
                }
            }
        }
        let ghost q1 = queue@;
        let ghost views_after = cut_views(ret@);
        proof {
            let mask = visited_mask@;
            let fr = frontier_upto(graph, mask, graph.edges@.len() as int);
            let cv = (visited@, members_upto(mask, false, mask.len() as int), fr, fr.len() as usize);
            assert(views_after == if fr.len() <= k && !views_before.contains(cv) { views_before.push(cv) } else { views_before });
        }
        discover(graph, u, &mut discovered, &mut queue);
        proof {
            assert forall|v: int| 0 <= v < n implies (#[trigger] visited_mask@[v] <==> v != destination && exists|i: int| 0 <= i < head + 1 && queue@[i] == v) by {
                if exists|i: int| 0 <= i < head + 1 && q1[i] == v {
                    let i = choose|i: int| 0 <= i < head + 1 && q1[i] == v;
                    assert(queue@[i] == v);
                }
                if exists|i: int| 0 <= i < head + 1 && queue@[i] == v {
                    let i = choose|i: int| 0 <= i < head + 1 && queue@[i] == v;
                    assert(q1[i] == v);
                }
            }
        }
        proof {
            assert(naive_step(graph, destination, k, st_before) == (queue@, head + 1, discovered@, visited@, visited_mask@, cut_views(ret@)));
        }
        head = head + 1;
    }
    proof {
        let st = naive_run(graph, destination, k, naive_start(graph, source), head as nat);
        assert(st.1 >= st.0.len() && st.5 == cut_views(ret@));
    }
    ret
}

/// Some cut of `cuts` is no larger than `c` and has a strictly smaller source side.
pub open spec fn dominated(cuts: Seq<Cut>, c: Cut) -> bool {
    exists|j: int| 0 <= j < cuts.len() && (#[trigger] cuts[j]).size <= c.size && cuts[j].source_set@.len() < c.source_set@.len()
}

/// The cuts among the first `i` of `cuts` that no cut of `cuts` dominates, in order.
pub open spec fn undominated_upto(cuts: Seq<Cut>, i: int) -> Seq<(Seq<usize>, Seq<usize>, Seq<usize>, usize)>
    decreases i,
{
    if i <= 0 {
        Seq::empty()
    } else {
        let prev = undominated_upto(cuts, i - 1);
        if dominated(cuts, cuts[i - 1]) {
            prev
        } else {
            prev.push(cut_view(cuts[i - 1]))
        }
    }
}

fn copy_cut(c: &Cut) -> (r: Cut)
    ensures
        cut_view(r) == cut_view(*c),
{
    Cut {
        source_set: copy_indices(&c.source_set),
        destination_set: copy_indices(&c.destination_set),
        cut_edge_set: copy_indices(&c.cut_edge_set),
        size: c.size,
    }
}

/// The cuts of `cuts` that no cut of `cuts` dominates (no other cut is at most as large and
/// has a strictly smaller source side), in their order.
pub fn filter_important_cuts(cuts: &Vec<Cut>) -> (r: Vec<Cut>)
    ensures
        r@.map_values(|c: Cut| cut_view(c)) == undominated_upto(cuts@, cuts@.len() as int),
{
    let mut r: Vec<Cut> = Vec::new();
    let mut i: usize = 0;
    while i < cuts.len()
        invariant
            i <= cuts@.len(),
            r@.map_values(|c: Cut| cut_view(c)) == undominated_upto(cuts@, i as int),
        decreases cuts.len() - i,
    {
        let mut j: usize = 0;
        let mut dom = false;
        while j < cuts.len() && !dom
            invariant
                i < cuts@.len(),
                j <= cuts@.len(),
                dom ==> dominated(cuts@, cuts@[i as int]),
                !dom ==> forall|x: int| 0 <= x < j ==> !((#[trigger] cuts@[x]).size <= cuts@[i as int].size && cuts@[x].source_set@.len() < cuts@[i as int].source_set@.len()),
            decreases cuts.len() - j + if dom { 0int } else { 1int },
        {
            if cuts[j].size <= cuts[i].size && cuts[j].source_set.len() < cuts[i].source_set.len() {
                dom = true;
            } else {
                j = j + 1;
            }
        }
        let ghost before = r@;
        if !dom {
            r.push(copy_cut(&cuts[i]));
            proof {
                assert(r@.map_values(|c: Cut| cut_view(c)) =~= before.map_values(|c: Cut| cut_view(c)).push(cut_view(cuts@[i as int])));
            }
        }
        i = i + 1;
    }
    r
}

} // verus!
