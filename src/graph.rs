use vstd::prelude::*;

verus! {

/// Number of `true` entries of a membership mask.
pub open spec fn count_true(s: Seq<bool>) -> nat
    decreases s.len(),
{
    if s.len() == 0 {
        0
    } else {
        count_true(s.drop_last()) + if s.last() {
            1nat
        } else {
            0nat
        }
    }
}

pub proof fn lemma_count_true_bound(s: Seq<bool>)
    ensures
        count_true(s) <= s.len(),
    decreases s.len(),
{
    if s.len() > 0 {
        lemma_count_true_bound(s.drop_last());
    }
}

/// Switching one `false` entry on raises the count by one.
pub proof fn lemma_count_true_set(s: Seq<bool>, i: int)
    requires
        0 <= i < s.len(),
        !s[i],
    ensures
        count_true(s.update(i, true)) == count_true(s) + 1,
    decreases s.len(),
{
    let t = s.update(i, true);
    if i == s.len() - 1 {
        assert(t.drop_last() =~= s.drop_last());
    } else {
        assert(t.drop_last() =~= s.drop_last().update(i, true));
        lemma_count_true_set(s.drop_last(), i);
    }
}

/// A pointwise larger mask has at least as many entries switched on.
pub proof fn lemma_count_true_mono(s: Seq<bool>, t: Seq<bool>)
    requires
        s.len() == t.len(),
        forall|i: int| 0 <= i < s.len() && #[trigger] s[i] ==> t[i],
    ensures
        count_true(s) <= count_true(t),
    decreases s.len(),
{
    if s.len() > 0 {
        lemma_count_true_mono(s.drop_last(), t.drop_last());
    }
}

/// One more than the largest vertex named by `edges` (zero when there are none).
pub open spec fn vertex_bound(edges: Seq<(usize, usize)>) -> nat
    decreases edges.len(),
{
    if edges.len() == 0 {
        0
    } else {
        let rest = vertex_bound(edges.drop_last());
        let (a, b) = edges.last();
        let m = if a >= b {
            a as nat + 1
        } else {
            b as nat + 1
        };
        if rest >= m {
            rest
        } else {
            m
        }
    }
}

proof fn lemma_vertex_bound(edges: Seq<(usize, usize)>)
    ensures
        forall|e: int|
            0 <= e < edges.len() ==> (#[trigger] edges[e]).0 < vertex_bound(edges) && edges[e].1
                < vertex_bound(edges),
    decreases edges.len(),
{
    if edges.len() > 0 {
        lemma_vertex_bound(edges.drop_last());
        assert forall|e: int| 0 <= e < edges.len() - 1 implies edges[e] == edges.drop_last()[e] by {}
    }
}

/// An undirected multigraph on the vertices `0..node_count`. Edge `e` joins the two
/// vertices of `edges[e]`; edge and vertex indices are dense and stable.
pub struct UnGraph {
    pub node_count: usize,
    pub edges: Vec<(usize, usize)>,
}

impl UnGraph {
    /// Every edge joins two vertices of the graph.
    pub open spec fn wf(&self) -> bool {
        forall|e: int|
            0 <= e < self.edges@.len() ==> (#[trigger] self.edges@[e]).0 < self.node_count
                && self.edges@[e].1 < self.node_count
    }

    /// Edge `e` has `u` and `v` as its endpoints, in either order.
    pub open spec fn joins(&self, e: int, u: int, v: int) -> bool {
        let (a, b) = self.edges@[e];
        (a == u && b == v) || (a == v && b == u)
    }

    /// The graph on the vertices `0..m`, where `m` is one more than the largest endpoint.
    pub fn from_edges(edges: Vec<(usize, usize)>) -> (g: Self)
        requires
            forall|e: int|
                0 <= e < edges@.len() ==> (#[trigger] edges@[e]).0 < usize::MAX && edges@[e].1
                    < usize::MAX,
        ensures
            g.wf(),
            g.edges@ == edges@,
            g.node_count == vertex_bound(edges@),
    {
        let mut n: usize = 0;
        let mut i: usize = 0;
        while i < edges.len()
            invariant
                i <= edges@.len(),
                n == vertex_bound(edges@.subrange(0, i as int)),
                forall|e: int|
                    0 <= e < edges@.len() ==> (#[trigger] edges@[e]).0 < usize::MAX && edges@[e].1
                        < usize::MAX,
            decreases edges.len() - i,
        {
            let (a, b) = edges[i];
            let m = if a >= b {
                a + 1
            } else {
                b + 1
            };
            if m > n {
                n = m;
            }
            proof {
                assert(edges@.subrange(0, i + 1).drop_last() =~= edges@.subrange(0, i as int));
            }
            i = i + 1;
        }
        proof {
            assert(edges@.subrange(0, i as int) =~= edges@);
            lemma_vertex_bound(edges@);
        }
        UnGraph { node_count: n, edges }
    }

    pub fn node_count(&self) -> (r: usize)
        ensures
            r == self.node_count,
    {
        self.node_count
    }

    pub fn edge_count(&self) -> (r: usize)
        ensures
            r == self.edges@.len(),
    {
        self.edges.len()
    }

    /// The endpoints of edge `e`, or `None` where there is no such edge.
    pub fn edge_endpoints(&self, e: usize) -> (r: Option<(usize, usize)>)
        ensures
            e < self.edges@.len() ==> r == Some(self.edges@[e as int]),
            e >= self.edges@.len() ==> r is None,
    {
        if e < self.edges.len() {
            Some(self.edges[e])
        } else {
            None
        }
    }
}


/// A directed graph on `0..node_count` laid over the edges of an undirected graph: for edge
/// `e`, `forward[e]` says whether the arc `ends[e].0 -> ends[e].1` is present and
/// `backward[e]` whether the arc `ends[e].1 -> ends[e].0` is.
pub struct ResidualGraph {
    pub node_count: usize,
    pub ends: Vec<(usize, usize)>,
    pub forward: Vec<bool>,
    pub backward: Vec<bool>,
}

impl ResidualGraph {
    pub open spec fn wf(&self) -> bool {
        &&& self.forward@.len() == self.ends@.len()
        &&& self.backward@.len() == self.ends@.len()
        &&& forall|e: int|
            0 <= e < self.ends@.len() ==> (#[trigger] self.ends@[e]).0 < self.node_count
                && self.ends@[e].1 < self.node_count
    }

    /// Edge `e` carries an arc from `u` to `v`.
    pub open spec fn arc(&self, e: int, u: int, v: int) -> bool {
        let (a, b) = self.ends@[e];
        (self.forward@[e] && a == u && b == v) || (self.backward@[e] && a == v && b == u)
    }

    /// No arc leaves the vertex set `d`.
    pub open spec fn closed(&self, d: Seq<bool>) -> bool {
        &&& d.len() == self.node_count
        &&& forall|e: int, u: int, v: int|
            0 <= e < self.ends@.len() && #[trigger] self.arc(e, u, v) && d[u] ==> d[v]
    }

    /// `d` is the set of vertices reachable from `start`: the least vertex set that holds
    /// `start` and that no arc leaves.
    pub open spec fn reach_set(&self, start: int, d: Seq<bool>) -> bool {
        &&& self.closed(d)
        &&& d[start]
        &&& forall|d2: Seq<bool>|
            #[trigger] self.closed(d2) && d2[start] ==> forall|v: int|
                0 <= v < d.len() && d[v] ==> #[trigger] d2[v]
    }

    /// The graph whose arcs are given one by one.
    pub fn from_arcs(arcs: Vec<(usize, usize)>) -> (r: Self)
        requires
            forall|e: int|
                0 <= e < arcs@.len() ==> (#[trigger] arcs@[e]).0 < usize::MAX && arcs@[e].1
                    < usize::MAX,
        ensures
            r.wf(),
            r.ends@ == arcs@,
            r.node_count == vertex_bound(arcs@),
            forall|e: int| 0 <= e < arcs@.len() ==> #[trigger] r.forward@[e] && !r.backward@[e],
    {
        let g = UnGraph::from_edges(arcs);
        let mut forward: Vec<bool> = Vec::new();
        let mut backward: Vec<bool> = Vec::new();
        let mut i: usize = 0;
        while i < g.edges.len()
            invariant
                i <= g.edges@.len(),
                forward@.len() == i,
                backward@.len() == i,
                forall|e: int| 0 <= e < i ==> #[trigger] forward@[e] && !backward@[e],
            decreases g.edges.len() - i,
        {
            forward.push(true);
            backward.push(false);
            i = i + 1;
        }
        ResidualGraph { node_count: g.node_count, ends: g.edges, forward, backward }
    }

    /// The same graph with every arc turned around.
    pub fn reversed(self) -> (r: Self)
        requires
            self.wf(),
        ensures
            r.wf(),
            r.node_count == self.node_count,
            r.ends@ == self.ends@,
            r.forward@ == self.backward@,
            r.backward@ == self.forward@,
    {
        ResidualGraph {
            node_count: self.node_count,
            ends: self.ends,
            forward: self.backward,
            backward: self.forward,
        }
    }

    pub fn node_count(&self) -> (r: usize)
        ensures
            r == self.node_count,
    {
        self.node_count
    }

    /// The arcs present on the edges `0..i`, each as `(from, to)`, in the order of their edges.
    pub open spec fn arcs_upto(&self, i: int) -> Seq<(usize, usize)>
        decreases i,
    {
        if i <= 0 {
            Seq::empty()
        } else {
            let (a, b) = self.ends@[i - 1];
            let prev = self.arcs_upto(i - 1);
            let with_fwd = if self.forward@[i - 1] {
                prev.push((a, b))
            } else {
                prev
            };
            if self.backward@[i - 1] {
                with_fwd.push((b, a))
            } else {
                with_fwd
            }
        }
    }

    pub open spec fn arcs_view(&self) -> Seq<(usize, usize)> {
        self.arcs_upto(self.ends@.len() as int)
    }

    /// The arcs present, each as `(from, to)`, in the order of their edges.
    pub fn arcs(&self) -> (r: Vec<(usize, usize)>)
        requires
            self.wf(),
        ensures
            r@ == self.arcs_view(),
    {
        let mut r: Vec<(usize, usize)> = Vec::new();
        let mut i: usize = 0;
        while i < self.ends.len()
            invariant
                self.wf(),
                i <= self.ends@.len(),
                r@ == self.arcs_upto(i as int),
            decreases self.ends.len() - i,
        {
            let (a, b) = self.ends[i];
            if self.forward[i] {
                r.push((a, b));
            }
            if self.backward[i] {
                r.push((b, a));
            }
            i = i + 1;
        }
        r
    }

    /// Number of arcs present.
    pub fn edge_count(&self) -> (r: usize)
        requires
            self.wf(),
        ensures
            r == self.arcs_view().len(),
    {
        self.arcs().len()
    }

    /// The vertices reachable from `start` along arcs, as a membership mask.
    pub fn reachable_from(&self, start: usize) -> (d: Vec<bool>)
        requires
            self.wf(),
            start < self.node_count,
        ensures
            self.reach_set(start as int, d@),
    {
        let n = self.node_count;
        let mut visited: Vec<bool> = Vec::new();
        while visited.len() < n
            invariant
                visited@.len() <= n,
                forall|v: int| 0 <= v < visited@.len() ==> !#[trigger] visited@[v],
            decreases n - visited.len(),
        {
            visited.push(false);
        }
        proof {
            assert(count_true(visited@) == 0) by {
                lemma_count_zero(visited@);
            }
            lemma_count_true_set(visited@, start as int);
        }
        visited.set(start, true);
        let mut queue: Vec<usize> = Vec::new();
        queue.push(start);
        proof {
            assert forall|v: int| 0 <= v < n && #[trigger] visited@[v] implies queue@.contains(v as usize) by {
                assert(v == start);
                assert(queue@[0] == start);
            }
        }
        let mut head: usize = 0;
        while head < queue.len()
            invariant
                self.wf(),
                n == self.node_count,
                visited@.len() == n,
                start < n,
                visited@[start as int],
                head <= queue@.len(),
                queue@.len() == count_true(visited@),
                forall|i: int| 0 <= i < queue@.len() ==> (#[trigger] queue@[i]) < n && visited@[queue@[i] as int],
                forall|v: int| 0 <= v < n && #[trigger] visited@[v] ==> queue@.contains(v as usize),
                forall|i: int, e: int, v: int|
                    0 <= i < head && 0 <= e < self.ends@.len() && #[trigger] self.arc(e, queue@[i] as int, v)
                        ==> visited@[v],
                forall|d2: Seq<bool>|
                    #[trigger] self.closed(d2) && d2[start as int] ==> forall|v: int|
                        0 <= v < n && visited@[v] ==> #[trigger] d2[v],
            decreases n - head,
        {
            proof {
                lemma_count_true_bound(visited@);
            }
            let u = queue[head];
            let mut e: usize = 0;
            while e < self.ends.len()
                invariant
                    self.wf(),
                    n == self.node_count,
                    visited@.len() == n,
                    start < n,
                    visited@[start as int],
                    head < queue@.len(),
                    u == queue@[head as int],
                    e <= self.ends@.len(),
                    queue@.len() == count_true(visited@),
                    forall|i: int| 0 <= i < queue@.len() ==> (#[trigger] queue@[i]) < n && visited@[queue@[i] as int],
                    forall|v: int| 0 <= v < n && #[trigger] visited@[v] ==> queue@.contains(v as usize),
                    forall|i: int, f: int, v: int|
                        0 <= i < head && 0 <= f < self.ends@.len() && #[trigger] self.arc(f, queue@[i] as int, v)
                            ==> visited@[v],
                    forall|f: int, v: int|
                        0 <= f < e && #[trigger] self.arc(f, u as int, v) ==> visited@[v],
                    forall|d2: Seq<bool>|
                        #[trigger] self.closed(d2) && d2[start as int] ==> forall|v: int|
                            0 <= v < n && visited@[v] ==> #[trigger] d2[v],
                decreases self.ends.len() - e,
            {
                let (a, b) = self.ends[e];
                let mut next: Option<usize> = None;
                if self.forward[e] && a == u {
                    next = Some(b);
                } else if self.backward[e] && b == u {
                    next = Some(a);
                }
                let ghost old_visited = visited@;
                let ghost old_queue = queue@;
                if let Some(w) = next {
                    if !visited[w] {
                        proof {
                            lemma_count_true_set(visited@, w as int);
                        }
                        visited.set(w, true);
                        queue.push(w);
                        proof {
                            assert(self.arc(e as int, u as int, w as int));
                            assert forall|v: int| 0 <= v < n && #[trigger] visited@[v] implies queue@.contains(v as usize) by {
                                if v != w {
                                    assert(old_visited[v]);
                                    let j = choose|j: int| 0 <= j < old_queue.len() && old_queue[j] == v as usize;
                                    assert(queue@[j] == v as usize);
                                } else {
                                    assert(queue@[queue@.len() - 1] == w);
                                }
                            }
                            assert forall|d2: Seq<bool>|
                                #[trigger] self.closed(d2) && d2[start as int] implies forall|v: int|
                                    0 <= v < n && visited@[v] ==> #[trigger] d2[v] by {
                                assert(old_visited[u as int]);
                                assert(d2[u as int]);
                                assert(d2[w as int]);
                            }
                        }
                    }
                }
                proof {
                    assert forall|f: int, v: int|
                        0 <= f < e + 1 && #[trigger] self.arc(f, u as int, v) implies visited@[v] by {
                        if f < e {
                            assert(old_visited[v]);
                        }
                    }
                    assert forall|i: int, f: int, v: int|
                        0 <= i < head && 0 <= f < self.ends@.len() && #[trigger] self.arc(f, queue@[i] as int, v)
                            implies visited@[v] by {
                        assert(queue@[i] == old_queue[i]);
                        assert(old_visited[v]);
                    }
                }
                e = e + 1;
            }
            proof {
                assert forall|i: int, f: int, v: int|
                    0 <= i < head + 1 && 0 <= f < self.ends@.len() && #[trigger] self.arc(f, queue@[i] as int, v)
                        implies visited@[v] by {
                    if i == head {
                        assert(self.arc(f, u as int, v));
                    }
                }
            }
            head = head + 1;
        }
        proof {
            assert forall|f: int, x: int, y: int|
                0 <= f < self.ends@.len() && #[trigger] self.arc(f, x, y) && visited@[x] implies visited@[y] by {
                let (a, b) = self.ends@[f];
                assert(0 <= x < n);
                assert(queue@.contains(x as usize));
                let j = choose|j: int| 0 <= j < queue@.len() && queue@[j] == x as usize;
                assert(self.arc(f, queue@[j] as int, y));
            }
        }
        visited
    }
}

pub proof fn lemma_count_zero(s: Seq<bool>)
    requires
        forall|i: int| 0 <= i < s.len() ==> !#[trigger] s[i],
    ensures
        count_true(s) == 0,
    decreases s.len(),
{
    if s.len() > 0 {
        lemma_count_zero(s.drop_last());
    }
}

} // verus!
