use vstd::prelude::*;

use crate::error::SgError;

verus! {

/// The abstract state of a graph: its vertex count, orientation, whether it
/// has been finalized, the edges recorded so far (in order) and the
/// adjacency lists.
pub struct GraphModel<W> {
    pub n: nat,
    pub directed: bool,
    pub finalized: bool,
    pub pending: Seq<(usize, usize, W)>,
    pub adj: Seq<Seq<(usize, W)>>,
}

/// The adjacency list of `u` built from `edges`: the targets and weights of
/// the edges that leave `u`, in the order in which they were recorded.
pub open spec fn out_entries<W>(edges: Seq<(usize, usize, W)>, u: int) -> Seq<(usize, W)>
    decreases edges.len(),
{
    if edges.len() == 0 {
        Seq::empty()
    } else {
        let rest = out_entries(edges.drop_last(), u);
        let e = edges.last();
        if e.0 == u {
            rest.push((e.1, e.2))
        } else {
            rest
        }
    }
}

/// The adjacency lists of a graph on `n` vertices built from `edges`.
pub open spec fn adjacency_of<W>(n: nat, edges: Seq<(usize, usize, W)>) -> Seq<Seq<(usize, W)>> {
    Seq::new(n, |u: int| out_entries(edges, u))
}

/// Every endpoint of every edge names a vertex below `n`.
pub open spec fn edges_in_range<W>(n: nat, edges: Seq<(usize, usize, W)>) -> bool {
    forall|i: int| 0 <= i < edges.len() ==> (#[trigger] edges[i]).0 < n && edges[i].1 < n
}

/// The same edge, traversed the other way.
pub open spec fn reversed<W>(e: (usize, usize, W)) -> (usize, usize, W) {
    (e.1, e.0, e.2)
}

/// Every recorded edge is recorded in the other direction too.
pub open spec fn reverse_closed<W>(edges: Seq<(usize, usize, W)>) -> bool {
    forall|i: int| 0 <= i < edges.len() ==> edges.contains(reversed(#[trigger] edges[i]))
}

/// The entries that one call of `add_edge(u, v, w)` records: the edge itself
/// and, in an undirected graph, its reverse unless it is a self-loop.
pub open spec fn edge_entries<W>(u: usize, v: usize, w: W, directed: bool) -> Seq<(usize, usize, W)> {
    if !directed && u != v {
        seq![(u, v, w), (v, u, w)]
    } else {
        seq![(u, v, w)]
    }
}

/// Graph represented as an adjacency list with weighted edges.
/// The weight type is left open: the structure never inspects a weight.
#[derive(Debug, Clone)]
pub struct SpectralGraph<W> {
    /// Number of vertices
    pub n: usize,
    adj: Vec<Vec<(usize, W)>>,
    directed: bool,
    finalized: bool,
    pending_edges: Vec<(usize, usize, W)>,
}

impl<W> View for SpectralGraph<W> {
    type V = GraphModel<W>;

    closed spec fn view(&self) -> GraphModel<W> {
        GraphModel {
            n: self.n as nat,
            directed: self.directed,
            finalized: self.finalized,
            pending: self.pending_edges@,
            adj: self.adj@.map_values(|r: Vec<(usize, W)>| r@),
        }
    }
}

impl<W> GraphModel<W> {
    /// The consistency of a graph: adjacency lists for exactly `n` vertices,
    /// every recorded edge inside the vertex range, and adjacency lists that
    /// are empty before finalization and built from the recorded edges after.
    pub open spec fn wf(self) -> bool {
        &&& self.n <= usize::MAX
        &&& self.adj.len() == self.n
        &&& self.pending.len() <= usize::MAX
        &&& edges_in_range(self.n, self.pending)
        &&& !self.directed ==> reverse_closed(self.pending)
        &&& self.finalized ==> self.adj == adjacency_of(self.n, self.pending)
        &&& !self.finalized ==> forall|u: int| 0 <= u < self.n ==> (#[trigger] self.adj[u]).len() == 0
    }

    /// Every adjacency entry of a consistent graph names a vertex of the graph.
    pub proof fn lemma_adj_in_range(self)
        requires
            self.wf(),
        ensures
            forall|a: int, j: int| 0 <= a < self.n && 0 <= j < self.adj[a].len() ==> (#[trigger] self.adj[a][j]).0 < self.n,
    {
        assert forall|a: int, j: int| 0 <= a < self.n && 0 <= j < self.adj[a].len() implies (#[trigger] self.adj[a][j]).0 < self.n by {
            if self.finalized {
                lemma_out_entries_in_range(self.n, self.pending, a);
            }
        }
    }

    /// Number of adjacency entries of vertex `v` (0 outside the graph).
    pub open spec fn degree(self, v: int) -> nat {
        if 0 <= v < self.n { self.adj[v].len() } else { 0 }
    }
}

/// Each entry of an adjacency list built from in-range edges names a vertex in range.
pub proof fn lemma_out_entries_in_range<W>(n: nat, edges: Seq<(usize, usize, W)>, u: int)
    requires
        edges_in_range(n, edges),
    ensures
        forall|k: int| 0 <= k < out_entries(edges, u).len() ==> (#[trigger] out_entries(edges, u)[k]).0 < n,
    decreases edges.len(),
{
    if edges.len() > 0 {
        let d = edges.drop_last();
        assert forall|i: int| 0 <= i < d.len() implies (#[trigger] d[i]).0 < n && d[i].1 < n by {
            assert(d[i] == edges[i]);
        }
        lemma_out_entries_in_range(n, d, u);
        let e = edges[edges.len() - 1];
        let rest = out_entries(d, u);
        if e.0 == u {
            assert forall|k: int| 0 <= k < rest.len() + 1 implies (#[trigger] rest.push((e.1, e.2))[k]).0 < n by {
                if k < rest.len() {
                    assert(rest.push((e.1, e.2))[k] == rest[k]);
                }
            }
        }
    }
}

impl<W: Copy> SpectralGraph<W> {
    /// Create a new graph with n vertices
    pub fn new(n: usize, directed: bool) -> (g: Self)
        ensures
            g@.wf(),
            g@.n == n,
            g@.directed == directed,
            !g@.finalized,
            g@.pending.len() == 0,
    {
        let mut adj: Vec<Vec<(usize, W)>> = Vec::new();
        let mut i: usize = 0;
        while i < n
            invariant
                i <= n,
                adj@.len() == i,
                forall|u: int| 0 <= u < i ==> (#[trigger] adj@[u])@.len() == 0,
            decreases n - i,
        {
            adj.push(Vec::new());
            i = i + 1;
        }
        SpectralGraph { n, adj, directed, finalized: false, pending_edges: Vec::new() }
    }

    /// Add an edge (u, v) with weight w
    pub fn add_edge(&mut self, u: usize, v: usize, w: W) -> (r: Result<(), SgError>)
        requires
            old(self)@.wf(),
        ensures
            final(self)@.wf(),
            r is Err <==> (u >= old(self)@.n || v >= old(self)@.n || old(self)@.finalized),
            r is Err ==> r == Err::<(), SgError>(SgError::InvalidParam) && final(self)@ == old(self)@,
            r is Ok ==> final(self)@ == (GraphModel {
                pending: old(self)@.pending + edge_entries(u, v, w, old(self)@.directed),
                ..old(self)@
            }),
    {
        if u >= self.n || v >= self.n {
            return Err(SgError::InvalidParam);
        }
        if self.finalized {
            return Err(SgError::InvalidParam);
        }
        self.pending_edges.push((u, v, w));
        if !self.directed && u != v {
            self.pending_edges.push((v, u, w));
        }
        // the length of a vector fits in usize
        let _recorded: usize = self.pending_edges.len();
        assert(self.pending_edges@ =~= old(self)@.pending + edge_entries(u, v, w, old(self)@.directed));
        proof {
            let p0 = old(self)@.pending;
            let p1 = self.pending_edges@;
            if !self.directed {
                assert forall|i: int| 0 <= i < p1.len() implies p1.contains(reversed(#[trigger] p1[i])) by {
                    if i < p0.len() {
                        assert(p1[i] == p0[i]);
                        assert(p0.contains(reversed(p0[i])));
                        let j = choose|j: int| 0 <= j < p0.len() && p0[j] == reversed(p0[i]);
                        assert(p1[j] == p0[j]);
                    } else if u != v {
                        if i == p0.len() {
                            assert(p1[i + 1] == reversed(p1[i]));
                        } else {
                            assert(p1[i - 1] == reversed(p1[i]));
                        }
                    } else {
                        assert(p1[i] == reversed(p1[i]));
                    }
                }
            }
        }
        assert(self@.adj =~= old(self)@.adj);
        Ok(())
    }

    /// Finalize the graph (build adjacency list from pending edges)
    pub fn finalize(&mut self)
        requires
            old(self)@.wf(),
        ensures
            final(self)@.wf(),
            final(self)@.finalized,
            old(self)@.finalized ==> final(self)@ == old(self)@,
            final(self)@.n == old(self)@.n,
            final(self)@.directed == old(self)@.directed,
            final(self)@.pending == old(self)@.pending,
            final(self)@.adj == adjacency_of(old(self)@.n, old(self)@.pending),
    {
        if self.finalized {
            return;
        }
        let n = self.n;
        let mut rows: Vec<Vec<(usize, W)>> = Vec::new();
        let mut k: usize = 0;
        while k < n
            invariant
                k <= n,
                rows@.len() == k,
                forall|u: int| 0 <= u < k ==> (#[trigger] rows@[u])@.len() == 0,
            decreases n - k,
        {
            rows.push(Vec::new());
            k = k + 1;
        }
        let ghost edges = self.pending_edges@;
        assert(forall|u: int| 0 <= u < n ==> (#[trigger] rows@[u])@ =~= out_entries(edges.take(0), u));
        let m = self.pending_edges.len();
        let mut i: usize = 0;
        while i < m
            invariant
                i <= m,
                m == edges.len(),
                edges == self.pending_edges@,
                edges_in_range(n as nat, edges),
                rows@.len() == n,
                forall|u: int| 0 <= u < n ==> (#[trigger] rows@[u])@ == out_entries(edges.take(i as int), u),
            decreases m - i,
        {
            let (u, v, w) = self.pending_edges[i];
            assert(edges[i as int] == (u, v, w));
            let ghost before = rows@;
            rows[u].push((v, w));
            proof {
                assert(edges.take(i + 1).drop_last() =~= edges.take(i as int));
                assert(edges.take(i + 1).last() == edges[i as int]);
                assert forall|x: int| 0 <= x < n implies (#[trigger] rows@[x])@ == out_entries(edges.take(i + 1), x) by {
                    if x != u {
                        assert(rows@[x] == before[x]);
                    }
                }
            }
            i = i + 1;
        }
        assert(edges.take(m as int) =~= edges);
        self.adj = rows;
        self.finalized = true;
        assert(self@.adj =~= adjacency_of(n as nat, edges));
    }

    /// The adjacency list of vertex `v`: (neighbor, weight) pairs in the
    /// order in which the edges were recorded.
    pub fn neighbors(&self, v: usize) -> (r: &Vec<(usize, W)>)
        requires
            self@.wf(),
            v < self@.n,
        ensures
            r@ == self@.adj[v as int],
    {
        &self.adj[v]
    }

    /// Number of vertices.
    pub fn num_vertices(&self) -> (r: usize)
        ensures
            r == self@.n,
    {
        self.n
    }

    /// Whether edges are one-way.
    pub fn is_directed(&self) -> (r: bool)
        ensures
            r == self@.directed,
    {
        self.directed
    }

    /// Whether the adjacency lists have been built.
    pub fn is_finalized(&self) -> (r: bool)
        ensures
            r == self@.finalized,
    {
        self.finalized
    }
}

} // verus!
