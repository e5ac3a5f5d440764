use vstd::prelude::*;

use crate::graph::{adjacency_of, edges_in_range, GraphModel, SpectralGraph};

verus! {

/// The number of adjacency entries of the first `k` vertices.
pub open spec fn entries_upto<W>(adj: Seq<Seq<(usize, W)>>, k: int) -> nat
    decreases k,
{
    if k <= 0 {
        0
    } else {
        entries_upto(adj, k - 1) + adj[k - 1].len()
    }
}

/// The number of adjacency entries of the whole graph.
pub open spec fn total_entries<W>(adj: Seq<Seq<(usize, W)>>) -> nat {
    entries_upto(adj, adj.len() as int)
}

/// Counting entries is monotone in the prefix.
pub proof fn lemma_entries_upto_mono<W>(adj: Seq<Seq<(usize, W)>>, j: int, k: int)
    requires
        0 <= j <= k,
    ensures
        entries_upto(adj, j) <= entries_upto(adj, k),
    decreases k - j,
{
    if j < k {
        lemma_entries_upto_mono(adj, j, k - 1);
    }
}

/// Lengthening one adjacency list by one entry adds one to the count.
pub proof fn lemma_entries_upto_grow<W>(adj: Seq<Seq<(usize, W)>>, i: int, row: Seq<(usize, W)>, k: int)
    requires
        0 <= i < adj.len(),
        row.len() == adj[i].len() + 1,
        k <= adj.len(),
    ensures
        entries_upto(adj.update(i, row), k) == entries_upto(adj, k) + (if i < k { 1int } else { 0int }),
    decreases k,
{
    if k > 0 {
        lemma_entries_upto_grow(adj, i, row, k - 1);
    }
}

/// Empty adjacency lists hold no entries.
pub proof fn lemma_entries_upto_empty<W>(adj: Seq<Seq<(usize, W)>>, k: int)
    requires
        k <= adj.len(),
        forall|u: int| 0 <= u < adj.len() ==> (#[trigger] adj[u]).len() == 0,
    ensures
        entries_upto(adj, k) == 0,
    decreases k,
{
    if k > 0 {
        lemma_entries_upto_empty(adj, k - 1);
    }
}

/// Building adjacency lists from in-range edges keeps every edge: the lists
/// together hold exactly one entry per recorded edge.
pub proof fn lemma_total_adjacency<W>(n: nat, edges: Seq<(usize, usize, W)>)
    requires
        edges_in_range(n, edges),
    ensures
        total_entries(adjacency_of(n, edges)) == edges.len(),
    decreases edges.len(),
{
    let adj = adjacency_of(n, edges);
    if edges.len() == 0 {
        lemma_entries_upto_empty(adj, n as int);
    } else {
        let d = edges.drop_last();
        assert forall|i: int| 0 <= i < d.len() implies (#[trigger] d[i]).0 < n && d[i].1 < n by {
            assert(d[i] == edges[i]);
        }
        lemma_total_adjacency(n, d);
        let prev = adjacency_of(n, d);
        let e = edges[edges.len() - 1];
        let u = e.0 as int;
        assert(adj =~= prev.update(u, prev[u].push((e.1, e.2))));
        lemma_entries_upto_grow(prev, u, prev[u].push((e.1, e.2)), n as int);
    }
}

/// The adjacency lists of a consistent graph hold one entry per recorded
/// edge once finalized, and none before.
pub proof fn lemma_total_entries<W>(m: GraphModel<W>)
    requires
        m.wf(),
    ensures
        total_entries(m.adj) == if m.finalized { m.pending.len() } else { 0 },
{
    if m.finalized {
        lemma_total_adjacency(m.n, m.pending);
    } else {
        lemma_entries_upto_empty(m.adj, m.n as int);
    }
}

/// The number of entries among the first `k` of `row` that lead back to `u`.
pub open spec fn row_loops<W>(row: Seq<(usize, W)>, u: int, k: int) -> nat
    decreases k,
{
    if k <= 0 {
        0
    } else {
        row_loops(row, u, k - 1) + if row[k - 1].0 as int == u { 1nat } else { 0nat }
    }
}

/// The number of self-loop entries of the first `k` vertices.
pub open spec fn loops_upto<W>(adj: Seq<Seq<(usize, W)>>, k: int) -> nat
    decreases k,
{
    if k <= 0 {
        0
    } else {
        loops_upto(adj, k - 1) + row_loops(adj[k - 1], k - 1, adj[k - 1].len() as int)
    }
}

/// The number of self-loop entries of the whole graph.
pub open spec fn loop_entries<W>(adj: Seq<Seq<(usize, W)>>) -> nat {
    loops_upto(adj, adj.len() as int)
}

/// The number of edges of a graph model: one per adjacency entry when
/// directed; when undirected an edge between two vertices has two entries
/// and a self-loop one, so each loop entry is counted twice before halving.
pub open spec fn edge_count_of<W>(m: GraphModel<W>) -> nat {
    if m.directed {
        total_entries(m.adj)
    } else {
        (total_entries(m.adj) + loop_entries(m.adj)) / 2
    }
}

proof fn lemma_row_loops_bound<W>(row: Seq<(usize, W)>, u: int, k: int)
    requires
        0 <= k <= row.len(),
    ensures
        row_loops(row, u, k) <= k,
    decreases k,
{
    if k > 0 {
        lemma_row_loops_bound(row, u, k - 1);
    }
}

proof fn lemma_loops_upto_bound<W>(adj: Seq<Seq<(usize, W)>>, k: int)
    requires
        0 <= k <= adj.len(),
    ensures
        loops_upto(adj, k) <= entries_upto(adj, k),
    decreases k,
{
    if k > 0 {
        lemma_loops_upto_bound(adj, k - 1);
        lemma_row_loops_bound(adj[k - 1], k - 1, adj[k - 1].len() as int);
    }
}

/// Every vertex of the graph has the degree of vertex 0.
pub open spec fn all_degrees_equal<W>(m: GraphModel<W>) -> bool {
    forall|v: int| 0 <= v < m.n ==> #[trigger] m.degree(v) == m.degree(0)
}

impl<W: Copy> SpectralGraph<W> {
    /// Get the degree of vertex v
    pub fn degree(&self, v: usize) -> (r: usize)
        requires
            self@.wf(),
        ensures
            r == self@.degree(v as int),
    {
        if v >= self.num_vertices() {
            return 0;
        }
        self.neighbors(v).len()
    }

    /// Count edges
    pub fn edge_count(&self) -> (r: usize)
        requires
            self@.wf(),
        ensures
            r == edge_count_of(self@),
    {
        let ghost m = self@;
        let mut total: usize = 0;
        let mut loops: usize = 0;
        let mut i: usize = 0;
        proof {
            lemma_total_entries(m);
        }
        while i < self.num_vertices()
            invariant
                m == self@,
                m.wf(),
                i <= m.n,
                total == entries_upto(m.adj, i as int),
                loops == loops_upto(m.adj, i as int),
                total_entries(m.adj) <= usize::MAX,
            decreases m.n - i,
        {
            proof {
                lemma_entries_upto_mono(m.adj, i + 1, m.n as int);
                lemma_loops_upto_bound(m.adj, i + 1);
            }
            let row = self.neighbors(i);
            let mut k: usize = 0;
            let mut row_count: usize = 0;
            while k < row.len()
                invariant
                    k <= row@.len(),
                    row_count == row_loops(row@, i as int, k as int),
                    row_count <= k,
                decreases row@.len() - k,
            {
                if row[k].0 == i {
                    row_count = row_count + 1;
                }
                k = k + 1;
            }
            total = total + row.len();
            loops = loops + row_count;
            i = i + 1;
        }
        proof {
            lemma_loops_upto_bound(m.adj, m.n as int);
        }
        if self.is_directed() {
            total
        } else {
            (total - loops) / 2 + loops
        }
    }

    /// Check if graph is regular, returns degree if so
    pub fn is_regular(&self) -> (r: Option<usize>)
        requires
            self@.wf(),
        ensures
            r is Some <==> all_degrees_equal(self@),
            r matches Some(d) ==> d == self@.degree(0),
    {
        if self.num_vertices() == 0 {
            return Some(0);
        }
        let d = self.degree(0);
        let mut i: usize = 1;
        while i < self.num_vertices()
            invariant
                self@.wf(),
                1 <= i <= self@.n,
                d == self@.degree(0),
                forall|v: int| 0 <= v < i ==> #[trigger] self@.degree(v) == d,
            decreases self@.n - i,
        {
            if self.degree(i) != d {
                return None;
            }
            i = i + 1;
        }
        Some(d)
    }

    /// Edge connectivity (approximate: minimum degree). The minimum degree
    /// is reported as a count; 0 for the empty graph.
    pub fn edge_connectivity(&self) -> (r: usize)
        requires
            self@.wf(),
        ensures
            self@.n == 0 ==> r == 0,
            self@.n > 0 ==> exists|v: int| 0 <= v < self@.n && #[trigger] self@.degree(v) == r,
            forall|v: int| 0 <= v < self@.n ==> r <= #[trigger] self@.degree(v),
    {
        if self.num_vertices() == 0 {
            return 0;
        }
        let mut min_deg = self.degree(0);
        let mut i: usize = 1;
        while i < self.num_vertices()
            invariant
                self@.wf(),
                1 <= i <= self@.n,
                exists|v: int| 0 <= v < i && #[trigger] self@.degree(v) == min_deg,
                forall|v: int| 0 <= v < i ==> min_deg <= #[trigger] self@.degree(v),
            decreases self@.n - i,
        {
            let d = self.degree(i);
            if d < min_deg {
                min_deg = d;
            }
            i = i + 1;
        }
        min_deg
    }
}

} // verus!
