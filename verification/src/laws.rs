use vstd::prelude::*;

use crate::builders::{
    after_build, complete_pairs, complete_row, complete_rows, cycle_pairs, entries_of, grid_cell, grid_pairs, grid_row,
    grid_rows, lemma_grid_index, path_pairs, star_pairs,
};
use crate::graph::{adjacency_of, edge_entries, edges_in_range, out_entries, reversed, GraphModel};
use crate::properties::{
    edge_count_of, lemma_total_adjacency, loop_entries, loops_upto, row_loops, total_entries,
};
use crate::articulation::cut_vertex_count;
use crate::cut::{is_cut_vertex, lemma_avoiding_refl, lemma_avoiding_step, reachable_avoiding};
use crate::dfs::symmetric;
use crate::reach::{connected, count_true, has_edge, lemma_count_true_none, lemma_reachable_refl, lemma_reachable_step, reachable};

verus! {

/// Every entry of the adjacency list of `u` comes from a recorded edge leaving `u`.
pub proof fn lemma_out_entries_recorded<W>(edges: Seq<(usize, usize, W)>, u: int, k: int)
    requires
        0 <= k < out_entries(edges, u).len(),
    ensures
        edges.contains((u as usize, out_entries(edges, u)[k].0, out_entries(edges, u)[k].1)),
        0 <= u,
    decreases edges.len(),
{
    let d = edges.drop_last();
    let rest = out_entries(d, u);
    let e = edges.last();
    if e.0 == u && k == rest.len() {
        assert(edges[edges.len() - 1] == e);
    } else {
        lemma_out_entries_recorded(d, u, k);
        let j = choose|j: int| 0 <= j < d.len() && d[j] == (u as usize, rest[k].0, rest[k].1);
        assert(edges[j] == d[j]);
    }
}

/// Every recorded edge leaving `u` appears in the adjacency list of `u`.
pub proof fn lemma_recorded_out_entries<W>(edges: Seq<(usize, usize, W)>, i: int)
    requires
        0 <= i < edges.len(),
    ensures
        out_entries(edges, edges[i].0 as int).contains((edges[i].1, edges[i].2)),
    decreases edges.len(),
{
    let u = edges[i].0 as int;
    let d = edges.drop_last();
    let rest = out_entries(d, u);
    if i == edges.len() - 1 {
        assert(out_entries(edges, u)[rest.len() as int] == (edges[i].1, edges[i].2));
    } else {
        assert(d[i] == edges[i]);
        lemma_recorded_out_entries(d, i);
        let k = choose|k: int| 0 <= k < rest.len() && rest[k] == (edges[i].1, edges[i].2);
        if edges.last().0 == u {
            assert(out_entries(edges, u)[k] == rest[k]);
        }
    }
}

/// In an undirected graph every adjacency entry from `a` to `b` is matched
/// by one from `b` to `a`.
pub proof fn law_undirected_symmetric<W>(m: GraphModel<W>, a: int, b: int)
    requires
        m.wf(),
        !m.directed,
        has_edge(m, a, b),
    ensures
        has_edge(m, b, a),
{
    let k = choose|k: int| 0 <= k < m.adj[a].len() && (#[trigger] m.adj[a][k]).0 == b;
    if !m.finalized {
        assert(m.adj[a].len() == 0);
    } else {
        let edges = m.pending;
        assert(m.adj[a] == out_entries(edges, a));
        let entry = out_entries(edges, a)[k];
        assert(entry.0 as int == b);
        assert((a as usize) as int == a);
        lemma_out_entries_recorded(edges, a, k);
        let i = choose|i: int| 0 <= i < edges.len() && edges[i] == (a as usize, entry.0, entry.1);
        assert(edges.contains(reversed(edges[i])));
        let j = choose|j: int| 0 <= j < edges.len() && edges[j] == reversed(edges[i]);
        assert(edges[j].0 as int == b && edges[j].1 as int == a);
        assert(edges[j].0 < m.n);
        lemma_recorded_out_entries(edges, j);
        let row = out_entries(edges, b);
        assert(m.adj[b] == row);
        let l = choose|l: int| 0 <= l < row.len() && row[l] == (edges[j].1, edges[j].2);
        assert(m.adj[b][l].0 == a);
    }
}

/// An undirected graph is symmetric: every adjacency entry has its reverse.
pub proof fn law_undirected_graph_symmetric<W>(m: GraphModel<W>)
    requires
        m.wf(),
        !m.directed,
    ensures
        symmetric(m),
{
    assert forall|a: int, b: int| #[trigger] has_edge(m, a, b) implies has_edge(m, b, a) by {
        law_undirected_symmetric(m, a, b);
    }
}

/// Both ends of every pair are vertices below `n`, and no pair is a self-loop.
pub open spec fn proper_pairs(pairs: Seq<(usize, usize)>, n: nat) -> bool {
    forall|i: int| 0 <= i < pairs.len() ==> (#[trigger] pairs[i]).0 < n && pairs[i].1 < n && pairs[i].0 != pairs[i].1
}

proof fn lemma_proper_concat(a: Seq<(usize, usize)>, b: Seq<(usize, usize)>, n: nat)
    requires
        proper_pairs(a, n),
        proper_pairs(b, n),
    ensures
        proper_pairs(a + b, n),
{
    assert forall|i: int| 0 <= i < (a + b).len() implies (#[trigger] (a + b)[i]).0 < n && (a + b)[i].1 < n
        && (a + b)[i].0 != (a + b)[i].1 by {
        if i < a.len() {
            assert((a + b)[i] == a[i]);
        } else {
            assert((a + b)[i] == b[i - a.len()]);
        }
    }
}

/// On a fresh undirected graph, building from pairs inside the graph gives one edge per pair.
proof fn lemma_fresh_edge_count<W>(g: GraphModel<W>, pairs: Seq<(usize, usize)>, w: W)
    requires
        g.wf(),
        !g.finalized,
        !g.directed,
        g.pending.len() == 0,
        forall|i: int| 0 <= i < pairs.len() ==> (#[trigger] pairs[i]).0 < g.n && pairs[i].1 < g.n,
    ensures
        edge_count_of(after_build(g, pairs, w)) == pairs.len(),
{
    let calls = weighted(pairs, w);
    lemma_entries_of_calls(pairs, w, false);
    let pending = g.pending + entries_of(pairs, w, false);
    assert(pending =~= call_entries(calls, false));
    lemma_call_entries_in_range(calls, g.n, false);
    lemma_recorded_adjacency(g.n, calls, false);
}

/// A fresh undirected graph: valid, not finalized, no edge recorded yet.
pub open spec fn fresh_undirected<W>(g: GraphModel<W>) -> bool {
    &&& g.wf()
    &&& !g.finalized
    &&& !g.directed
    &&& g.pending.len() == 0
}

/// A path on `n` vertices has `n - 1` edges.
pub proof fn law_path_edge_count<W>(g: GraphModel<W>, w: W)
    requires
        fresh_undirected(g),
        g.n >= 1,
    ensures
        edge_count_of(after_build(g, path_pairs(g.n), w)) == g.n - 1,
{
    lemma_fresh_edge_count(g, path_pairs(g.n), w);
}

/// A star on `n` vertices has `n - 1` edges.
pub proof fn law_star_edge_count<W>(g: GraphModel<W>, w: W)
    requires
        fresh_undirected(g),
        g.n >= 1,
    ensures
        edge_count_of(after_build(g, star_pairs(g.n), w)) == g.n - 1,
{
    lemma_fresh_edge_count(g, star_pairs(g.n), w);
}

/// A cycle on `n` vertices has `n` edges (a single vertex carries one self-loop).
pub proof fn law_cycle_edge_count<W>(g: GraphModel<W>, w: W)
    requires
        fresh_undirected(g),
    ensures
        edge_count_of(after_build(g, cycle_pairs(g.n), w)) == g.n,
{
    let pairs = cycle_pairs(g.n);
    assert forall|i: int| 0 <= i < pairs.len() implies (#[trigger] pairs[i]).0 < g.n && pairs[i].1 < g.n by {
        if i + 1 < g.n {
            vstd::arithmetic::div_mod::lemma_small_mod((i + 1) as nat, g.n);
        } else {
            vstd::arithmetic::div_mod::lemma_mod_self_0(g.n as int);
        }
    }
    lemma_fresh_edge_count(g, pairs, w);
}

proof fn lemma_complete_rows(n: nat, i: int)
    requires
        0 <= i <= n,
        n <= usize::MAX,
    ensures
        2 * complete_rows(n, i).len() == i * (2 * n - i - 1),
        proper_pairs(complete_rows(n, i), n),
    decreases i,
{
    if i > 0 {
        lemma_complete_rows(n, i - 1);
        let row = complete_row(n, i - 1, n as int);
        assert(row.len() == n - i);
        assert(complete_rows(n, i) == complete_rows(n, i - 1) + row);
        assert(complete_rows(n, i).len() == complete_rows(n, i - 1).len() + row.len());
        assert forall|k: int| 0 <= k < row.len() implies (#[trigger] row[k]).0 < n && row[k].1 < n && row[k].0 != row[k].1 by {}
        lemma_proper_concat(complete_rows(n, i - 1), row, n);
        assert(i * (2 * n - i - 1) == (i - 1) * (2 * n - (i - 1) - 1) + 2 * (n - i)) by (nonlinear_arith);
    } else {
        assert(i * (2 * n - i - 1) == 0) by (nonlinear_arith)
            requires
                i == 0,
        ;
    }
}

/// A complete graph on `n` vertices has `n (n - 1) / 2` edges (stated doubled).
pub proof fn law_complete_edge_count<W>(g: GraphModel<W>, w: W)
    requires
        fresh_undirected(g),
    ensures
        2 * edge_count_of(after_build(g, complete_pairs(g.n), w)) == g.n * (g.n - 1),
{
    lemma_complete_rows(g.n, g.n as int);
    lemma_fresh_edge_count(g, complete_pairs(g.n), w);
    assert(g.n * (2 * g.n - g.n - 1) == g.n * (g.n - 1));
}

proof fn lemma_grid_row(rows: nat, cols: nat, r: int, c: int)
    requires
        0 <= r < rows,
        0 <= c <= cols,
        cols >= 1,
        rows * cols <= usize::MAX,
    ensures
        grid_row(rows, cols, r, c).len() == (if c < cols { c } else { cols - 1 }) + (if r + 1 < rows { c } else { 0 }),
        proper_pairs(grid_row(rows, cols, r, c), rows * cols),
    decreases c,
{
    if c > 0 {
        lemma_grid_row(rows, cols, r, c - 1);
        assert(grid_row(rows, cols, r, c) == grid_row(rows, cols, r, c - 1) + grid_cell(rows, cols, r, c - 1));
        lemma_grid_index(rows as int, cols as int, r, c - 1);
        let cell = grid_cell(rows, cols, r, c - 1);
        let n = rows * cols;
        assert(cell.len() == (if c < cols { 1int } else { 0int }) + (if r + 1 < rows { 1int } else { 0int }));
        assert forall|k: int| 0 <= k < cell.len() implies (#[trigger] cell[k]).0 < n && cell[k].1 < n && cell[k].0 != cell[k].1 by {}
        lemma_proper_concat(grid_row(rows, cols, r, c - 1), cell, n);
    }
}

proof fn lemma_grid_rows(rows: nat, cols: nat, r: int)
    requires
        0 <= r <= rows,
        rows >= 1,
        cols >= 1,
        rows * cols <= usize::MAX,
    ensures
        grid_rows(rows, cols, r).len() == r * (cols - 1) + cols * (if r < rows { r } else { rows - 1 }),
        proper_pairs(grid_rows(rows, cols, r), rows * cols),
    decreases r,
{
    if r > 0 {
        lemma_grid_rows(rows, cols, r - 1);
        lemma_grid_row(rows, cols, r - 1, cols as int);
        assert(grid_rows(rows, cols, r) == grid_rows(rows, cols, r - 1) + grid_row(rows, cols, r - 1, cols as int));
        lemma_proper_concat(grid_rows(rows, cols, r - 1), grid_row(rows, cols, r - 1, cols as int), rows * cols);
        assert(r * (cols - 1) == (r - 1) * (cols - 1) + (cols - 1)) by (nonlinear_arith);
        if r < rows {
            assert(cols * r == cols * (r - 1) + cols) by (nonlinear_arith);
        } else {
            assert(cols * (rows - 1) == cols * (r - 1));
        }
    } else {
        assert(0 * (cols - 1) == 0) by (nonlinear_arith);
        assert(cols * 0 == 0) by (nonlinear_arith);
    }
}

/// A `rows` by `cols` grid has `rows (cols - 1) + cols (rows - 1)` edges.
pub proof fn law_grid_edge_count<W>(g: GraphModel<W>, rows: nat, cols: nat, w: W)
    requires
        fresh_undirected(g),
        rows >= 1,
        cols >= 1,
        rows * cols == g.n,
    ensures
        edge_count_of(after_build(g, grid_pairs(rows, cols), w)) == rows * (cols - 1) + cols * (rows - 1),
{
    lemma_grid_rows(rows, cols, rows as int);
    lemma_fresh_edge_count(g, grid_pairs(rows, cols), w);
}

/// The entries recorded by successful calls `add_edge(u, v, w)`, one call per triple, in order.
pub open spec fn call_entries<W>(calls: Seq<(usize, usize, W)>, directed: bool) -> Seq<(usize, usize, W)>
    decreases calls.len(),
{
    if calls.len() == 0 {
        Seq::empty()
    } else {
        let c = calls.last();
        call_entries(calls.drop_last(), directed) + edge_entries(c.0, c.1, c.2, directed)
    }
}

/// The degree that the calls give vertex `u`: one for each call that starts
/// at `u` and, in an undirected graph, one for each call that ends at `u`
/// without being a self-loop.
pub open spec fn call_degree<W>(calls: Seq<(usize, usize, W)>, u: int, directed: bool) -> int
    decreases calls.len(),
{
    if calls.len() == 0 {
        0
    } else {
        let c = calls.last();
        call_degree(calls.drop_last(), u, directed) + (if c.0 as int == u { 1int } else { 0int }) + (if !directed
            && c.1 as int == u && c.0 != c.1 { 1int } else { 0int })
    }
}

/// The number of recorded self-loop entries.
pub open spec fn edge_loops<W>(edges: Seq<(usize, usize, W)>) -> nat
    decreases edges.len(),
{
    if edges.len() == 0 {
        0
    } else {
        edge_loops(edges.drop_last()) + if edges.last().0 == edges.last().1 { 1nat } else { 0nat }
    }
}

/// The pairs, each with weight `w`.
pub open spec fn weighted<W>(pairs: Seq<(usize, usize)>, w: W) -> Seq<(usize, usize, W)> {
    Seq::new(pairs.len(), |i: int| (pairs[i].0, pairs[i].1, w))
}

/// A successful `add_edge(c.0, c.1, c.2)` extends the entries of the calls before it.
pub proof fn lemma_call_entries_push<W>(calls: Seq<(usize, usize, W)>, c: (usize, usize, W), directed: bool)
    ensures
        call_entries(calls.push(c), directed) == call_entries(calls, directed) + edge_entries(c.0, c.1, c.2, directed),
{
    assert(calls.push(c).drop_last() =~= calls);
}

proof fn lemma_entries_of_calls<W>(pairs: Seq<(usize, usize)>, w: W, directed: bool)
    ensures
        entries_of(pairs, w, directed) == call_entries(weighted(pairs, w), directed),
    decreases pairs.len(),
{
    if pairs.len() > 0 {
        lemma_entries_of_calls(pairs.drop_last(), w, directed);
        assert(weighted(pairs, w).drop_last() =~= weighted(pairs.drop_last(), w));
    }
}

proof fn lemma_call_entries_in_range<W>(calls: Seq<(usize, usize, W)>, n: nat, directed: bool)
    requires
        forall|i: int| 0 <= i < calls.len() ==> (#[trigger] calls[i]).0 < n && calls[i].1 < n,
    ensures
        edges_in_range(n, call_entries(calls, directed)),
    decreases calls.len(),
{
    if calls.len() > 0 {
        let d = calls.drop_last();
        assert forall|i: int| 0 <= i < d.len() implies (#[trigger] d[i]).0 < n && d[i].1 < n by {
            assert(d[i] == calls[i]);
        }
        lemma_call_entries_in_range(d, n, directed);
        let c = calls[calls.len() - 1];
        let a = call_entries(d, directed);
        let b = edge_entries(c.0, c.1, c.2, directed);
        let e = call_entries(calls, directed);
        assert(e == a + b);
        assert forall|i: int| 0 <= i < e.len() implies (#[trigger] e[i]).0 < n && e[i].1 < n by {
            if i < a.len() {
                assert(e[i] == a[i]);
            } else {
                assert(e[i] == b[i - a.len()]);
            }
        }
    }
}

proof fn lemma_edge_loops_concat<W>(a: Seq<(usize, usize, W)>, b: Seq<(usize, usize, W)>)
    ensures
        edge_loops(a + b) == edge_loops(a) + edge_loops(b),
    decreases b.len(),
{
    if b.len() == 0 {
        assert(a + b =~= a);
    } else {
        lemma_edge_loops_concat(a, b.drop_last());
        assert((a + b).drop_last() =~= a + b.drop_last());
        assert((a + b).last() == b.last());
    }
}

/// Each call records two entries and no loop, or a single loop entry, in an
/// undirected graph; one entry in a directed graph.
proof fn lemma_call_counts<W>(calls: Seq<(usize, usize, W)>, directed: bool)
    ensures
        directed ==> call_entries(calls, directed).len() == calls.len(),
        !directed ==> call_entries(calls, directed).len() + edge_loops(call_entries(calls, directed)) == 2 * calls.len(),
    decreases calls.len(),
{
    if calls.len() > 0 {
        let c = calls.last();
        lemma_call_counts(calls.drop_last(), directed);
        let b = edge_entries(c.0, c.1, c.2, directed);
        lemma_edge_loops_concat(call_entries(calls.drop_last(), directed), b);
        let empty = Seq::<(usize, usize, W)>::empty();
        let one = seq![(c.0, c.1, c.2)];
        assert(one.drop_last() =~= empty);
        assert(edge_loops(empty) == 0);
        assert(edge_loops(one) == if c.0 == c.1 { 1nat } else { 0nat });
        assert(call_entries(calls, directed) == call_entries(calls.drop_last(), directed) + b);
        if !directed && c.0 != c.1 {
            assert(b.drop_last() =~= one);
            assert(edge_loops(b) == edge_loops(one) + 0);
        } else {
            assert(b =~= one);
        }
    }
}

proof fn lemma_row_loops_push<W>(row: Seq<(usize, W)>, x: (usize, W), u: int, k: int)
    requires
        0 <= k <= row.len(),
    ensures
        row_loops(row.push(x), u, k) == row_loops(row, u, k),
    decreases k,
{
    if k > 0 {
        lemma_row_loops_push(row, x, u, k - 1);
    }
}

proof fn lemma_loops_upto_grow<W>(adj: Seq<Seq<(usize, W)>>, i: int, x: (usize, W), k: int)
    requires
        0 <= i < adj.len(),
        k <= adj.len(),
    ensures
        loops_upto(adj.update(i, adj[i].push(x)), k) == loops_upto(adj, k) + (if i < k && x.0 as int == i { 1int } else { 0int }),
    decreases k,
{
    if k > 0 {
        lemma_loops_upto_grow(adj, i, x, k - 1);
        if k - 1 == i {
            lemma_row_loops_push(adj[i], x, i, adj[i].len() as int);
        }
    }
}

proof fn lemma_loops_upto_empty<W>(adj: Seq<Seq<(usize, W)>>, k: int)
    requires
        k <= adj.len(),
        forall|u: int| 0 <= u < adj.len() ==> (#[trigger] adj[u]).len() == 0,
    ensures
        loops_upto(adj, k) == 0,
    decreases k,
{
    if k > 0 {
        lemma_loops_upto_empty(adj, k - 1);
    }
}

/// The adjacency lists built from in-range edges hold one loop entry per recorded loop.
proof fn lemma_loop_adjacency<W>(n: nat, edges: Seq<(usize, usize, W)>)
    requires
        edges_in_range(n, edges),
    ensures
        loop_entries(adjacency_of(n, edges)) == edge_loops(edges),
    decreases edges.len(),
{
    let adj = adjacency_of(n, edges);
    if edges.len() == 0 {
        lemma_loops_upto_empty(adj, n as int);
    } else {
        let d = edges.drop_last();
        assert forall|i: int| 0 <= i < d.len() implies (#[trigger] d[i]).0 < n && d[i].1 < n by {
            assert(d[i] == edges[i]);
        }
        lemma_loop_adjacency(n, d);
        let prev = adjacency_of(n, d);
        let e = edges[edges.len() - 1];
        let u = e.0 as int;
        assert(adj =~= prev.update(u, prev[u].push((e.1, e.2))));
        lemma_loops_upto_grow(prev, u, (e.1, e.2), n as int);
    }
}

proof fn lemma_call_degree<W>(calls: Seq<(usize, usize, W)>, u: int, directed: bool)
    ensures
        out_entries(call_entries(calls, directed), u).len() == call_degree(calls, u, directed),
    decreases calls.len(),
{
    if calls.len() > 0 {
        let c = calls.last();
        lemma_call_degree(calls.drop_last(), u, directed);
        lemma_out_entries_concat(call_entries(calls.drop_last(), directed), edge_entries(c.0, c.1, c.2, directed), u);
        let e = edge_entries(c.0, c.1, c.2, directed);
        let empty = Seq::<(usize, usize, W)>::empty();
        let one = seq![(c.0, c.1, c.2)];
        assert(one.drop_last() =~= empty);
        assert(out_entries(empty, u).len() == 0);
        assert(out_entries(one, u).len() == out_entries(empty, u).len() + (if c.0 as int == u { 1int } else { 0int }));
        if !directed && c.0 != c.1 {
            assert(e.drop_last() =~= one);
            assert(out_entries(e, u).len() == out_entries(one, u).len() + (if c.1 as int == u { 1int } else { 0int }));
        } else {
            assert(e =~= one);
        }
    }
}

proof fn lemma_recorded_adjacency<W>(n: nat, calls: Seq<(usize, usize, W)>, directed: bool)
    requires
        edges_in_range(n, call_entries(calls, directed)),
    ensures
        (if directed { total_entries(adjacency_of(n, call_entries(calls, directed))) } else {
            (total_entries(adjacency_of(n, call_entries(calls, directed))) + loop_entries(
                adjacency_of(n, call_entries(calls, directed)),
            )) / 2
        }) == calls.len(),
{
    let e = call_entries(calls, directed);
    lemma_total_adjacency(n, e);
    lemma_loop_adjacency(n, e);
    lemma_call_counts(calls, directed);
}

/// After a sequence of successful `add_edge` calls and `finalize`, the graph
/// has one edge per call, self-loops included, and each vertex has the
/// degree that the calls give it.
pub proof fn law_recorded_edges<W>(m: GraphModel<W>, calls: Seq<(usize, usize, W)>)
    requires
        m.wf(),
        m.finalized,
        m.pending == call_entries(calls, m.directed),
    ensures
        edge_count_of(m) == calls.len(),
        forall|v: int| 0 <= v < m.n ==> #[trigger] m.degree(v) == call_degree(calls, v, m.directed),
{
    lemma_recorded_adjacency(m.n, calls, m.directed);
    assert forall|v: int| 0 <= v < m.n implies #[trigger] m.degree(v) == call_degree(calls, v, m.directed) by {
        lemma_call_degree(calls, v, m.directed);
    }
}

/// Recording a pair records its forward entry.
proof fn lemma_entries_of_forward<W>(pairs: Seq<(usize, usize)>, w: W, directed: bool, i: int)
    requires
        0 <= i < pairs.len(),
    ensures
        entries_of(pairs, w, directed).contains((pairs[i].0, pairs[i].1, w)),
    decreases pairs.len(),
{
    let d = pairs.drop_last();
    let a = entries_of(d, w, directed);
    let p = pairs[pairs.len() - 1];
    let b = edge_entries(p.0, p.1, w, directed);
    assert(entries_of(pairs, w, directed) == a + b);
    if i == pairs.len() - 1 {
        assert((a + b)[a.len() as int] == b[0]);
    } else {
        assert(d[i] == pairs[i]);
        lemma_entries_of_forward(d, w, directed, i);
        let j = choose|j: int| 0 <= j < a.len() && a[j] == (pairs[i].0, pairs[i].1, w);
        assert((a + b)[j] == a[j]);
    }
}

/// After building from `pairs`, each pair `(a, b)` of the graph gives an
/// adjacency entry from `a` to `b`.
pub proof fn lemma_built_edge<W>(g: GraphModel<W>, pairs: Seq<(usize, usize)>, w: W, i: int)
    requires
        g.wf(),
        !g.finalized,
        0 <= i < pairs.len(),
        pairs[i].0 < g.n,
    ensures
        has_edge(after_build(g, pairs, w), pairs[i].0 as int, pairs[i].1 as int),
{
    lemma_entries_of_forward(pairs, w, g.directed, i);
    lemma_built_entry(g, pairs, w, (pairs[i].0, pairs[i].1, w));
}

/// Building a path graph connects it.
pub proof fn law_path_connected<W>(g: GraphModel<W>, w: W)
    requires
        g.wf(),
        !g.finalized,
    ensures
        connected(after_build(g, path_pairs(g.n), w)),
{
    let m = after_build(g, path_pairs(g.n), w);
    assert forall|v: int| 0 <= v < m.n implies #[trigger] reachable(m, 0, v) by {
        lemma_path_prefix_reachable(g, w, v);
    }
}

proof fn lemma_path_prefix_reachable<W>(g: GraphModel<W>, w: W, v: int)
    requires
        g.wf(),
        !g.finalized,
        0 <= v < g.n,
    ensures
        reachable(after_build(g, path_pairs(g.n), w), 0, v),
    decreases v,
{
    let m = after_build(g, path_pairs(g.n), w);
    if v == 0 {
        lemma_reachable_refl(m, 0);
    } else {
        lemma_path_prefix_reachable(g, w, v - 1);
        lemma_built_edge(g, path_pairs(g.n), w, v - 1);
        lemma_reachable_step(m, 0, v - 1, v);
    }
}

proof fn lemma_cycle_prefix_reachable<W>(g: GraphModel<W>, w: W, v: int)
    requires
        g.wf(),
        !g.finalized,
        0 <= v < g.n,
    ensures
        reachable(after_build(g, cycle_pairs(g.n), w), 0, v),
    decreases v,
{
    let m = after_build(g, cycle_pairs(g.n), w);
    if v == 0 {
        lemma_reachable_refl(m, 0);
    } else {
        lemma_cycle_prefix_reachable(g, w, v - 1);
        vstd::arithmetic::div_mod::lemma_small_mod(v as nat, g.n);
        lemma_built_edge(g, cycle_pairs(g.n), w, v - 1);
        lemma_reachable_step(m, 0, v - 1, v);
    }
}

/// Building a cycle graph connects it.
pub proof fn law_cycle_connected<W>(g: GraphModel<W>, w: W)
    requires
        g.wf(),
        !g.finalized,
    ensures
        connected(after_build(g, cycle_pairs(g.n), w)),
{
    let m = after_build(g, cycle_pairs(g.n), w);
    assert forall|v: int| 0 <= v < m.n implies #[trigger] reachable(m, 0, v) by {
        lemma_cycle_prefix_reachable(g, w, v);
    }
}

/// Building a star graph connects it: the center reaches every vertex.
pub proof fn law_star_connected<W>(g: GraphModel<W>, w: W)
    requires
        g.wf(),
        !g.finalized,
    ensures
        connected(after_build(g, star_pairs(g.n), w)),
{
    let m = after_build(g, star_pairs(g.n), w);
    assert forall|v: int| 0 <= v < m.n implies #[trigger] reachable(m, 0, v) by {
        lemma_reachable_refl(m, 0);
        if v > 0 {
            lemma_built_edge(g, star_pairs(g.n), w, v - 1);
            lemma_reachable_step(m, 0, 0, v);
        }
    }
}

proof fn lemma_complete_rows_has(n: nat, i: int, j: int)
    requires
        1 <= i <= n,
        1 <= j < n,
        n <= usize::MAX,
    ensures
        complete_rows(n, i)[j - 1] == (0usize, j as usize),
        j - 1 < complete_rows(n, i).len(),
    decreases i,
{
    if i == 1 {
        assert(complete_rows(n, 0).len() == 0);
        assert(complete_rows(n, 1) == complete_rows(n, 0) + complete_row(n, 0, n as int));
    } else {
        lemma_complete_rows_has(n, i - 1, j);
        assert(complete_rows(n, i) == complete_rows(n, i - 1) + complete_row(n, i - 1, n as int));
    }
}

/// Building a complete graph connects it.
pub proof fn law_complete_connected<W>(g: GraphModel<W>, w: W)
    requires
        g.wf(),
        !g.finalized,
    ensures
        connected(after_build(g, complete_pairs(g.n), w)),
{
    let m = after_build(g, complete_pairs(g.n), w);
    assert forall|v: int| 0 <= v < m.n implies #[trigger] reachable(m, 0, v) by {
        lemma_reachable_refl(m, 0);
        if v > 0 {
            lemma_complete_rows_has(g.n, g.n as int, v);
            lemma_built_edge(g, complete_pairs(g.n), w, v - 1);
            lemma_reachable_step(m, 0, 0, v);
        }
    }
}

proof fn lemma_contains_left<A>(a: Seq<A>, b: Seq<A>, x: A)
    requires
        a.contains(x),
    ensures
        (a + b).contains(x),
{
    let j = choose|j: int| 0 <= j < a.len() && a[j] == x;
    assert((a + b)[j] == x);
}

proof fn lemma_contains_right<A>(a: Seq<A>, b: Seq<A>, x: A)
    requires
        b.contains(x),
    ensures
        (a + b).contains(x),
{
    let j = choose|j: int| 0 <= j < b.len() && b[j] == x;
    assert((a + b)[a.len() + j] == x);
}

/// The pairs of cell `(r, c)` stay among the pairs of every longer prefix of its row.
proof fn lemma_grid_row_has(rows: nat, cols: nat, r: int, c: int, upto: int, x: (usize, usize))
    requires
        0 <= c < upto,
        grid_cell(rows, cols, r, c).contains(x),
    ensures
        grid_row(rows, cols, r, upto).contains(x),
    decreases upto,
{
    assert(grid_row(rows, cols, r, upto) == grid_row(rows, cols, r, upto - 1) + grid_cell(rows, cols, r, upto - 1));
    if c == upto - 1 {
        lemma_contains_right(grid_row(rows, cols, r, upto - 1), grid_cell(rows, cols, r, upto - 1), x);
    } else {
        lemma_grid_row_has(rows, cols, r, c, upto - 1, x);
        lemma_contains_left(grid_row(rows, cols, r, upto - 1), grid_cell(rows, cols, r, upto - 1), x);
    }
}

/// The pairs of row `r` stay among the pairs of every longer prefix of rows.
proof fn lemma_grid_rows_has(rows: nat, cols: nat, r: int, upto: int, x: (usize, usize))
    requires
        0 <= r < upto,
        grid_row(rows, cols, r, cols as int).contains(x),
    ensures
        grid_rows(rows, cols, upto).contains(x),
    decreases upto,
{
    assert(grid_rows(rows, cols, upto) == grid_rows(rows, cols, upto - 1) + grid_row(rows, cols, upto - 1, cols as int));
    if r == upto - 1 {
        lemma_contains_right(grid_rows(rows, cols, upto - 1), grid_row(rows, cols, upto - 1, cols as int), x);
    } else {
        lemma_grid_rows_has(rows, cols, r, upto - 1, x);
        lemma_contains_left(grid_rows(rows, cols, upto - 1), grid_row(rows, cols, upto - 1, cols as int), x);
    }
}

/// Cell `(r, c)` of a built grid has an adjacency entry to its right
/// neighbor and to the cell below, where those exist.
proof fn lemma_grid_cell_edges<W>(g: GraphModel<W>, rows: nat, cols: nat, w: W, r: int, c: int)
    requires
        g.wf(),
        !g.finalized,
        rows * cols == g.n,
        0 <= r < rows,
        0 <= c < cols,
    ensures
        c + 1 < cols ==> has_edge(after_build(g, grid_pairs(rows, cols), w), r * cols + c, r * cols + c + 1),
        r + 1 < rows ==> has_edge(after_build(g, grid_pairs(rows, cols), w), r * cols + c, r * cols + c + cols),
{
    lemma_grid_index(rows as int, cols as int, r, c);
    let v = r * cols + c;
    let cell = grid_cell(rows, cols, r, c);
    let pairs = grid_pairs(rows, cols);
    if c + 1 < cols {
        let x = (v as usize, (v + 1) as usize);
        assert(cell[0] == x);
        lemma_grid_row_has(rows, cols, r, c, cols as int, x);
        lemma_grid_rows_has(rows, cols, r, rows as int, x);
        let i = choose|i: int| 0 <= i < pairs.len() && pairs[i] == x;
        lemma_built_edge(g, pairs, w, i);
    }
    if r + 1 < rows {
        let x = (v as usize, (v + cols) as usize);
        assert(cell[cell.len() - 1] == x);
        lemma_grid_row_has(rows, cols, r, c, cols as int, x);
        lemma_grid_rows_has(rows, cols, r, rows as int, x);
        let i = choose|i: int| 0 <= i < pairs.len() && pairs[i] == x;
        lemma_built_edge(g, pairs, w, i);
    }
}

proof fn lemma_grid_reachable<W>(g: GraphModel<W>, rows: nat, cols: nat, w: W, r: int, c: int)
    requires
        g.wf(),
        !g.finalized,
        rows * cols == g.n,
        0 <= r < rows,
        0 <= c < cols,
    ensures
        reachable(after_build(g, grid_pairs(rows, cols), w), 0, r * cols + c),
    decreases r, c,
{
    let m = after_build(g, grid_pairs(rows, cols), w);
    if r == 0 && c == 0 {
        lemma_reachable_refl(m, 0);
    } else if r == 0 {
        lemma_grid_reachable(g, rows, cols, w, 0, c - 1);
        lemma_grid_cell_edges(g, rows, cols, w, 0, c - 1);
        lemma_reachable_step(m, 0, c - 1, c);
    } else {
        lemma_grid_reachable(g, rows, cols, w, r - 1, c);
        lemma_grid_cell_edges(g, rows, cols, w, r - 1, c);
        assert((r - 1) * cols + c + cols == r * cols + c) by (nonlinear_arith);
        lemma_reachable_step(m, 0, (r - 1) * cols + c, r * cols + c);
    }
}

/// Building a grid graph connects it.
pub proof fn law_grid_connected<W>(g: GraphModel<W>, rows: nat, cols: nat, w: W)
    requires
        g.wf(),
        !g.finalized,
        rows * cols == g.n,
    ensures
        connected(after_build(g, grid_pairs(rows, cols), w)),
{
    let m = after_build(g, grid_pairs(rows, cols), w);
    assert forall|v: int| 0 <= v < m.n implies #[trigger] reachable(m, 0, v) by {
        assert(cols > 0) by (nonlinear_arith)
            requires
                rows * cols == g.n,
                v < g.n,
                0 <= v,
        ;
        let r = v / cols as int;
        let c = v % cols as int;
        vstd::arithmetic::div_mod::lemma_fundamental_div_mod(v, cols as int);
        vstd::arithmetic::div_mod::lemma_mod_pos_bound(v, cols as int);
        vstd::arithmetic::div_mod::lemma_div_pos_is_pos(v, cols as int);
        assert(r < rows) by (nonlinear_arith)
            requires
                v == cols * r + c,
                0 <= c,
                v < rows * cols,
                0 < cols,
        ;
        assert(v == r * cols + c) by (nonlinear_arith)
            requires
                v == cols * r + c,
        ;
        lemma_grid_reachable(g, rows, cols, w, r, c);
    }
}

/// How many adjacency entries of vertex `u` an undirected graph gains from
/// the pairs: one for each pair that starts at `u`, and one for each pair
/// that ends at `u` without being a self-loop.
pub open spec fn incidences(pairs: Seq<(usize, usize)>, u: int) -> int
    decreases pairs.len(),
{
    if pairs.len() == 0 {
        0
    } else {
        let p = pairs.last();
        incidences(pairs.drop_last(), u) + (if p.0 as int == u { 1int } else { 0int }) + (if p.1 as int == u
            && p.0 != p.1 { 1int } else { 0int })
    }
}

proof fn lemma_out_entries_concat<W>(a: Seq<(usize, usize, W)>, b: Seq<(usize, usize, W)>, u: int)
    ensures
        out_entries(a + b, u) == out_entries(a, u) + out_entries(b, u),
    decreases b.len(),
{
    if b.len() == 0 {
        assert(a + b =~= a);
        assert(out_entries(a, u) + out_entries(b, u) =~= out_entries(a, u));
    } else {
        lemma_out_entries_concat(a, b.drop_last(), u);
        assert((a + b).drop_last() =~= a + b.drop_last());
        assert((a + b).last() == b.last());
        let e = b.last();
        if e.0 == u {
            assert(out_entries(a, u) + out_entries(b.drop_last(), u).push((e.1, e.2)) =~= (out_entries(a, u)
                + out_entries(b.drop_last(), u)).push((e.1, e.2)));
        }
    }
}

proof fn lemma_out_entries_pair<W>(x: usize, y: usize, w: W, u: int)
    ensures
        out_entries(edge_entries(x, y, w, false), u).len() == (if x as int == u { 1int } else { 0int }) + (if y as int
            == u && x != y { 1int } else { 0int }),
{
    let e = edge_entries(x, y, w, false);
    let empty = Seq::<(usize, usize, W)>::empty();
    let one = seq![(x, y, w)];
    assert(one.drop_last() =~= empty);
    assert(out_entries(empty, u).len() == 0);
    assert(out_entries(one, u).len() == out_entries(empty, u).len() + (if x as int == u { 1int } else { 0int }));
    if x != y {
        assert(e.drop_last() =~= one);
        assert(out_entries(e, u).len() == out_entries(one, u).len() + (if y as int == u { 1int } else { 0int }));
    } else {
        assert(e =~= one);
    }
}

/// On a fresh undirected graph, the degree of a vertex after building from
/// `pairs` is its number of incidences in `pairs`.
pub proof fn lemma_built_degree<W>(g: GraphModel<W>, pairs: Seq<(usize, usize)>, w: W, u: int)
    requires
        fresh_undirected(g),
        0 <= u < g.n,
    ensures
        after_build(g, pairs, w).degree(u) == incidences(pairs, u),
{
    let pending = g.pending + entries_of(pairs, w, false);
    assert(pending =~= entries_of(pairs, w, false));
    lemma_entries_incidences(pairs, w, u);
}

proof fn lemma_entries_incidences<W>(pairs: Seq<(usize, usize)>, w: W, u: int)
    ensures
        out_entries(entries_of(pairs, w, false), u).len() == incidences(pairs, u),
    decreases pairs.len(),
{
    if pairs.len() > 0 {
        let p = pairs.last();
        lemma_entries_incidences(pairs.drop_last(), w, u);
        lemma_out_entries_concat(entries_of(pairs.drop_last(), w, false), edge_entries(p.0, p.1, w, false), u);
        lemma_out_entries_pair(p.0, p.1, w, u);
    }
}

proof fn lemma_star_incidences(n: nat, k: int, v: int)
    requires
        0 <= k < n,
        0 <= v < n,
        n <= usize::MAX,
    ensures
        incidences(star_pairs(n).take(k), v) == if v == 0 { k } else if v <= k { 1int } else { 0int },
    decreases k,
{
    if k > 0 {
        lemma_star_incidences(n, k - 1, v);
        assert(star_pairs(n).take(k).drop_last() =~= star_pairs(n).take(k - 1));
    } else {
        assert(star_pairs(n).take(k).len() == 0);
    }
}

/// In a star on `n` vertices the center has degree `n - 1` and every other vertex degree 1.
pub proof fn law_star_degrees<W>(g: GraphModel<W>, w: W, v: int)
    requires
        fresh_undirected(g),
        g.n >= 1,
        0 <= v < g.n,
    ensures
        after_build(g, star_pairs(g.n), w).degree(v) == if v == 0 { g.n - 1 } else { 1 },
{
    lemma_built_degree(g, star_pairs(g.n), w, v);
    lemma_star_incidences(g.n, g.n - 1, v);
    assert(star_pairs(g.n).take(g.n - 1) =~= star_pairs(g.n));
}

proof fn lemma_incidences_concat(a: Seq<(usize, usize)>, b: Seq<(usize, usize)>, u: int)
    ensures
        incidences(a + b, u) == incidences(a, u) + incidences(b, u),
    decreases b.len(),
{
    if b.len() == 0 {
        assert(a + b =~= a);
    } else {
        lemma_incidences_concat(a, b.drop_last(), u);
        assert((a + b).drop_last() =~= a + b.drop_last());
        assert((a + b).last() == b.last());
    }
}

proof fn lemma_cycle_incidences(n: nat, k: int, v: int)
    requires
        2 <= n <= usize::MAX,
        0 <= k <= n,
        0 <= v < n,
    ensures
        incidences(cycle_pairs(n).take(k), v) == (if v < k { 1int } else { 0int }) + (if v >= 1 {
            if v <= k { 1int } else { 0int }
        } else {
            if k == n { 1int } else { 0int }
        }),
    decreases k,
{
    if k > 0 {
        lemma_cycle_incidences(n, k - 1, v);
        assert(cycle_pairs(n).take(k).drop_last() =~= cycle_pairs(n).take(k - 1));
        if k < n {
            vstd::arithmetic::div_mod::lemma_small_mod(k as nat, n);
        } else {
            vstd::arithmetic::div_mod::lemma_mod_self_0(n as int);
        }
    } else {
        assert(cycle_pairs(n).take(k).len() == 0);
    }
}

/// A cycle on `n >= 2` vertices is 2-regular.
pub proof fn law_cycle_degrees<W>(g: GraphModel<W>, w: W, v: int)
    requires
        fresh_undirected(g),
        g.n >= 2,
        0 <= v < g.n,
    ensures
        after_build(g, cycle_pairs(g.n), w).degree(v) == 2,
{
    lemma_built_degree(g, cycle_pairs(g.n), w, v);
    lemma_cycle_incidences(g.n, g.n as int, v);
    assert(cycle_pairs(g.n).take(g.n as int) =~= cycle_pairs(g.n));
}

proof fn lemma_path_incidences(n: nat, k: int, v: int)
    requires
        1 <= n <= usize::MAX,
        0 <= k <= n - 1,
        0 <= v < n,
    ensures
        incidences(path_pairs(n).take(k), v) == (if v < k { 1int } else { 0int }) + (if 1 <= v <= k { 1int } else { 0int }),
    decreases k,
{
    if k > 0 {
        lemma_path_incidences(n, k - 1, v);
        assert(path_pairs(n).take(k).drop_last() =~= path_pairs(n).take(k - 1));
    } else {
        assert(path_pairs(n).take(k).len() == 0);
    }
}

/// In a path on `n >= 2` vertices the two ends have degree 1 and every other vertex degree 2.
pub proof fn law_path_degrees<W>(g: GraphModel<W>, w: W, v: int)
    requires
        fresh_undirected(g),
        g.n >= 2,
        0 <= v < g.n,
    ensures
        after_build(g, path_pairs(g.n), w).degree(v) == if v == 0 || v == g.n - 1 { 1int } else { 2int },
{
    lemma_built_degree(g, path_pairs(g.n), w, v);
    lemma_path_incidences(g.n, g.n - 1, v);
    assert(path_pairs(g.n).take(g.n - 1) =~= path_pairs(g.n));
}

proof fn lemma_complete_row_incidences(n: nat, r: int, upto: int, v: int)
    requires
        0 <= r < n,
        r + 1 <= upto <= n,
        n <= usize::MAX,
        0 <= v < n,
    ensures
        incidences(complete_row(n, r, upto), v) == if v == r { upto - r - 1 } else if r < v < upto { 1int } else { 0int },
    decreases upto,
{
    if upto > r + 1 {
        lemma_complete_row_incidences(n, r, upto - 1, v);
        assert(complete_row(n, r, upto).drop_last() =~= complete_row(n, r, upto - 1));
    } else {
        assert(complete_row(n, r, upto).len() == 0);
    }
}

proof fn lemma_complete_incidences(n: nat, i: int, v: int)
    requires
        0 <= i <= n,
        n <= usize::MAX,
        0 <= v < n,
    ensures
        incidences(complete_rows(n, i), v) == (if v < i { n - v - 1 } else { 0int }) + (if v < i { v } else { i }),
    decreases i,
{
    if i > 0 {
        lemma_complete_incidences(n, i - 1, v);
        lemma_complete_row_incidences(n, i - 1, n as int, v);
        lemma_incidences_concat(complete_rows(n, i - 1), complete_row(n, i - 1, n as int), v);
        assert(complete_rows(n, i) == complete_rows(n, i - 1) + complete_row(n, i - 1, n as int));
    }
}

/// A complete graph on `n` vertices is `(n - 1)`-regular.
pub proof fn law_complete_degrees<W>(g: GraphModel<W>, w: W, v: int)
    requires
        fresh_undirected(g),
        0 <= v < g.n,
    ensures
        after_build(g, complete_pairs(g.n), w).degree(v) == g.n - 1,
{
    lemma_built_degree(g, complete_pairs(g.n), w, v);
    lemma_complete_incidences(g.n, g.n as int, v);
}

/// Every recorded entry `(a, b, w)` of a built graph gives an adjacency entry from `a` to `b`.
proof fn lemma_built_entry<W>(g: GraphModel<W>, pairs: Seq<(usize, usize)>, w: W, e: (usize, usize, W))
    requires
        g.wf(),
        !g.finalized,
        entries_of(pairs, w, g.directed).contains(e),
        e.0 < g.n,
    ensures
        has_edge(after_build(g, pairs, w), e.0 as int, e.1 as int),
{
    let m = after_build(g, pairs, w);
    let es = entries_of(pairs, w, g.directed);
    let j = choose|j: int| 0 <= j < es.len() && es[j] == e;
    let all = g.pending + es;
    assert(all[g.pending.len() + j] == es[j]);
    lemma_recorded_out_entries(all, g.pending.len() + j);
    let a = e.0 as int;
    let row = out_entries(all, a);
    assert(m.adj[a] == row);
    let k = choose|k: int| 0 <= k < row.len() && row[k] == (e.1, e.2);
    assert(m.adj[a][k].0 == e.1);
}

/// Recording a pair in an undirected graph records its reverse entry too.
proof fn lemma_entries_of_backward<W>(pairs: Seq<(usize, usize)>, w: W, i: int)
    requires
        0 <= i < pairs.len(),
        pairs[i].0 != pairs[i].1,
    ensures
        entries_of(pairs, w, false).contains((pairs[i].1, pairs[i].0, w)),
    decreases pairs.len(),
{
    let d = pairs.drop_last();
    let a = entries_of(d, w, false);
    let p = pairs[pairs.len() - 1];
    let b = edge_entries(p.0, p.1, w, false);
    assert(entries_of(pairs, w, false) == a + b);
    if i == pairs.len() - 1 {
        assert((a + b)[a.len() + 1int] == b[1]);
    } else {
        assert(d[i] == pairs[i]);
        lemma_entries_of_backward(d, w, i);
        let j = choose|j: int| 0 <= j < a.len() && a[j] == (pairs[i].1, pairs[i].0, w);
        assert((a + b)[j] == a[j]);
    }
}

proof fn lemma_complete_rows_contain(n: nat, i: int, j: int, k: int)
    requires
        0 <= i < j < n,
        i + 1 <= k <= n,
        n <= usize::MAX,
    ensures
        complete_rows(n, k).contains((i as usize, j as usize)),
    decreases k,
{
    assert(complete_rows(n, k) == complete_rows(n, k - 1) + complete_row(n, k - 1, n as int));
    if k == i + 1 {
        let row = complete_row(n, i, n as int);
        assert(row[j - i - 1] == (i as usize, j as usize));
        assert((complete_rows(n, k - 1) + row)[complete_rows(n, k - 1).len() + j - i - 1] == (i as usize, j as usize));
    } else {
        lemma_complete_rows_contain(n, i, j, k - 1);
        let rows = complete_rows(n, k - 1);
        let l = choose|l: int| 0 <= l < rows.len() && rows[l] == (i as usize, j as usize);
        assert((rows + complete_row(n, k - 1, n as int))[l] == rows[l]);
    }
}

/// In a complete undirected graph every two distinct vertices are adjacent.
proof fn lemma_complete_adjacent<W>(g: GraphModel<W>, w: W, a: int, b: int)
    requires
        g.wf(),
        !g.finalized,
        !g.directed,
        0 <= a < g.n,
        0 <= b < g.n,
        a != b,
    ensures
        has_edge(after_build(g, complete_pairs(g.n), w), a, b),
{
    let pairs = complete_pairs(g.n);
    let (i, j) = if a < b { (a, b) } else { (b, a) };
    lemma_complete_rows_contain(g.n, i, j, g.n as int);
    let l = choose|l: int| 0 <= l < pairs.len() && pairs[l] == (i as usize, j as usize);
    if a < b {
        lemma_entries_of_forward(pairs, w, false, l);
        lemma_built_entry(g, pairs, w, (a as usize, b as usize, w));
    } else {
        lemma_entries_of_backward(pairs, w, l);
        lemma_built_entry(g, pairs, w, (a as usize, b as usize, w));
    }
}

/// A complete undirected graph has no articulation point.
pub proof fn law_complete_no_cut_vertex<W>(g: GraphModel<W>, w: W)
    requires
        g.wf(),
        !g.finalized,
        !g.directed,
    ensures
        cut_vertex_count(after_build(g, complete_pairs(g.n), w)) == 0,
{
    let m = after_build(g, complete_pairs(g.n), w);
    let cuts = Seq::new(m.n, |v: int| is_cut_vertex(m, v));
    assert forall|v: int| 0 <= v < cuts.len() implies !(#[trigger] cuts[v]) by {
        assert forall|a: int, b: int|
            0 <= a < m.n && 0 <= b < m.n && a != v && b != v && #[trigger] reachable(m, a, b)
                implies #[trigger] reachable_avoiding(m, v, a, b) by {
            lemma_avoiding_refl(m, v, a);
            if a != b {
                lemma_complete_adjacent(g, w, a, b);
                lemma_avoiding_step(m, v, a, a, b);
            }
        }
    }
    lemma_count_true_none(cuts);
}

/// Every recorded entry of an undirected graph comes from a pair, in one
/// direction or the other.
proof fn lemma_entries_of_source<W>(pairs: Seq<(usize, usize)>, w: W, e: (usize, usize, W))
    requires
        entries_of(pairs, w, false).contains(e),
    ensures
        exists|i: int| 0 <= i < pairs.len() && ((e.0, e.1) == #[trigger] pairs[i] || (e.1, e.0) == pairs[i]),
    decreases pairs.len(),
{
    let d = pairs.drop_last();
    let a = entries_of(d, w, false);
    let p = pairs[pairs.len() - 1];
    let b = edge_entries(p.0, p.1, w, false);
    assert(entries_of(pairs, w, false) == a + b);
    let j = choose|j: int| 0 <= j < (a + b).len() && (a + b)[j] == e;
    if j < a.len() {
        assert(a[j] == e);
        lemma_entries_of_source(d, w, e);
        let i = choose|i: int| 0 <= i < d.len() && ((e.0, e.1) == #[trigger] d[i] || (e.1, e.0) == d[i]);
        assert(pairs[i] == d[i]);
    } else {
        assert(b[j - a.len()] == e);
        assert((e.0, e.1) == pairs[pairs.len() - 1] || (e.1, e.0) == pairs[pairs.len() - 1]);
    }
}

/// In a path built on a fresh undirected graph, adjacency entries join consecutive vertices only.
proof fn lemma_path_entries<W>(g: GraphModel<W>, w: W, x: int, u: int)
    requires
        fresh_undirected(g),
        has_edge(after_build(g, path_pairs(g.n), w), x, u),
    ensures
        u == x + 1 || u + 1 == x,
{
    let m = after_build(g, path_pairs(g.n), w);
    let pairs = path_pairs(g.n);
    let es = entries_of(pairs, w, false);
    assert(g.pending + es =~= es);
    let k = choose|k: int| 0 <= k < m.adj[x].len() && (#[trigger] m.adj[x][k]).0 == u;
    assert(m.adj[x] == out_entries(es, x));
    lemma_out_entries_recorded(es, x, k);
    let e = (x as usize, out_entries(es, x)[k].0, out_entries(es, x)[k].1);
    lemma_entries_of_source(pairs, w, e);
}

/// In a path, consecutive vertices are adjacent both ways.
proof fn lemma_path_adjacent<W>(g: GraphModel<W>, w: W, i: int)
    requires
        g.wf(),
        !g.finalized,
        !g.directed,
        0 <= i,
        i + 1 < g.n,
    ensures
        has_edge(after_build(g, path_pairs(g.n), w), i, i + 1),
        has_edge(after_build(g, path_pairs(g.n), w), i + 1, i),
{
    let pairs = path_pairs(g.n);
    lemma_built_edge(g, pairs, w, i);
    lemma_entries_of_backward(pairs, w, i);
    lemma_built_entry(g, pairs, w, (pairs[i].1, pairs[i].0, w));
}

/// Along a path, a vertex reaches every other vertex whose whole stretch
/// misses `v`, without passing through `v`.
proof fn lemma_path_stretch<W>(g: GraphModel<W>, w: W, v: int, a: int, b: int)
    requires
        g.wf(),
        !g.finalized,
        !g.directed,
        0 <= a < g.n,
        0 <= b < g.n,
        !(a <= v <= b),
        !(b <= v <= a),
    ensures
        reachable_avoiding(after_build(g, path_pairs(g.n), w), v, a, b),
    decreases if a <= b { b - a } else { a - b },
{
    let m = after_build(g, path_pairs(g.n), w);
    if a == b {
        lemma_avoiding_refl(m, v, a);
    } else if a < b {
        lemma_path_stretch(g, w, v, a, b - 1);
        lemma_path_adjacent(g, w, b - 1);
        lemma_avoiding_step(m, v, a, b - 1, b);
    } else {
        lemma_path_stretch(g, w, v, a, b + 1);
        lemma_path_adjacent(g, w, b);
        lemma_avoiding_step(m, v, a, b + 1, b);
    }
}

pub(crate) proof fn lemma_count_interior(n: nat, k: int)
    requires
        2 <= n,
        0 <= k <= n,
    ensures
        count_true(Seq::new(k as nat, |v: int| 0 < v < n - 1)) == if k <= 1 { 0 } else if k < n { k - 1 } else { n - 2 },
    decreases k,
{
    if k > 0 {
        lemma_count_interior(n, k - 1);
        assert(Seq::new(k as nat, |v: int| 0 < v < n - 1).drop_last() =~= Seq::new((k - 1) as nat, |v: int| 0 < v < n - 1));
    }
}

/// In a path on `n >= 2` vertices the articulation points are the `n - 2`
/// inner vertices.
pub proof fn law_path_cut_vertices<W>(g: GraphModel<W>, w: W)
    requires
        fresh_undirected(g),
        g.n >= 2,
    ensures
        forall|v: int| 0 <= v < g.n ==> (is_cut_vertex(after_build(g, path_pairs(g.n), w), v) <==> 0 < v < g.n - 1),
        cut_vertex_count(after_build(g, path_pairs(g.n), w)) == g.n - 2,
{
    let m = after_build(g, path_pairs(g.n), w);
    let n = g.n;
    assert forall|v: int| 0 <= v < n implies (is_cut_vertex(m, v) <==> 0 < v < n - 1) by {
        if 0 < v < n - 1 {
            lemma_path_adjacent(g, w, v - 1);
            lemma_path_adjacent(g, w, v);
            lemma_reachable_refl(m, v - 1);
            lemma_reachable_step(m, v - 1, v - 1, v);
            lemma_reachable_step(m, v - 1, v, v + 1);
            let below = |x: int| 0 <= x < v;
            assert forall|x: int, u: int| #[trigger] below(x) && #[trigger] has_edge(m, x, u) && u != v implies below(u) by {
                lemma_path_entries(g, w, x, u);
            }
            crate::cut::lemma_closed_blocks(m, below, v, v - 1, v + 1);
            assert(reachable(m, v - 1, v + 1) && !reachable_avoiding(m, v, v - 1, v + 1));
        } else {
            assert forall|a: int, b: int|
                0 <= a < m.n && 0 <= b < m.n && a != v && b != v && #[trigger] reachable(m, a, b)
                    implies #[trigger] reachable_avoiding(m, v, a, b) by {
                lemma_path_stretch(g, w, v, a, b);
            }
        }
    }
    let cuts = Seq::new(n, |v: int| is_cut_vertex(m, v));
    assert(cuts =~= Seq::new(n, |v: int| 0 < v < n - 1));
    lemma_count_interior(n, n as int);
}

/// In a star built on a fresh undirected graph, every adjacency entry touches the center.
proof fn lemma_star_entries<W>(g: GraphModel<W>, w: W, x: int, u: int)
    requires
        fresh_undirected(g),
        has_edge(after_build(g, star_pairs(g.n), w), x, u),
    ensures
        x == 0 || u == 0,
{
    let m = after_build(g, star_pairs(g.n), w);
    let pairs = star_pairs(g.n);
    let es = entries_of(pairs, w, false);
    assert(g.pending + es =~= es);
    let k = choose|k: int| 0 <= k < m.adj[x].len() && (#[trigger] m.adj[x][k]).0 == u;
    assert(m.adj[x] == out_entries(es, x));
    lemma_out_entries_recorded(es, x, k);
    let e = (x as usize, out_entries(es, x)[k].0, out_entries(es, x)[k].1);
    lemma_entries_of_source(pairs, w, e);
}

/// In a star, the center and each other vertex are adjacent both ways.
proof fn lemma_star_adjacent<W>(g: GraphModel<W>, w: W, i: int)
    requires
        g.wf(),
        !g.finalized,
        !g.directed,
        0 < i < g.n,
    ensures
        has_edge(after_build(g, star_pairs(g.n), w), 0, i),
        has_edge(after_build(g, star_pairs(g.n), w), i, 0),
{
    let pairs = star_pairs(g.n);
    lemma_built_edge(g, pairs, w, i - 1);
    lemma_entries_of_backward(pairs, w, i - 1);
    lemma_built_entry(g, pairs, w, (pairs[i - 1].1, pairs[i - 1].0, w));
}

/// In a star on `n >= 3` vertices the center is the one articulation point.
pub proof fn law_star_cut_vertices<W>(g: GraphModel<W>, w: W)
    requires
        fresh_undirected(g),
        g.n >= 3,
    ensures
        forall|v: int| 0 <= v < g.n ==> (is_cut_vertex(after_build(g, star_pairs(g.n), w), v) <==> v == 0),
        cut_vertex_count(after_build(g, star_pairs(g.n), w)) == 1,
{
    let m = after_build(g, star_pairs(g.n), w);
    let n = g.n;
    assert forall|v: int| 0 <= v < n implies (is_cut_vertex(m, v) <==> v == 0) by {
        if v == 0 {
            lemma_star_adjacent(g, w, 1);
            lemma_star_adjacent(g, w, 2);
            lemma_reachable_refl(m, 1);
            lemma_reachable_step(m, 1, 1, 0);
            lemma_reachable_step(m, 1, 0, 2);
            let leaf = |x: int| x == 1;
            assert forall|x: int, u: int| #[trigger] leaf(x) && #[trigger] has_edge(m, x, u) && u != 0 implies leaf(u) by {
                lemma_star_entries(g, w, x, u);
            }
            crate::cut::lemma_closed_blocks(m, leaf, 0, 1, 2);
            assert(reachable(m, 1, 2) && !reachable_avoiding(m, 0, 1, 2));
        } else {
            assert forall|a: int, b: int|
                0 <= a < m.n && 0 <= b < m.n && a != v && b != v && #[trigger] reachable(m, a, b)
                    implies #[trigger] reachable_avoiding(m, v, a, b) by {
                lemma_avoiding_refl(m, v, a);
                if a != 0 {
                    lemma_star_adjacent(g, w, a);
                    lemma_avoiding_step(m, v, a, a, 0);
                }
                if b != 0 {
                    lemma_star_adjacent(g, w, b);
                    lemma_avoiding_step(m, v, a, 0, b);
                }
            }
        }
    }
    let cuts = Seq::new(n, |v: int| is_cut_vertex(m, v));
    assert(cuts =~= Seq::new(n, |v: int| v == 0));
    lemma_count_center(n, n as int);
}

pub(crate) proof fn lemma_count_center(n: nat, k: int)
    requires
        1 <= k <= n,
    ensures
        count_true(Seq::new(k as nat, |v: int| v == 0)) == 1,
    decreases k,
{
    let s = Seq::new(k as nat, |v: int| v == 0);
    assert(s.drop_last() =~= Seq::new((k - 1) as nat, |v: int| v == 0));
    assert(s.last() == (k - 1 == 0));
    if k > 1 {
        lemma_count_center(n, k - 1);
    } else {
        assert(s.drop_last().len() == 0);
        assert(count_true(s.drop_last()) == 0);
    }
}

} // verus!
