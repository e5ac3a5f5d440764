use vstd::prelude::*;

use crate::error::SgError;
use crate::graph::{adjacency_of, edge_entries, GraphModel, SpectralGraph};

verus! {

/// The entries recorded by calling `add_edge(a, b, w)` for each pair `(a, b)` in order.
pub open spec fn entries_of<W>(pairs: Seq<(usize, usize)>, w: W, directed: bool) -> Seq<(usize, usize, W)>
    decreases pairs.len(),
{
    if pairs.len() == 0 {
        Seq::empty()
    } else {
        entries_of(pairs.drop_last(), w, directed) + edge_entries(pairs.last().0, pairs.last().1, w, directed)
    }
}

/// The graph after calling `add_edge(a, b, w)` for each pair `(a, b)` of
/// `pairs`: the entries are recorded, unless the graph was already finalized,
/// in which case every call is refused and nothing changes.
pub open spec fn recording<W>(g: GraphModel<W>, pairs: Seq<(usize, usize)>, w: W) -> GraphModel<W> {
    GraphModel {
        pending: if g.finalized { g.pending } else { g.pending + entries_of(pairs, w, g.directed) },
        ..g
    }
}

/// The graph after adding the edges `pairs` with weight `w` and finalizing.
pub open spec fn after_build<W>(g: GraphModel<W>, pairs: Seq<(usize, usize)>, w: W) -> GraphModel<W> {
    let r = recording(g, pairs, w);
    GraphModel { finalized: true, adj: adjacency_of(r.n, r.pending), ..r }
}

/// Pairs `(i, j)` with `i < j`, for the first `i` rows of a complete graph on `n` vertices.
pub open spec fn complete_rows(n: nat, i: int) -> Seq<(usize, usize)>
    decreases i,
{
    if i <= 0 {
        Seq::empty()
    } else {
        complete_rows(n, i - 1) + complete_row(n, i - 1, n as int)
    }
}

/// Pairs `(i, j)` with `i < j < upto`.
pub open spec fn complete_row(n: nat, i: int, upto: int) -> Seq<(usize, usize)> {
    Seq::new(if upto > i + 1 { (upto - i - 1) as nat } else { 0 }, |k: int| (i as usize, (i + 1 + k) as usize))
}

/// Every pair `(i, j)` with `i < j < n`, ordered by `i`, then by `j`.
pub open spec fn complete_pairs(n: nat) -> Seq<(usize, usize)> {
    complete_rows(n, n as int)
}

/// Pairs `(i, i + 1)` for consecutive vertices.
pub open spec fn path_pairs(n: nat) -> Seq<(usize, usize)> {
    Seq::new(if n > 0 { (n - 1) as nat } else { 0 }, |i: int| (i as usize, (i + 1) as usize))
}

/// Pairs `(i, (i + 1) mod n)` for every vertex.
pub open spec fn cycle_pairs(n: nat) -> Seq<(usize, usize)> {
    Seq::new(n, |i: int| (i as usize, ((i + 1) % (n as int)) as usize))
}

/// Pairs `(0, i)` for every other vertex.
pub open spec fn star_pairs(n: nat) -> Seq<(usize, usize)> {
    Seq::new(if n > 0 { (n - 1) as nat } else { 0 }, |i: int| (0usize, (i + 1) as usize))
}

/// The pairs recorded for grid cell `(r, c)`: to its right neighbor and to
/// the cell below, where those exist.
pub open spec fn grid_cell(rows: nat, cols: nat, r: int, c: int) -> Seq<(usize, usize)> {
    let v = r * cols + c;
    (if c + 1 < cols { seq![(v as usize, (v + 1) as usize)] } else { Seq::empty() })
        + (if r + 1 < rows { seq![(v as usize, (v + cols) as usize)] } else { Seq::empty() })
}

/// The pairs of the first `c` cells of grid row `r`.
pub open spec fn grid_row(rows: nat, cols: nat, r: int, c: int) -> Seq<(usize, usize)>
    decreases c,
{
    if c <= 0 {
        Seq::empty()
    } else {
        grid_row(rows, cols, r, c - 1) + grid_cell(rows, cols, r, c - 1)
    }
}

/// The pairs of the first `r` grid rows.
pub open spec fn grid_rows(rows: nat, cols: nat, r: int) -> Seq<(usize, usize)>
    decreases r,
{
    if r <= 0 {
        Seq::empty()
    } else {
        grid_rows(rows, cols, r - 1) + grid_row(rows, cols, r - 1, cols as int)
    }
}

/// The pairs of a `rows` by `cols` grid, cell by cell in row-major order.
pub open spec fn grid_pairs(rows: nat, cols: nat) -> Seq<(usize, usize)> {
    grid_rows(rows, cols, rows as int)
}

/// Recording one more pair extends the recorded entries by that pair's entries.
pub proof fn lemma_entries_of_push<W>(pairs: Seq<(usize, usize)>, p: (usize, usize), w: W, directed: bool)
    ensures
        entries_of(pairs.push(p), w, directed) == entries_of(pairs, w, directed) + edge_entries(p.0, p.1, w, directed),
{
    assert(pairs.push(p).drop_last() =~= pairs);
}


/// Cell `(r, c)` of a `rows` by `cols` grid has a linear index below
/// `rows * cols`, and so does the cell below it when there is one.
pub proof fn lemma_grid_index(rows: int, cols: int, r: int, c: int)
    requires
        0 <= r < rows,
        0 <= c < cols,
    ensures
        0 <= r * cols + c < rows * cols,
        c + 1 < cols ==> r * cols + c + 1 < rows * cols,
        r + 1 < rows ==> r * cols + c + cols < rows * cols,
{
    assert(r * cols + c < (r + 1) * cols) by (nonlinear_arith)
        requires
            0 <= c < cols,
            0 <= r,
    ;
    assert((r + 1) * cols <= rows * cols) by (nonlinear_arith)
        requires
            r + 1 <= rows,
            0 < cols,
    ;
    assert(0 <= r * cols) by (nonlinear_arith)
        requires
            0 <= r,
            0 <= cols,
    ;
    if r + 1 < rows {
        assert((r + 2) * cols <= rows * cols) by (nonlinear_arith)
            requires
                r + 2 <= rows,
                0 < cols,
        ;
        assert((r + 2) * cols == r * cols + cols + cols) by (nonlinear_arith);
    }
    assert((r + 1) * cols == r * cols + cols) by (nonlinear_arith);
}

impl<W: Copy> SpectralGraph<W> {
    /// One step of a builder: `add_edge(a, b, w)` between two vertices of the graph.
    fn record_pair(
        &mut self,
        a: usize,
        b: usize,
        w: W,
        Ghost(g0): Ghost<GraphModel<W>>,
        Ghost(pre): Ghost<Seq<(usize, usize)>>,
    )
        requires
            g0.wf(),
            old(self)@ == recording(g0, pre, w),
            old(self)@.wf(),
            a < g0.n,
            b < g0.n,
        ensures
            final(self)@ == recording(g0, pre.push((a, b)), w),
            final(self)@.wf(),
    {
        let _ = self.add_edge(a, b, w);
        proof {
            lemma_entries_of_push(pre, (a, b), w, g0.directed);
            if !g0.finalized {
                assert(self@.pending =~= g0.pending + entries_of(pre.push((a, b)), w, g0.directed));
            }
        }
    }

    /// Finalizes a graph whose edges have all been recorded.
    fn finish_build(&mut self, Ghost(g0): Ghost<GraphModel<W>>, Ghost(pairs): Ghost<Seq<(usize, usize)>>, w: W)
        requires
            old(self)@ == recording(g0, pairs, w),
            old(self)@.wf(),
        ensures
            final(self)@ == after_build(g0, pairs, w),
            final(self)@.wf(),
    {
        self.finalize();
    }

    /// Build a path graph
    pub fn build_path(&mut self, w: W)
        requires
            old(self)@.wf(),
        ensures
            final(self)@ == after_build(old(self)@, path_pairs(old(self)@.n), w),
            final(self)@.wf(),
    {
        let ghost g0 = self@;
        let ghost pairs = path_pairs(g0.n);
        let n = self.num_vertices();
        let upto = if n > 0 { n - 1 } else { 0 };
        proof {
            assert(g0.pending + entries_of(pairs.take(0), w, g0.directed) =~= g0.pending);
        }
        let mut i: usize = 0;
        while i < upto
            invariant
                g0.wf(),
                n == g0.n,
                upto == pairs.len(),
                pairs == path_pairs(g0.n),
                i <= upto,
                self@ == recording(g0, pairs.take(i as int), w),
                self@.wf(),
            decreases upto - i,
        {
            proof {
                assert(pairs.take(i + 1) =~= pairs.take(i as int).push((i, (i + 1) as usize)));
            }
            self.record_pair(i, i + 1, w, Ghost(g0), Ghost(pairs.take(i as int)));
            i = i + 1;
        }
        proof {
            assert(pairs.take(upto as int) =~= pairs);
        }
        self.finish_build(Ghost(g0), Ghost(pairs), w);
    }

    /// Build a cycle graph
    pub fn build_cycle(&mut self, w: W)
        requires
            old(self)@.wf(),
        ensures
            final(self)@ == after_build(old(self)@, cycle_pairs(old(self)@.n), w),
            final(self)@.wf(),
    {
        let ghost g0 = self@;
        let ghost pairs = cycle_pairs(g0.n);
        let n = self.num_vertices();
        proof {
            assert(g0.pending + entries_of(pairs.take(0), w, g0.directed) =~= g0.pending);
        }
        let mut i: usize = 0;
        while i < n
            invariant
                g0.wf(),
                n == g0.n,
                pairs == cycle_pairs(g0.n),
                i <= n,
                self@ == recording(g0, pairs.take(i as int), w),
                self@.wf(),
            decreases n - i,
        {
            let j = (i + 1) % n;
            proof {
                assert(pairs.take(i + 1) =~= pairs.take(i as int).push((i, j)));
            }
            self.record_pair(i, j, w, Ghost(g0), Ghost(pairs.take(i as int)));
            i = i + 1;
        }
        proof {
            assert(pairs.take(n as int) =~= pairs);
        }
        self.finish_build(Ghost(g0), Ghost(pairs), w);
    }

    /// Build a star graph (center = vertex 0)
    pub fn build_star(&mut self, w: W)
        requires
            old(self)@.wf(),
        ensures
            final(self)@ == after_build(old(self)@, star_pairs(old(self)@.n), w),
            final(self)@.wf(),
    {
        let ghost g0 = self@;
        let ghost pairs = star_pairs(g0.n);
        let n = self.num_vertices();
        proof {
            assert(g0.pending + entries_of(pairs.take(0), w, g0.directed) =~= g0.pending);
        }
        let mut i: usize = 1;
        while i < n
            invariant
                g0.wf(),
                n == g0.n,
                pairs == star_pairs(g0.n),
                1 <= i <= if n > 0 { n } else { 1 },
                self@ == recording(g0, pairs.take(i - 1), w),
                self@.wf(),
            decreases n - i,
        {
            proof {
                assert(pairs.take(i as int) =~= pairs.take(i - 1).push((0usize, i)));
            }
            self.record_pair(0, i, w, Ghost(g0), Ghost(pairs.take(i - 1)));
            i = i + 1;
        }
        proof {
            assert(pairs.take(i - 1) =~= pairs);
        }
        self.finish_build(Ghost(g0), Ghost(pairs), w);
    }

    /// Build a complete graph
    pub fn build_complete(&mut self, w: W)
        requires
            old(self)@.wf(),
        ensures
            final(self)@ == after_build(old(self)@, complete_pairs(old(self)@.n), w),
            final(self)@.wf(),
    {
        let ghost g0 = self@;
        let n = self.num_vertices();
        proof {
            assert(g0.pending + entries_of(complete_rows(g0.n, 0), w, g0.directed) =~= g0.pending);
        }
        let mut i: usize = 0;
        while i < n
            invariant
                g0.wf(),
                n == g0.n,
                i <= n,
                self@ == recording(g0, complete_rows(g0.n, i as int), w),
                self@.wf(),
            decreases n - i,
        {
            let mut j: usize = i + 1;
            proof {
                assert(complete_rows(g0.n, i as int) + complete_row(g0.n, i as int, j as int) =~= complete_rows(g0.n, i as int));
            }
            while j < n
                invariant
                    g0.wf(),
                    n == g0.n,
                    i < n,
                    i + 1 <= j <= n,
                    self@ == recording(g0, complete_rows(g0.n, i as int) + complete_row(g0.n, i as int, j as int), w),
                    self@.wf(),
                decreases n - j,
            {
                let ghost pre = complete_rows(g0.n, i as int) + complete_row(g0.n, i as int, j as int);
                proof {
                    assert(complete_rows(g0.n, i as int) + complete_row(g0.n, i as int, j + 1) =~= pre.push((i, j)));
                }
                self.record_pair(i, j, w, Ghost(g0), Ghost(pre));
                j = j + 1;
            }
            proof {
                assert(complete_rows(g0.n, i + 1) == complete_rows(g0.n, i as int) + complete_row(g0.n, i as int, n as int));
            }
            i = i + 1;
        }
        self.finish_build(Ghost(g0), Ghost(complete_pairs(g0.n)), w);
    }

    /// Build a 2D grid graph
    pub fn build_grid2d(&mut self, rows: usize, cols: usize, w: W) -> (r: Result<(), SgError>)
        requires
            old(self)@.wf(),
        ensures
            final(self)@.wf(),
            r is Err <==> rows * cols != old(self)@.n,
            r is Err ==> r == Err::<(), SgError>(SgError::InvalidParam) && final(self)@ == old(self)@,
            r is Ok ==> final(self)@ == after_build(old(self)@, grid_pairs(rows as nat, cols as nat), w),
    {
        let ghost g0 = self@;
        let ghost nr = rows as nat;
        let ghost nc = cols as nat;
        let n = self.num_vertices();
        match rows.checked_mul(cols) {
            None => {
                return Err(SgError::InvalidParam);
            },
            Some(cells) => {
                if cells != n {
                    return Err(SgError::InvalidParam);
                }
            },
        }
        proof {
            assert(g0.pending + entries_of(grid_rows(nr, nc, 0), w, g0.directed) =~= g0.pending);
        }
        let mut r: usize = 0;
        while r < rows
            invariant
                g0.wf(),
                n == g0.n,
                rows * cols == n,
                nr == rows,
                nc == cols,
                r <= rows,
                self@ == recording(g0, grid_rows(nr, nc, r as int), w),
                self@.wf(),
            decreases rows - r,
        {
            let mut c: usize = 0;
            proof {
                assert(grid_rows(nr, nc, r as int) + grid_row(nr, nc, r as int, 0) =~= grid_rows(nr, nc, r as int));
            }
            while c < cols
                invariant
                    g0.wf(),
                    n == g0.n,
                    rows * cols == n,
                    nr == rows,
                    nc == cols,
                    r < rows,
                    c <= cols,
                    self@ == recording(g0, grid_rows(nr, nc, r as int) + grid_row(nr, nc, r as int, c as int), w),
                    self@.wf(),
                decreases cols - c,
            {
                proof {
                    lemma_grid_index(rows as int, cols as int, r as int, c as int);
                }
                let v = r * cols + c;
                let ghost pre = grid_rows(nr, nc, r as int) + grid_row(nr, nc, r as int, c as int);
                let ghost mid = if c + 1 < cols { pre.push((v, (v + 1) as usize)) } else { pre };
                if c + 1 < cols {
                    self.record_pair(v, v + 1, w, Ghost(g0), Ghost(pre));
                }
                if r + 1 < rows {
                    self.record_pair(v, v + cols, w, Ghost(g0), Ghost(mid));
                }
                proof {
                    let fin = if r + 1 < rows { mid.push((v, (v + cols) as usize)) } else { mid };
                    assert(grid_rows(nr, nc, r as int) + grid_row(nr, nc, r as int, c + 1) =~= fin);
                }
                c = c + 1;
            }
            r = r + 1;
        }
        self.finish_build(Ghost(g0), Ghost(grid_pairs(nr, nc)), w);
        Ok(())
    }
}

} // verus!
