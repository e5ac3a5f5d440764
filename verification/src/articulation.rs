use vstd::prelude::*;

use crate::cut::{is_cut_vertex, lemma_flags_are_cut_vertices, reachable_avoiding, search_done, lemma_avoiding_refl};
use crate::dfs::{
    advance, back_step, discover, finish_child, finish_root, frames_ok, initial_state, inv_all, lemma_back_step,
    lemma_finish_child, lemma_finish_root, lemma_initial, lemma_start_tree, lemma_tree_step, symmetric,
    count_children, target, DfsState,
};
use crate::forest::{
    dfs_forest, flags, inv_order, lemma_order_back, lemma_order_finish, lemma_order_initial, lemma_order_start,
    lemma_order_tree, lemma_search_forest,
};
use crate::graph::{GraphModel, SpectralGraph};
use crate::reach::{count_true, lemma_count_true_none};

verus! {

/// Number of articulation points of a graph.
pub open spec fn cut_vertex_count<W>(m: GraphModel<W>) -> nat {
    count_true(Seq::new(m.n, |v: int| is_cut_vertex(m, v)))
}

/// The work left on a depth-first stack: for each frame, the adjacency
/// entries of its vertex not yet examined, plus one for finishing the frame.
pub open spec fn stack_work<W>(m: GraphModel<W>, st: Seq<(usize, usize)>) -> int
    decreases st.len(),
{
    if st.len() == 0 {
        0
    } else {
        stack_work(m, st.drop_last()) + (m.adj[st.last().0 as int].len() - st.last().1 + 1)
    }
}

proof fn lemma_stack_work_nonneg<W>(m: GraphModel<W>, st: Seq<(usize, usize)>)
    requires
        frames_ok(m, st),
    ensures
        stack_work(m, st) >= st.len(),
    decreases st.len(),
{
    if st.len() > 0 {
        let d = st.drop_last();
        assert forall|i: int| 0 <= i < d.len() implies (#[trigger] d[i]).0 < m.n && d[i].1 <= m.adj[d[i].0 as int].len() by {
            assert(d[i] == st[i]);
        }
        lemma_stack_work_nonneg(m, d);
        assert(st.last() == st[st.len() - 1]);
    }
}

/// With at most two vertices no vertex separates two others.
proof fn lemma_few_vertices<W>(m: GraphModel<W>, v: int)
    requires
        m.n <= 2,
    ensures
        !is_cut_vertex(m, v),
{
    if is_cut_vertex(m, v) {
        let (a, b) = choose|a: int, b: int|
            0 <= a < m.n && 0 <= b < m.n && a != v && b != v && #[trigger] crate::reach::reachable(m, a, b)
                && !#[trigger] reachable_avoiding(m, v, a, b);
        assert(a == b);
        lemma_avoiding_refl(m, v, a);
    }
}

/// The search state held by the arrays of `count_articulation_points`.
pub open spec fn state_of(
    vis: Seq<bool>,
    disc: Seq<usize>,
    low: Seq<usize>,
    par: Seq<Option<usize>>,
    ap: Seq<bool>,
    black: Seq<bool>,
    fin: Seq<int>,
    stack: Seq<(usize, usize)>,
    time: usize,
) -> DfsState {
    DfsState { vis, disc, low, par, ap, black, fin, stack, time: time as nat }
}

impl<W: Copy> SpectralGraph<W> {
    /// Count articulation points: on an undirected graph, the vertices whose
    /// removal disconnects two others; on any graph with more than two
    /// vertices, the vertices that the low-link rule flags on the depth-first
    /// forest taken from vertex 0 upwards, entries in list order.
    pub fn count_articulation_points(&self) -> (r: usize)
        requires
            self@.wf(),
        ensures
            r <= self@.n,
            self@.n <= 2 ==> r == 0,
            symmetric(self@) ==> r == cut_vertex_count(self@),
            self@.n > 2 ==> exists|s: DfsState| dfs_forest(self@, s) && r == count_true(flags(self@, s)),
    {
        let ghost m = self@;
        let n = self.num_vertices();
        if n <= 2 {
            proof {
                let cuts = Seq::new(m.n, |v: int| is_cut_vertex(m, v));
                assert forall|v: int| 0 <= v < cuts.len() implies !(#[trigger] cuts[v]) by {
                    lemma_few_vertices(m, v);
                }
                lemma_count_true_none(cuts);
            }
            return 0;
        }
        proof {
            m.lemma_adj_in_range();
        }
        let ghost sym = symmetric(m);
        let mut visited: Vec<bool> = Vec::new();
        let mut disc: Vec<usize> = Vec::new();
        let mut low: Vec<usize> = Vec::new();
        let mut parent: Vec<Option<usize>> = Vec::new();
        let mut ap: Vec<bool> = Vec::new();
        let mut i: usize = 0;
        while i < n
            invariant
                i <= n,
                visited@ =~= initial_state(i as nat).vis,
                disc@ =~= initial_state(i as nat).disc,
                low@ =~= initial_state(i as nat).low,
                parent@ =~= initial_state(i as nat).par,
                ap@ =~= initial_state(i as nat).ap,
            decreases n - i,
        {
            visited.push(false);
            disc.push(0);
            low.push(0);
            parent.push(None);
            ap.push(false);
            i = i + 1;
        }
        let mut time: usize = 0;
        let ghost mut black: Seq<bool> = initial_state(n as nat).black;
        let ghost mut fin: Seq<int> = initial_state(n as nat).fin;
        proof {
            lemma_initial(m, sym);
            lemma_order_initial(m);
            assert(state_of(visited@, disc@, low@, parent@, ap@, black, fin, Seq::empty(), time) == initial_state(m.n));
        }
        let mut start: usize = 0;
        while start < n
            invariant
                m == self@,
                m.wf(),
                n == m.n,
                n > 2,
                forall|a: int, j: int| 0 <= a < m.n && 0 <= j < m.adj[a].len() ==> (#[trigger] m.adj[a][j]).0 < m.n,
                sym ==> symmetric(m),
                start <= n,
                inv_all(m, state_of(visited@, disc@, low@, parent@, ap@, black, fin, Seq::empty(), time), sym),
                inv_order(m, state_of(visited@, disc@, low@, parent@, ap@, black, fin, Seq::empty(), time)),
                forall|x: int| 0 <= x < start ==> #[trigger] visited@[x],
            decreases n - start,
        {
            if !visited[start] {
                let ghost s0 = state_of(visited@, disc@, low@, parent@, ap@, black, fin, Seq::empty(), time);
                proof {
                    lemma_start_tree(m, s0, sym, start as int);
                    lemma_order_start(m, s0, sym, start as int);
                }
                visited.set(start, true);
                disc.set(start, time);
                low.set(start, time);
                time = time + 1;
                let mut stack: Vec<(usize, usize)> = Vec::new();
                stack.push((start, 0));
                proof {
                    assert(parent@ =~= s0.par.update(start as int, None));
                    assert(state_of(visited@, disc@, low@, parent@, ap@, black, fin, stack@, time) =~= discover(s0, start as int, None));
                }
                while stack.len() > 0
                    invariant
                        m == self@,
                        m.wf(),
                        n == m.n,
                        forall|a: int, j: int| 0 <= a < m.n && 0 <= j < m.adj[a].len() ==> (#[trigger] m.adj[a][j]).0 < m.n,
                        sym ==> symmetric(m),
                        start < n,
                        inv_all(m, state_of(visited@, disc@, low@, parent@, ap@, black, fin, stack@, time), sym),
                        inv_order(m, state_of(visited@, disc@, low@, parent@, ap@, black, fin, stack@, time)),
                        forall|x: int| 0 <= x <= start ==> #[trigger] visited@[x],
                    decreases n - time, stack_work(m, stack@),
                {
                    let ghost s0 = state_of(visited@, disc@, low@, parent@, ap@, black, fin, stack@, time);
                    let top = stack.len() - 1;
                    let (v, idx) = stack[top];
                    assert(stack@[top as int] == (v, idx));
                    let row = self.neighbors(v);
                    if idx < row.len() {
                        let (u, _) = row[idx];
                        assert(u as int == target(m, v as int, idx as int));
                        let ghost st0 = stack@;
                        stack.set(top, (v, idx + 1));
                        proof {
                            assert(stack@.drop_last() =~= st0.drop_last());
                            assert(stack_work(m, stack@) == stack_work(m, st0) - 1);
                        }
                        if !visited[u] {
                            proof {
                                lemma_tree_step(m, s0, sym);
                                lemma_order_tree(m, s0, sym);
                            }
                            parent.set(u, Some(v));
                            visited.set(u, true);
                            disc.set(u, time);
                            low.set(u, time);
                            time = time + 1;
                            stack.push((u, 0));
                            proof {
                                assert(state_of(visited@, disc@, low@, parent@, ap@, black, fin, stack@, time)
                                    =~= discover(advance(s0), u as int, Some(v)));
                            }
                        } else if parent[v] != Some(u) {
                            proof {
                                lemma_back_step(m, s0, sym);
                                lemma_order_back(m, s0);
                            }
                            if disc[u] < low[v] {
                                let du = disc[u];
                                low.set(v, du);
                            }
                            proof {
                                assert(state_of(visited@, disc@, low@, parent@, ap@, black, fin, stack@, time) =~= back_step(m, s0));
                            }
                        } else {
                            proof {
                                lemma_back_step(m, s0, sym);
                                lemma_order_back(m, s0);
                                assert(state_of(visited@, disc@, low@, parent@, ap@, black, fin, stack@, time) =~= back_step(m, s0));
                            }
                        }
                    } else {
                        match parent[v] {
                            Some(p) => {
                                proof {
                                    lemma_finish_child(m, s0, sym);
                                    lemma_order_finish(m, s0, sym, finish_child(s0));
                                }
                                if low[v] < low[p] {
                                    let lv = low[v];
                                    low.set(p, lv);
                                }
                                if parent[p].is_some() && low[v] >= disc[p] {
                                    ap.set(p, true);
                                }
                            },
                            None => {
                                proof {
                                    lemma_finish_root(m, s0, sym);
                                    lemma_order_finish(m, s0, sym, finish_root(m, s0));
                                }
                                let mut children: usize = 0;
                                let mut c: usize = 0;
                                while c < n
                                    invariant
                                        c <= n,
                                        parent@.len() == n,
                                        children == count_children(parent@, v as int, c as int),
                                        children <= c,
                                    decreases n - c,
                                {
                                    if parent[c] == Some(v) {
                                        children = children + 1;
                                    }
                                    c = c + 1;
                                }
                                if children > 1 {
                                    ap.set(v, true);
                                }
                            },
                        }
                        let ghost st0 = stack@;
                        stack.pop();
                        proof {
                            black = black.update(v as int, true);
                            fin = fin.update(v as int, time as int);
                            assert(stack@ =~= st0.drop_last());
                            assert(stack_work(m, stack@) == stack_work(m, st0) - 1);
                            if s0.par[v as int] is Some {
                                assert(state_of(visited@, disc@, low@, parent@, ap@, black, fin, stack@, time) =~= finish_child(s0));
                            } else {
                                assert(state_of(visited@, disc@, low@, parent@, ap@, black, fin, stack@, time) =~= finish_root(m, s0));
                            }
                        }
                        if stack.len() > 0 {
                            let (pv, _) = stack[stack.len() - 1];
                            proof {
                                let t = state_of(visited@, disc@, low@, parent@, ap@, black, fin, stack@, time);
                                assert(t.stack[t.stack.len() - 1].0 == pv);
                                if parent@[v as int] == Some(pv) {
                                    assert(t.black[v as int] && t.par[v as int] == Some(t.stack[t.stack.len() - 1].0));
                                    assert(low@[pv as int] <= low@[v as int]);
                                }
                            }
                            if parent[v] == Some(pv) && low[v] < low[pv] {
                                let lv = low[v];
                                low.set(pv, lv);
                            }
                        }
                    }
                    proof {
                        lemma_stack_work_nonneg(m, stack@);
                    }
                }
                assert(stack@ =~= Seq::<(usize, usize)>::empty());
            }
            start = start + 1;
        }
        let ghost s = state_of(visited@, disc@, low@, parent@, ap@, black, fin, Seq::empty(), time);
        proof {
            assert forall|x: int| 0 <= x < n implies #[trigger] s.vis[x] && s.black[x] by {
                assert(s.vis[x]);
                if !s.black[x] {
                    let i = choose|i: int| 0 <= i < s.stack.len() && (#[trigger] s.stack[i]).0 == x;
                }
            }
        }
        let mut total: usize = 0;
        let mut j: usize = 0;
        while j < n
            invariant
                j <= n,
                ap@.len() == n,
                total == count_true(ap@.take(j as int)),
                total <= j,
            decreases n - j,
        {
            proof {
                assert(ap@.take(j + 1).drop_last() =~= ap@.take(j as int));
            }
            if ap[j] {
                total = total + 1;
            }
            j = j + 1;
        }
        proof {
            assert(ap@.take(n as int) =~= ap@);
            lemma_search_forest(m, s, sym);
            assert(dfs_forest(m, s) && total == count_true(flags(m, s)));
            if symmetric(m) {
                assert(search_done(m, s));
                let cuts = Seq::new(m.n, |v: int| is_cut_vertex(m, v));
                assert forall|v: int| 0 <= v < n implies #[trigger] ap@[v] == cuts[v] by {
                    lemma_flags_are_cut_vertices(m, s, v);
                }
                assert(ap@ =~= cuts);
            }
        }
        total
    }
}

} // verus!
