use vstd::prelude::*;

use crate::dfs::{
    advance, anc, back_step, discover, finish_child, finish_root, initial_state, inv_all, non_parent_entry, parent_ok,
    root_children, target, ap_reason, low_attained, DfsState,
};
use crate::graph::GraphModel;

verus! {

/// `y` was discovered before `x`.
pub open spec fn discovered_before(s: DfsState, y: int, x: int) -> bool {
    s.vis[y] && s.disc[y] < s.disc[x]
}

/// `c` was reached through the first entry of `p` whose target had not been
/// discovered yet: every entry of `p` before the first one that leads to `c`
/// leads to a vertex discovered no later than `c`.
pub open spec fn first_fresh_entry<W>(m: GraphModel<W>, s: DfsState, p: int, c: int) -> bool {
    forall|j: int|
        0 <= j < m.adj[p].len() ==> (exists|k: int| 0 <= k < j && #[trigger] target(m, p, k) == c) || (s.vis[
            #[trigger] target(m, p, j)] && s.disc[target(m, p, j)] <= s.disc[c])
}

/// Every entry of `v` leads to a vertex discovered before `v` was left.
pub open spec fn entries_seen<W>(m: GraphModel<W>, s: DfsState, v: int) -> bool {
    forall|j: int|
        0 <= j < m.adj[v].len() ==> s.vis[#[trigger] target(m, v, j)] && s.disc[target(m, v, j)] < s.fin[v]
}

/// The order in which a depth-first search visits the graph: each new tree
/// starts at the smallest vertex not yet discovered, each child is reached
/// through the first entry of its parent leading to an undiscovered vertex,
/// and a vertex is left only once every entry has been followed.
pub open spec fn inv_order<W>(m: GraphModel<W>, s: DfsState) -> bool {
    &&& forall|x: int, y: int|
        0 <= y < x < m.n && s.vis[x] && s.par[x] is None ==> #[trigger] discovered_before(s, y, x)
    &&& forall|c: int|
        0 <= c < m.n && s.vis[c] && (#[trigger] s.par[c]) is Some ==> first_fresh_entry(m, s, s.par[c]->0 as int, c)
    &&& forall|v: int| 0 <= v < m.n && #[trigger] s.black[v] ==> entries_seen(m, s, v)
}

/// The forest that a depth-first search of the whole graph leaves behind,
/// taking the start vertices in increasing order and the entries of each
/// vertex in list order: every vertex discovered and left, distinct
/// discovery times, nested subtrees, each parent joined to its child by an
/// entry, and the visiting order above.
pub open spec fn dfs_forest<W>(m: GraphModel<W>, s: DfsState) -> bool {
    &&& s.vis.len() == m.n
    &&& s.disc.len() == m.n
    &&& s.par.len() == m.n
    &&& s.black.len() == m.n
    &&& s.fin.len() == m.n
    &&& forall|x: int| 0 <= x < m.n ==> #[trigger] s.vis[x] && s.black[x] && s.disc[x] < s.fin[x]
    &&& forall|x: int, y: int| 0 <= x < m.n && 0 <= y < m.n && x != y ==> #[trigger] s.disc[x] != #[trigger] s.disc[y]
    &&& forall|x: int, y: int| 0 <= x < m.n && 0 <= y < m.n && #[trigger] anc(s, x, y) ==> s.fin[y] <= s.fin[x]
    &&& forall|x: int| 0 <= x < m.n && (#[trigger] s.par[x]) is Some ==> parent_ok(m, s, x)
    &&& forall|x: int, y: int| 0 <= x < m.n && 0 <= y < m.n && s.par[x] is None && y != x ==> !#[trigger] anc(s, y, x)
    &&& inv_order(m, s)
}

/// Some entry of a vertex in the subtree of `c`, other than one back to that
/// vertex's parent, leads to a vertex discovered before `p`.
pub open spec fn escapes<W>(m: GraphModel<W>, s: DfsState, c: int, p: int) -> bool {
    exists|x: int, j: int|
        0 <= x < m.n && 0 <= j < m.adj[x].len() && #[trigger] anc(s, c, x) && #[trigger] non_parent_entry(m, s, x, j)
            && s.disc[target(m, x, j)] < s.disc[p]
}

/// The articulation rule on a search forest: a vertex with a parent is
/// flagged when the subtree of one of its children has no entry leading
/// above it; a root is flagged when it has at least two children.
pub open spec fn flagged<W>(m: GraphModel<W>, s: DfsState, p: int) -> bool {
    ||| s.par[p] is Some && exists|c: int| 0 <= c < m.n && #[trigger] s.par[c] == Some(p as usize) && !escapes(m, s, c, p)
    ||| s.par[p] is None && root_children(m, s.par, p) >= 2
}

/// The flags of the rule, vertex by vertex.
pub open spec fn flags<W>(m: GraphModel<W>, s: DfsState) -> Seq<bool> {
    Seq::new(m.n, |p: int| flagged(m, s, p))
}

pub proof fn lemma_order_initial<W>(m: GraphModel<W>)
    ensures
        inv_order(m, initial_state(m.n)),
{
}

/// Starting a new tree at `u` keeps the order, when every smaller vertex has been discovered.
pub proof fn lemma_order_start<W>(m: GraphModel<W>, s: DfsState, sym: bool, u: int)
    requires
        m.wf(),
        inv_all(m, s, sym),
        inv_order(m, s),
        0 <= u < m.n,
        !s.vis[u],
        forall|y: int| 0 <= y < u ==> #[trigger] s.vis[y],
    ensures
        inv_order(m, discover(s, u, None)),
{
    let t = discover(s, u, None);
    m.lemma_adj_in_range();
    assert(crate::dfs::inv_basic(m, s));
    crate::reach::lemma_count_true_bound(s.vis);
    assert forall|x: int, y: int| 0 <= y < x < m.n && t.vis[x] && t.par[x] is None implies #[trigger] discovered_before(
        t,
        y,
        x,
    ) by {
        if x == u {
            assert(s.vis[y]);
        } else {
            assert(discovered_before(s, y, x));
        }
    }
    assert forall|c: int| 0 <= c < m.n && t.vis[c] && (#[trigger] t.par[c]) is Some implies first_fresh_entry(
        m,
        t,
        t.par[c]->0 as int,
        c,
    ) by {
        let p = s.par[c]->0 as int;
        assert(first_fresh_entry(m, s, p, c));
        assert forall|j: int| 0 <= j < m.adj[p].len() implies (exists|k: int|
            0 <= k < j && #[trigger] target(m, p, k) == c) || (t.vis[#[trigger] target(m, p, j)] && t.disc[target(
            m,
            p,
            j,
        )] <= t.disc[c]) by {
            if s.vis[target(m, p, j)] {
                assert(target(m, p, j) != u);
            }
        }
    }
    assert forall|v: int| 0 <= v < m.n && #[trigger] t.black[v] implies entries_seen(m, t, v) by {
        assert(entries_seen(m, s, v));
        assert forall|j: int| 0 <= j < m.adj[v].len() implies t.vis[#[trigger] target(m, v, j)] && t.disc[target(
            m,
            v,
            j,
        )] < t.fin[v] by {
            assert(s.vis[target(m, v, j)]);
        }
    }
}

/// Following an entry of the top vertex to an undiscovered vertex keeps the order.
pub proof fn lemma_order_tree<W>(m: GraphModel<W>, s: DfsState, sym: bool)
    requires
        m.wf(),
        inv_all(m, s, sym),
        inv_order(m, s),
        s.stack.len() > 0,
        s.stack.last().1 < m.adj[s.stack.last().0 as int].len(),
        !s.vis[target(m, s.stack.last().0 as int, s.stack.last().1 as int)],
    ensures
        inv_order(
            m,
            discover(advance(s), target(m, s.stack.last().0 as int, s.stack.last().1 as int), Some(s.stack.last().0)),
        ),
{
    let top = s.stack.len() - 1;
    let v = s.stack[top].0 as int;
    let idx = s.stack[top].1 as int;
    let u = target(m, v, idx);
    let a = advance(s);
    let t = discover(a, u, Some(v as usize));
    m.lemma_adj_in_range();
    assert(0 <= u < m.n);
    assert(crate::dfs::inv_basic(m, s));
    crate::reach::lemma_count_true_bound(s.vis);
    assert(crate::dfs::inv_stack(m, s, sym));
    assert forall|x: int, y: int| 0 <= y < x < m.n && t.vis[x] && t.par[x] is None implies #[trigger] discovered_before(
        t,
        y,
        x,
    ) by {
        assert(x != u);
        assert(discovered_before(s, y, x));
    }
    assert forall|c: int| 0 <= c < m.n && t.vis[c] && (#[trigger] t.par[c]) is Some implies first_fresh_entry(
        m,
        t,
        t.par[c]->0 as int,
        c,
    ) by {
        if c == u {
            assert forall|j: int| 0 <= j < m.adj[v].len() implies (exists|k: int|
                0 <= k < j && #[trigger] target(m, v, k) == c) || (t.vis[#[trigger] target(m, v, j)] && t.disc[target(
                m,
                v,
                j,
            )] <= t.disc[c]) by {
                if j < idx {
                    assert(crate::dfs::scanned_ok(m, s, sym, s.stack[top].0 as int, j));
                } else if j > idx {
                    assert(target(m, v, idx) == c);
                }
            }
        } else {
            let p = s.par[c]->0 as int;
            assert(first_fresh_entry(m, s, p, c));
            assert forall|j: int| 0 <= j < m.adj[p].len() implies (exists|k: int|
                0 <= k < j && #[trigger] target(m, p, k) == c) || (t.vis[#[trigger] target(m, p, j)] && t.disc[target(
                m,
                p,
                j,
            )] <= t.disc[c]) by {
                if s.vis[target(m, p, j)] {
                    assert(target(m, p, j) != u);
                }
            }
        }
    }
    assert forall|w: int| 0 <= w < m.n && #[trigger] t.black[w] implies entries_seen(m, t, w) by {
        assert(entries_seen(m, s, w));
        assert forall|j: int| 0 <= j < m.adj[w].len() implies t.vis[#[trigger] target(m, w, j)] && t.disc[target(
            m,
            w,
            j,
        )] < t.fin[w] by {
            assert(s.vis[target(m, w, j)]);
        }
    }
}

/// Examining an entry whose target was discovered already keeps the order.
pub proof fn lemma_order_back<W>(m: GraphModel<W>, s: DfsState)
    requires
        inv_order(m, s),
        s.stack.len() > 0,
    ensures
        inv_order(m, back_step(m, s)),
{
    let t = back_step(m, s);
    assert(t.vis == s.vis && t.disc == s.disc && t.par == s.par && t.black == s.black && t.fin == s.fin);
    assert forall|x: int, y: int| 0 <= y < x < m.n && t.vis[x] && t.par[x] is None implies #[trigger] discovered_before(
        t,
        y,
        x,
    ) by {
        assert(discovered_before(s, y, x));
    }
    assert forall|c: int| 0 <= c < m.n && t.vis[c] && (#[trigger] t.par[c]) is Some implies first_fresh_entry(
        m,
        t,
        t.par[c]->0 as int,
        c,
    ) by {
        assert(first_fresh_entry(m, s, s.par[c]->0 as int, c));
    }
    assert forall|w: int| 0 <= w < m.n && #[trigger] t.black[w] implies entries_seen(m, t, w) by {
        assert(entries_seen(m, s, w));
    }
}

/// Leaving the top vertex once all its entries have been examined keeps the
/// order; `t` is the state after leaving it, whatever was flagged.
pub proof fn lemma_order_finish<W>(m: GraphModel<W>, s: DfsState, sym: bool, t: DfsState)
    requires
        m.wf(),
        inv_all(m, s, sym),
        inv_order(m, s),
        s.stack.len() > 0,
        s.stack.last().1 == m.adj[s.stack.last().0 as int].len(),
        t.vis == s.vis,
        t.disc == s.disc,
        t.par == s.par,
        t.black == s.black.update(s.stack.last().0 as int, true),
        t.fin == s.fin.update(s.stack.last().0 as int, s.time as int),
    ensures
        inv_order(m, t),
{
    let top = s.stack.len() - 1;
    let v = s.stack[top].0 as int;
    m.lemma_adj_in_range();
    assert(0 <= v < m.n);
    assert(crate::dfs::inv_basic(m, s));
    assert(crate::dfs::inv_stack(m, s, sym));
    assert forall|x: int, y: int| 0 <= y < x < m.n && t.vis[x] && t.par[x] is None implies #[trigger] discovered_before(
        t,
        y,
        x,
    ) by {
        assert(discovered_before(s, y, x));
    }
    assert forall|c: int| 0 <= c < m.n && t.vis[c] && (#[trigger] t.par[c]) is Some implies first_fresh_entry(
        m,
        t,
        t.par[c]->0 as int,
        c,
    ) by {
        assert(first_fresh_entry(m, s, s.par[c]->0 as int, c));
    }
    assert forall|w: int| 0 <= w < m.n && #[trigger] t.black[w] implies entries_seen(m, t, w) by {
        if w == v {
            assert forall|j: int| 0 <= j < m.adj[w].len() implies t.vis[#[trigger] target(m, w, j)] && t.disc[target(
                m,
                w,
                j,
            )] < t.fin[w] by {
                assert(crate::dfs::scanned_ok(m, s, sym, s.stack[top].0 as int, j));
                assert(0 <= target(m, w, j) < m.n);
            }
        } else {
            assert(entries_seen(m, s, w));
            assert forall|j: int| 0 <= j < m.adj[w].len() implies t.vis[#[trigger] target(m, w, j)] && t.disc[target(
                m,
                w,
                j,
            )] < t.fin[w] by {
                assert(s.vis[target(m, w, j)]);
            }
        }
    }
}

/// When the search has left every vertex, its state is a search forest and
/// its flags are those of the articulation rule.
pub proof fn lemma_search_forest<W>(m: GraphModel<W>, s: DfsState, sym: bool)
    requires
        m.wf(),
        inv_all(m, s, sym),
        inv_order(m, s),
        forall|x: int| 0 <= x < m.n ==> #[trigger] s.vis[x] && s.black[x],
    ensures
        dfs_forest(m, s),
        s.ap == flags(m, s),
{
    m.lemma_adj_in_range();
    assert forall|p: int| 0 <= p < m.n implies #[trigger] s.ap[p] == flags(m, s)[p] by {
        assert(s.ap[p] <==> ap_reason(m, s, p));
        if s.par[p] is Some {
            assert forall|c: int| 0 <= c < m.n && #[trigger] s.par[c] == Some(p as usize) implies (s.low[c] >= s.disc[p]
                <==> !escapes(m, s, c, p)) by {
                assert(parent_ok(m, s, c));
                if escapes(m, s, c, p) {
                    let (x, j) = choose|x: int, j: int|
                        0 <= x < m.n && 0 <= j < m.adj[x].len() && #[trigger] anc(s, c, x) && #[trigger] non_parent_entry(
                            m,
                            s,
                            x,
                            j,
                        ) && s.disc[target(m, x, j)] < s.disc[p];
                    assert(s.black[c]);
                }
                if s.low[c] < s.disc[p] {
                    assert(low_attained(m, s, c));
                }
            }
            if ap_reason(m, s, p) {
                let c = choose|c: int|
                    0 <= c < m.n && s.black[c] && #[trigger] s.par[c] == Some(p as usize) && s.low[c] >= s.disc[p];
                assert(flagged(m, s, p));
            }
            if flagged(m, s, p) {
                let c = choose|c: int| 0 <= c < m.n && #[trigger] s.par[c] == Some(p as usize) && !escapes(m, s, c, p);
                assert(s.black[c]);
                assert(ap_reason(m, s, p));
            }
        }
    }
    assert(s.ap =~= flags(m, s));
    assert(crate::dfs::inv_basic(m, s));
    assert(crate::dfs::inv_black(m, s, sym));
    assert(crate::dfs::inv_parent(m, s));
    assert forall|x: int, y: int| 0 <= x < m.n && 0 <= y < m.n && x != y implies #[trigger] s.disc[x] != #[trigger] s.disc[y] by {
        assert(s.vis[x] && s.vis[y]);
    }
    assert forall|x: int| 0 <= x < m.n implies #[trigger] s.vis[x] && s.black[x] && s.disc[x] < s.fin[x] by {
        assert(s.black[x]);
    }
}

} // verus!
