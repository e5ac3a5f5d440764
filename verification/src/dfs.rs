use vstd::prelude::*;

use crate::graph::GraphModel;
use crate::reach::{count_true, has_edge, lemma_count_true_bound, lemma_count_true_update};

verus! {

/// The state of the depth-first search that looks for articulation points:
/// the arrays of the search, plus the finishing time of each vertex that has
/// been left for good (`black`) and the stack of (vertex, next entry) frames.
pub struct DfsState {
    pub vis: Seq<bool>,
    pub disc: Seq<usize>,
    pub low: Seq<usize>,
    pub par: Seq<Option<usize>>,
    pub ap: Seq<bool>,
    pub black: Seq<bool>,
    pub fin: Seq<int>,
    pub stack: Seq<(usize, usize)>,
    pub time: nat,
}

/// `y` lies in the search subtree of `x`: discovered no earlier than `x`,
/// and before `x` was left if it has been.
pub open spec fn anc(s: DfsState, x: int, y: int) -> bool {
    &&& s.vis[x]
    &&& s.vis[y]
    &&& s.disc[x] <= s.disc[y]
    &&& (s.black[x] ==> s.disc[y] < s.fin[x])
}

/// One of the two vertices lies in the subtree of the other.
pub open spec fn nested(s: DfsState, x: int, y: int) -> bool {
    anc(s, x, y) || anc(s, y, x)
}

/// Target of the `j`-th adjacency entry of `v`.
pub open spec fn target<W>(m: GraphModel<W>, v: int, j: int) -> int {
    m.adj[v][j].0 as int
}

/// The `j`-th entry of `x` is not the edge back to the parent of `x`.
pub open spec fn non_parent_entry<W>(m: GraphModel<W>, s: DfsState, x: int, j: int) -> bool {
    s.par[x] != Some(m.adj[x][j].0)
}

/// Number of vertices below `k` whose parent is `p`.
pub open spec fn count_children(par: Seq<Option<usize>>, p: int, k: int) -> nat
    decreases k,
{
    if k <= 0 {
        0
    } else {
        count_children(par, p, k - 1) + if par[k - 1] == Some(p as usize) { 1nat } else { 0nat }
    }
}

/// Number of children of `p`.
pub open spec fn root_children<W>(m: GraphModel<W>, par: Seq<Option<usize>>, p: int) -> nat {
    count_children(par, p, m.n as int)
}

pub open spec fn inv_basic<W>(m: GraphModel<W>, s: DfsState) -> bool {
    &&& s.vis.len() == m.n
    &&& s.disc.len() == m.n
    &&& s.low.len() == m.n
    &&& s.par.len() == m.n
    &&& s.ap.len() == m.n
    &&& s.black.len() == m.n
    &&& s.fin.len() == m.n
    &&& s.time == count_true(s.vis)
    &&& forall|x: int| 0 <= x < m.n && #[trigger] s.vis[x] ==> s.disc[x] < s.time && s.low[x] <= s.disc[x]
    &&& forall|x: int, y: int|
        0 <= x < m.n && 0 <= y < m.n && #[trigger] s.vis[x] && #[trigger] s.vis[y] && x != y ==> s.disc[x] != s.disc[y]
    &&& forall|x: int| 0 <= x < m.n && #[trigger] s.black[x] ==> s.vis[x] && s.disc[x] < s.fin[x] <= s.time
    &&& forall|x: int| 0 <= x < m.n && !#[trigger] s.vis[x] ==> s.par[x] is None && !s.ap[x] && !s.black[x]
}

/// Each frame names a vertex of the graph and a position within its adjacency list.
pub open spec fn frames_ok<W>(m: GraphModel<W>, st: Seq<(usize, usize)>) -> bool {
    forall|i: int| 0 <= i < st.len() ==> (#[trigger] st[i]).0 < m.n && st[i].1 <= m.adj[st[i].0 as int].len()
}

/// What holds of the `j`-th entry of `v` once it has been examined: its
/// target has been discovered, in an undirected graph the two ends are
/// nested, and unless it leads back to the parent, `low[v]` is at most the
/// discovery time of its target.
pub open spec fn scanned_ok<W>(m: GraphModel<W>, s: DfsState, sym: bool, v: int, j: int) -> bool {
    let u = target(m, v, j);
    &&& 0 <= u < m.n
    &&& s.vis[u]
    &&& sym ==> nested(s, v, u)
    &&& non_parent_entry(m, s, v, j) ==> s.low[v] <= s.disc[u]
}

pub open spec fn inv_stack<W>(m: GraphModel<W>, s: DfsState, sym: bool) -> bool {
    let st = s.stack;
    &&& frames_ok(m, st)
    &&& forall|i: int| 0 <= i < st.len() ==> s.vis[(#[trigger] st[i]).0 as int] && !s.black[st[i].0 as int]
    &&& forall|i: int, j: int|
        0 <= i < j < st.len() ==> s.disc[(#[trigger] st[i]).0 as int] < s.disc[(#[trigger] st[j]).0 as int]
    &&& forall|x: int|
        0 <= x < m.n && s.vis[x] && !#[trigger] s.black[x] ==> exists|i: int| 0 <= i < st.len() && (#[trigger] st[i]).0 == x
    &&& st.len() > 0 ==> s.par[st[0].0 as int] is None
    &&& forall|i: int| 0 < i < st.len() ==> s.par[(#[trigger] st[i]).0 as int] == Some(st[i - 1].0)
    &&& forall|i: int, j: int|
        0 <= i < st.len() && 0 <= j < st[i].1 ==> #[trigger] scanned_ok(m, s, sym, st[i].0 as int, j)
    &&& forall|i: int, c: int|
        0 <= i < st.len() && 0 <= c < m.n && s.black[c] && #[trigger] s.par[c] == Some(#[trigger] st[i].0)
            ==> s.low[st[i].0 as int] <= s.low[c]
}

/// Every adjacency entry of a vertex that has been left joins nested vertices.
pub open spec fn entry_nested<W>(m: GraphModel<W>, s: DfsState, v: int, j: int) -> bool {
    nested(s, v, target(m, v, j))
}

pub open spec fn inv_black<W>(m: GraphModel<W>, s: DfsState, sym: bool) -> bool {
    &&& forall|v: int, x: int|
        0 <= v < m.n && 0 <= x < m.n && s.black[v] && #[trigger] anc(s, v, x) ==> s.black[x] && s.fin[x] <= s.fin[v]
    &&& sym ==> forall|v: int, j: int|
        0 <= v < m.n && s.black[v] && 0 <= j < m.adj[v].len() ==> #[trigger] entry_nested(m, s, v, j)
    &&& forall|v: int, x: int, j: int|
        0 <= v < m.n && 0 <= x < m.n && s.black[v] && #[trigger] anc(s, v, x) && 0 <= j < m.adj[x].len()
            && #[trigger] non_parent_entry(m, s, x, j) ==> s.low[v] <= s.disc[target(m, x, j)]
}

/// The parent of `x` is an earlier vertex whose subtree holds `x`, joined to
/// `x` by an adjacency entry, and the latest-discovered such vertex.
pub open spec fn parent_ok<W>(m: GraphModel<W>, s: DfsState, x: int) -> bool {
    let p = s.par[x]->0 as int;
    &&& 0 <= p < m.n
    &&& s.vis[p]
    &&& s.disc[p] < s.disc[x]
    &&& anc(s, p, x)
    &&& has_edge(m, p, x)
    &&& forall|y: int| 0 <= y < m.n && y != x && #[trigger] anc(s, y, x) ==> s.disc[y] <= s.disc[p]
}

pub open spec fn inv_parent<W>(m: GraphModel<W>, s: DfsState) -> bool {
    &&& forall|x: int| 0 <= x < m.n && s.vis[x] && (#[trigger] s.par[x]) is Some ==> parent_ok(m, s, x)
    &&& forall|x: int, y: int|
        0 <= x < m.n && 0 <= y < m.n && s.vis[x] && s.par[x] is None && y != x ==> !#[trigger] anc(s, y, x)
}

/// `low[v]` is the discovery time of `v`, or that of the target of a
/// non-parent entry of a vertex in the subtree of `v`.
pub open spec fn low_attained<W>(m: GraphModel<W>, s: DfsState, v: int) -> bool {
    s.low[v] == s.disc[v] || exists|x: int, j: int|
        0 <= x < m.n && 0 <= j < m.adj[x].len() && #[trigger] anc(s, v, x) && #[trigger] non_parent_entry(m, s, x, j)
            && s.vis[target(m, x, j)] && s.disc[target(m, x, j)] == s.low[v]
}

pub open spec fn inv_low<W>(m: GraphModel<W>, s: DfsState) -> bool {
    forall|v: int| 0 <= v < m.n && s.vis[v] ==> #[trigger] low_attained(m, s, v)
}

/// Why `p` is flagged: a non-root with a child whose subtree reaches no
/// higher than `p`, or a root left with at least two children.
pub open spec fn ap_reason<W>(m: GraphModel<W>, s: DfsState, p: int) -> bool {
    ||| s.par[p] is Some && exists|c: int|
        0 <= c < m.n && s.black[c] && #[trigger] s.par[c] == Some(p as usize) && s.low[c] >= s.disc[p]
    ||| s.par[p] is None && s.black[p] && root_children(m, s.par, p) >= 2
}

pub open spec fn inv_ap<W>(m: GraphModel<W>, s: DfsState) -> bool {
    forall|p: int| 0 <= p < m.n ==> (s.ap[p] <==> #[trigger] ap_reason(m, s, p))
}

pub open spec fn inv_all<W>(m: GraphModel<W>, s: DfsState, sym: bool) -> bool {
    &&& inv_basic(m, s)
    &&& inv_stack(m, s, sym)
    &&& inv_black(m, s, sym)
    &&& inv_parent(m, s)
    &&& inv_low(m, s)
    &&& inv_ap(m, s)
}

/// Discover `u` with the given parent and push its frame.
pub open spec fn discover(s: DfsState, u: int, parent: Option<usize>) -> DfsState {
    DfsState {
        vis: s.vis.update(u, true),
        disc: s.disc.update(u, s.time as usize),
        low: s.low.update(u, s.time as usize),
        par: s.par.update(u, parent),
        stack: s.stack.push((u as usize, 0)),
        time: s.time + 1,
        ..s
    }
}

/// Move the top frame past its next entry.
pub open spec fn advance(s: DfsState) -> DfsState {
    let top = s.stack.last();
    DfsState { stack: s.stack.update(s.stack.len() - 1, (top.0, (top.1 + 1) as usize)), ..s }
}

/// Leave the top vertex for good.
pub open spec fn finish(s: DfsState) -> DfsState {
    let v = s.stack.last().0 as int;
    DfsState { black: s.black.update(v, true), fin: s.fin.update(v, s.time as int), stack: s.stack.drop_last(), ..s }
}

/// Every adjacency entry is matched by one in the other direction.
pub open spec fn symmetric<W>(m: GraphModel<W>) -> bool {
    forall|a: int, b: int| #[trigger] has_edge(m, a, b) ==> has_edge(m, b, a)
}

/// Examining an entry of the top frame whose target was discovered already.
pub open spec fn back_step<W>(m: GraphModel<W>, s: DfsState) -> DfsState {
    let v = s.stack.last().0 as int;
    let idx = s.stack.last().1 as int;
    let u = target(m, v, idx);
    let a = advance(s);
    if non_parent_entry(m, s, v, idx) && s.disc[u] < s.low[v] {
        DfsState { low: a.low.update(v, s.disc[u]), ..a }
    } else {
        a
    }
}

/// Leaving a vertex that has a parent: the parent takes the smaller low
/// value, is flagged when it is not a root and the subtree just left reaches
/// no higher than it, and the vertex is left for good.
pub open spec fn finish_child(s: DfsState) -> DfsState {
    let v = s.stack.last().0 as int;
    let p = s.par[v]->0 as int;
    let s1 = if s.low[v] < s.low[p] { DfsState { low: s.low.update(p, s.low[v]), ..s } } else { s };
    let s2 = if s.par[p] is Some && s.low[v] >= s.disc[p] { DfsState { ap: s1.ap.update(p, true), ..s1 } } else { s1 };
    finish(s2)
}

/// Leaving the root of a search tree: it is flagged when it has at least two children.
pub open spec fn finish_root<W>(m: GraphModel<W>, s: DfsState) -> DfsState {
    let v = s.stack.last().0 as int;
    let s2 = if root_children(m, s.par, v) > 1 { DfsState { ap: s.ap.update(v, true), ..s } } else { s };
    finish(s2)
}

/// The first vertex of a new search tree can be discovered once every
/// discovered vertex has been left.
pub proof fn lemma_start_tree<W>(m: GraphModel<W>, s: DfsState, sym: bool, u: int)
    requires
        m.wf(),
        inv_all(m, s, sym),
        s.stack.len() == 0,
        0 <= u < m.n,
        !s.vis[u],
    ensures
        inv_all(m, discover(s, u, None), sym),
        s.time < m.n,
{
    let t = discover(s, u, None);
    let n = m.n;
    m.lemma_adj_in_range();
    lemma_count_true_bound(s.vis);
    lemma_count_true_update(s.vis, u);
    assert(t.par =~= s.par);
    // every discovered vertex has been left
    assert forall|x: int| 0 <= x < n && s.vis[x] implies #[trigger] s.black[x] by {
        if !s.black[x] {
            let i = choose|i: int| 0 <= i < s.stack.len() && (#[trigger] s.stack[i]).0 == x;
        }
    }
    assert forall|y: int, x: int| 0 <= y < n && 0 <= x < n && x != u && y != u implies #[trigger] anc(t, y, x) == anc(s, y, x) by {}
    assert forall|y: int| 0 <= y < n implies !#[trigger] anc(t, y, u) || y == u by {}
    assert forall|x: int| 0 <= x < n && x != u implies !#[trigger] anc(t, u, x) by {}
    // basic
    assert(inv_basic(m, t));
    // stack
    assert forall|x: int| 0 <= x < n && t.vis[x] && !#[trigger] t.black[x] implies exists|i: int|
        0 <= i < t.stack.len() && (#[trigger] t.stack[i]).0 == x by {
        assert(x == u);
        assert(t.stack[0].0 == u);
    }
    assert forall|i: int, c: int|
        0 <= i < t.stack.len() && 0 <= c < n && t.black[c] && #[trigger] t.par[c] == Some(#[trigger] t.stack[i].0)
            implies t.low[t.stack[i].0 as int] <= t.low[c] by {
        assert(t.stack[i].0 == u);
        assert(s.vis[c]);
        assert(parent_ok(m, s, c));
    }
    assert(inv_stack(m, t, sym));
    // left vertices
    assert forall|v: int, j: int| 0 <= v < n && t.black[v] && 0 <= j < m.adj[v].len() && sym
        implies #[trigger] entry_nested(m, t, v, j) by {
        assert(entry_nested(m, s, v, j));
        let w = target(m, v, j);
        assert(0 <= w < n);
        assert(anc(t, v, w) == anc(s, v, w));
        assert(anc(t, w, v) == anc(s, w, v));
    }
    assert forall|v: int, x: int, j: int|
        0 <= v < n && 0 <= x < n && t.black[v] && #[trigger] anc(t, v, x) && 0 <= j < m.adj[x].len()
            && #[trigger] non_parent_entry(m, t, x, j) implies t.low[v] <= t.disc[target(m, x, j)] by {
        assert(anc(s, v, x));
        assert(non_parent_entry(m, s, x, j));
        let w = target(m, x, j);
        assert(0 <= w < n);
        if w == u {
            assert(s.low[v] <= s.disc[v]);
        }
    }
    assert(inv_black(m, t, sym));
    // parents
    assert forall|x: int| 0 <= x < n && t.vis[x] && (#[trigger] t.par[x]) is Some implies parent_ok(m, t, x) by {
        assert(x != u);
        assert(parent_ok(m, s, x));
    }
    assert(inv_parent(m, t));
    // low
    assert forall|v: int| 0 <= v < n && t.vis[v] implies #[trigger] low_attained(m, t, v) by {
        if v != u {
            assert(low_attained(m, s, v));
            if s.low[v] != s.disc[v] {
                let (x, j) = choose|x: int, j: int|
                    0 <= x < n && 0 <= j < m.adj[x].len() && #[trigger] anc(s, v, x) && #[trigger] non_parent_entry(m, s, x, j)
                        && s.vis[target(m, x, j)] && s.disc[target(m, x, j)] == s.low[v];
                assert(anc(t, v, x) && non_parent_entry(m, t, x, j));
                assert(0 <= target(m, x, j) < n);
            }
        }
    }
    // flags
    assert forall|p: int| 0 <= p < n implies (t.ap[p] <==> #[trigger] ap_reason(m, t, p)) by {
        assert(s.ap[p] <==> ap_reason(m, s, p));
        if p != u {
            if s.par[p] is Some {
                if exists|c: int| 0 <= c < n && s.black[c] && #[trigger] s.par[c] == Some(p as usize) && s.low[c] >= s.disc[p] {
                    let c = choose|c: int| 0 <= c < n && s.black[c] && #[trigger] s.par[c] == Some(p as usize) && s.low[c] >= s.disc[p];
                    assert(t.par[c] == Some(p as usize));
                }
                if exists|c: int| 0 <= c < n && t.black[c] && #[trigger] t.par[c] == Some(p as usize) && t.low[c] >= t.disc[p] {
                    let c = choose|c: int| 0 <= c < n && t.black[c] && #[trigger] t.par[c] == Some(p as usize) && t.low[c] >= t.disc[p];
                    assert(s.par[c] == Some(p as usize));
                }
            }
        }
    }
}

/// Counting children depends only on which vertices have `p` as parent.
pub proof fn lemma_count_children_same(par1: Seq<Option<usize>>, par2: Seq<Option<usize>>, p: int, k: int)
    requires
        forall|c: int| 0 <= c < k ==> (par1[c] == Some(p as usize)) == (par2[c] == Some(p as usize)),
    ensures
        count_children(par1, p, k) == count_children(par2, p, k),
    decreases k,
{
    if k > 0 {
        lemma_count_children_same(par1, par2, p, k - 1);
    }
}

/// Discovering an unvisited target of the top frame keeps the invariant.
pub proof fn lemma_tree_step<W>(m: GraphModel<W>, s: DfsState, sym: bool)
    requires
        m.wf(),
        inv_all(m, s, sym),
        s.stack.len() > 0,
        s.stack.last().1 < m.adj[s.stack.last().0 as int].len(),
        !s.vis[target(m, s.stack.last().0 as int, s.stack.last().1 as int)],
    ensures
        inv_all(m, discover(advance(s), target(m, s.stack.last().0 as int, s.stack.last().1 as int), Some(s.stack.last().0)), sym),
        s.time < m.n,
{
    let n = m.n;
    let top = s.stack.len() - 1;
    let v = s.stack[top].0 as int;
    let idx = s.stack[top].1 as int;
    let u = target(m, v, idx);
    let a = advance(s);
    let t = discover(a, u, Some(v as usize));
    m.lemma_adj_in_range();
    assert(0 <= u < n);
    assert(0 <= v < n);
    lemma_count_true_bound(s.vis);
    lemma_count_true_update(s.vis, u);
    assert(s.vis[v] && !s.black[v]);
    assert forall|i: int| 0 <= i < s.stack.len() implies (#[trigger] s.stack[i]).0 != u by {
        assert(s.vis[s.stack[i].0 as int]);
    }
    assert forall|i: int| 0 <= i < s.stack.len() implies #[trigger] t.stack[i] == if i == top { (v as usize, (idx + 1) as usize) } else { s.stack[i] } by {}
    assert(t.stack[s.stack.len() as int] == (u as usize, 0usize));
    assert(t.stack.len() == s.stack.len() + 1);
    assert forall|y: int, x: int| 0 <= x < n && 0 <= y < n && x != u && y != u implies #[trigger] anc(t, y, x) == anc(s, y, x) by {}
    assert forall|x: int| 0 <= x < n && x != u implies !#[trigger] anc(t, u, x) by {}
    assert forall|y: int| 0 <= y < n && #[trigger] anc(t, y, u) && y != u implies !s.black[y] && s.vis[y] by {}
    // basic
    assert(inv_basic(m, t));
    // stack
    assert forall|i: int, j: int| 0 <= i < j < t.stack.len() implies t.disc[(#[trigger] t.stack[i]).0 as int] < t.disc[(#[trigger] t.stack[j]).0 as int] by {
        if j < s.stack.len() {
            assert(s.disc[s.stack[i].0 as int] < s.disc[s.stack[j].0 as int]);
        }
    }
    assert forall|x: int| 0 <= x < n && t.vis[x] && !#[trigger] t.black[x] implies exists|i: int|
        0 <= i < t.stack.len() && (#[trigger] t.stack[i]).0 == x by {
        if x == u {
            assert(t.stack[s.stack.len() as int].0 == u);
        } else {
            let i = choose|i: int| 0 <= i < s.stack.len() && (#[trigger] s.stack[i]).0 == x;
            assert(t.stack[i].0 == x);
        }
    }
    assert forall|i: int| 0 < i < t.stack.len() implies t.par[(#[trigger] t.stack[i]).0 as int] == Some(t.stack[i - 1].0) by {
        if i < s.stack.len() {
            assert(s.par[s.stack[i].0 as int] == Some(s.stack[i - 1].0));
        }
    }
    assert forall|i: int, j: int| 0 <= i < t.stack.len() && 0 <= j < t.stack[i].1 implies #[trigger] scanned_ok(m, t, sym, t.stack[i].0 as int, j) by {
        let x = t.stack[i].0 as int;
        let w = target(m, x, j);
        assert(0 <= w < n);
        if i == top && j == idx {
            assert(anc(t, v, u));
        } else {
            assert(i < s.stack.len());
            assert(scanned_ok(m, s, sym, x, j));
            assert(w != u);
            assert(anc(t, x, w) == anc(s, x, w));
            assert(anc(t, w, x) == anc(s, w, x));
        }
    }
    assert forall|i: int, c: int|
        0 <= i < t.stack.len() && 0 <= c < n && t.black[c] && #[trigger] t.par[c] == Some(#[trigger] t.stack[i].0)
            implies t.low[t.stack[i].0 as int] <= t.low[c] by {
        assert(c != u);
        if i == s.stack.len() {
            assert(parent_ok(m, s, c));
        } else {
            assert(s.par[c] == Some(s.stack[i].0));
        }
    }
    assert(inv_stack(m, t, sym));
    // left vertices
    assert forall|v2: int, j: int| 0 <= v2 < n && t.black[v2] && 0 <= j < m.adj[v2].len() && sym
        implies #[trigger] entry_nested(m, t, v2, j) by {
        assert(entry_nested(m, s, v2, j));
        let w = target(m, v2, j);
        assert(0 <= w < n);
        assert(anc(t, v2, w) == anc(s, v2, w));
        assert(anc(t, w, v2) == anc(s, w, v2));
    }
    assert forall|v2: int, x: int, j: int|
        0 <= v2 < n && 0 <= x < n && t.black[v2] && #[trigger] anc(t, v2, x) && 0 <= j < m.adj[x].len()
            && #[trigger] non_parent_entry(m, t, x, j) implies t.low[v2] <= t.disc[target(m, x, j)] by {
        assert(anc(s, v2, x));
        assert(non_parent_entry(m, s, x, j));
        let w = target(m, x, j);
        assert(0 <= w < n);
    }
    assert(inv_black(m, t, sym));
    // parents
    assert forall|x: int| 0 <= x < n && t.vis[x] && (#[trigger] t.par[x]) is Some implies parent_ok(m, t, x) by {
        if x == u {
            assert(m.adj[v][idx].0 as int == u);
            assert(has_edge(m, v, u));
            assert forall|y: int| 0 <= y < n && y != u && #[trigger] anc(t, y, u) implies t.disc[y] <= t.disc[v] by {
                let i = choose|i: int| 0 <= i < s.stack.len() && (#[trigger] s.stack[i]).0 == y;
                if i < top {
                    assert(s.disc[s.stack[i].0 as int] < s.disc[s.stack[top].0 as int]);
                }
            }
        } else {
            assert(parent_ok(m, s, x));
        }
    }
    assert(inv_parent(m, t));
    // low
    assert forall|v2: int| 0 <= v2 < n && t.vis[v2] implies #[trigger] low_attained(m, t, v2) by {
        if v2 != u {
            assert(low_attained(m, s, v2));
            if s.low[v2] != s.disc[v2] {
                let (x, j) = choose|x: int, j: int|
                    0 <= x < n && 0 <= j < m.adj[x].len() && #[trigger] anc(s, v2, x) && #[trigger] non_parent_entry(m, s, x, j)
                        && s.vis[target(m, x, j)] && s.disc[target(m, x, j)] == s.low[v2];
                assert(anc(t, v2, x) && non_parent_entry(m, t, x, j));
                assert(0 <= target(m, x, j) < n);
            }
        }
    }
    // flags
    assert forall|p: int| 0 <= p < n implies (t.ap[p] <==> #[trigger] ap_reason(m, t, p)) by {
        assert(s.ap[p] <==> ap_reason(m, s, p));
        if p == u {
            if exists|c: int| 0 <= c < n && t.black[c] && #[trigger] t.par[c] == Some(p as usize) && t.low[c] >= t.disc[p] {
                let c = choose|c: int| 0 <= c < n && t.black[c] && #[trigger] t.par[c] == Some(p as usize) && t.low[c] >= t.disc[p];
                assert(parent_ok(m, s, c));
            }
        } else {
            if s.par[p] is Some {
                if exists|c: int| 0 <= c < n && s.black[c] && #[trigger] s.par[c] == Some(p as usize) && s.low[c] >= s.disc[p] {
                    let c = choose|c: int| 0 <= c < n && s.black[c] && #[trigger] s.par[c] == Some(p as usize) && s.low[c] >= s.disc[p];
                    assert(t.par[c] == Some(p as usize));
                }
                if exists|c: int| 0 <= c < n && t.black[c] && #[trigger] t.par[c] == Some(p as usize) && t.low[c] >= t.disc[p] {
                    let c = choose|c: int| 0 <= c < n && t.black[c] && #[trigger] t.par[c] == Some(p as usize) && t.low[c] >= t.disc[p];
                    assert(s.par[c] == Some(p as usize));
                }
            }
            if s.par[p] is None && s.black[p] {
assert forall|c: int| 0 <= c < n implies (s.par[c] == Some(p as usize)) == (t.par[c] == Some(p as usize)) by {
                    if c == u {
                        assert(v != p);
                    }
                }
                lemma_count_children_same(s.par, t.par, p, n as int);
            }
        }
    }
}

/// Examining an entry whose target was discovered already keeps the invariant.
pub proof fn lemma_back_step<W>(m: GraphModel<W>, s: DfsState, sym: bool)
    requires
        m.wf(),
        sym ==> symmetric(m),
        inv_all(m, s, sym),
        s.stack.len() > 0,
        s.stack.last().1 < m.adj[s.stack.last().0 as int].len(),
        s.vis[target(m, s.stack.last().0 as int, s.stack.last().1 as int)],
    ensures
        inv_all(m, back_step(m, s), sym),
{
    let n = m.n;
    let top = s.stack.len() - 1;
    let v = s.stack[top].0 as int;
    let idx = s.stack[top].1 as int;
    let u = target(m, v, idx);
    let t = back_step(m, s);
    m.lemma_adj_in_range();
    assert(0 <= u < n);
    assert(0 <= v < n);
    assert(s.vis[v] && !s.black[v]);
    assert forall|i: int| 0 <= i < s.stack.len() implies #[trigger] t.stack[i] == if i == top { (v as usize, (idx + 1) as usize) } else { s.stack[i] } by {}
    assert(t.stack.len() == s.stack.len());
    assert forall|y: int, x: int| 0 <= x < n && 0 <= y < n implies #[trigger] anc(t, y, x) == anc(s, y, x) by {}
    assert(t.low[v] <= s.low[v]);
    assert forall|x: int| 0 <= x < n && x != v implies #[trigger] t.low[x] == s.low[x] by {}
    // the new entry joins nested vertices in an undirected graph
    if sym {
        if s.black[u] {
            assert(m.adj[v][idx].0 as int == u);
            assert(has_edge(m, v, u));
            assert(has_edge(m, u, v));
            let j2 = choose|k: int| 0 <= k < m.adj[u].len() && (#[trigger] m.adj[u][k]).0 == v;
            assert(entry_nested(m, s, u, j2));
            if anc(s, u, v) {
                assert(s.black[v]);
            }
        } else {
            let i = choose|i: int| 0 <= i < s.stack.len() && (#[trigger] s.stack[i]).0 == u;
            if i < top {
                assert(s.disc[s.stack[i].0 as int] < s.disc[s.stack[top].0 as int]);
            }
            assert(anc(s, u, v));
        }
        assert(nested(t, v, u));
    }
    assert(inv_basic(m, t));
    assert forall|i: int, j: int| 0 <= i < t.stack.len() && 0 <= j < t.stack[i].1 implies #[trigger] scanned_ok(m, t, sym, t.stack[i].0 as int, j) by {
        let x = t.stack[i].0 as int;
        if !(i == top && j == idx) {
            assert(scanned_ok(m, s, sym, x, j));
        }
    }
    assert forall|i: int, c: int|
        0 <= i < t.stack.len() && 0 <= c < n && t.black[c] && #[trigger] t.par[c] == Some(#[trigger] t.stack[i].0)
            implies t.low[t.stack[i].0 as int] <= t.low[c] by {
        assert(s.par[c] == Some(s.stack[i].0));
        assert(c != v);
    }
    assert forall|x: int| 0 <= x < n && t.vis[x] && !#[trigger] t.black[x] implies exists|i: int|
        0 <= i < t.stack.len() && (#[trigger] t.stack[i]).0 == x by {
        let i = choose|i: int| 0 <= i < s.stack.len() && (#[trigger] s.stack[i]).0 == x;
        assert(t.stack[i].0 == x);
    }
    assert forall|i: int| 0 < i < t.stack.len() implies t.par[(#[trigger] t.stack[i]).0 as int] == Some(t.stack[i - 1].0) by {
        assert(s.par[s.stack[i].0 as int] == Some(s.stack[i - 1].0));
    }
    assert forall|i: int, j: int| 0 <= i < j < t.stack.len() implies t.disc[(#[trigger] t.stack[i]).0 as int] < t.disc[(#[trigger] t.stack[j]).0 as int] by {
        assert(s.disc[s.stack[i].0 as int] < s.disc[s.stack[j].0 as int]);
    }
    assert(inv_stack(m, t, sym));
    assert forall|v2: int, j: int| 0 <= v2 < n && t.black[v2] && 0 <= j < m.adj[v2].len() && sym
        implies #[trigger] entry_nested(m, t, v2, j) by {
        assert(entry_nested(m, s, v2, j));
    }
    assert forall|v2: int, x: int, j: int|
        0 <= v2 < n && 0 <= x < n && t.black[v2] && #[trigger] anc(t, v2, x) && 0 <= j < m.adj[x].len()
            && #[trigger] non_parent_entry(m, t, x, j) implies t.low[v2] <= t.disc[target(m, x, j)] by {
        assert(anc(s, v2, x));
        assert(non_parent_entry(m, s, x, j));
    }
    assert(inv_black(m, t, sym));
    assert forall|x: int| 0 <= x < n && t.vis[x] && (#[trigger] t.par[x]) is Some implies parent_ok(m, t, x) by {
        assert(parent_ok(m, s, x));
    }
    assert(inv_parent(m, t));
    assert forall|v2: int| 0 <= v2 < n && t.vis[v2] implies #[trigger] low_attained(m, t, v2) by {
        if v2 == v && t.low[v] != s.low[v] {
            assert(anc(t, v, v) && non_parent_entry(m, t, v, idx));
        } else {
            assert(low_attained(m, s, v2));
            if s.low[v2] != s.disc[v2] {
                let (x, j) = choose|x: int, j: int|
                    0 <= x < n && 0 <= j < m.adj[x].len() && #[trigger] anc(s, v2, x) && #[trigger] non_parent_entry(m, s, x, j)
                        && s.vis[target(m, x, j)] && s.disc[target(m, x, j)] == s.low[v2];
                assert(anc(t, v2, x) && non_parent_entry(m, t, x, j));
            }
        }
    }
    assert forall|p: int| 0 <= p < n implies (t.ap[p] <==> #[trigger] ap_reason(m, t, p)) by {
        assert(s.ap[p] <==> ap_reason(m, s, p));
        if exists|c: int| 0 <= c < n && s.black[c] && #[trigger] s.par[c] == Some(p as usize) && s.low[c] >= s.disc[p] {
            let c = choose|c: int| 0 <= c < n && s.black[c] && #[trigger] s.par[c] == Some(p as usize) && s.low[c] >= s.disc[p];
            assert(t.par[c] == Some(p as usize));
        }
        if exists|c: int| 0 <= c < n && t.black[c] && #[trigger] t.par[c] == Some(p as usize) && t.low[c] >= t.disc[p] {
            let c = choose|c: int| 0 <= c < n && t.black[c] && #[trigger] t.par[c] == Some(p as usize) && t.low[c] >= t.disc[p];
            assert(s.par[c] == Some(p as usize));
        }
    }
}

/// A vertex in the subtree of `v`, other than `v`, lies in the subtree of a child of `v`.
pub proof fn lemma_child_subtree<W>(m: GraphModel<W>, s: DfsState, v: int, x: int)
    requires
        inv_basic(m, s),
        inv_black(m, s, false),
        inv_parent(m, s),
        0 <= v < m.n,
        0 <= x < m.n,
        anc(s, v, x),
        x != v,
    ensures
        exists|c: int| 0 <= c < m.n && #[trigger] s.par[c] == Some(v as usize) && anc(s, c, x) && anc(s, v, c) && c != v,
    decreases s.disc[x],
{
    if s.par[x] is None {
        assert(!anc(s, v, x));
    }
    assert(parent_ok(m, s, x));
    let p = s.par[x]->0 as int;
    if p == v {
        assert(s.par[x] == Some(v as usize));
    } else {
        assert(s.disc[v] <= s.disc[p]);
        assert(anc(s, v, p));
        lemma_child_subtree(m, s, v, p);
        let c = choose|c: int| 0 <= c < m.n && #[trigger] s.par[c] == Some(v as usize) && anc(s, c, p) && anc(s, v, c) && c != v;
        if s.black[c] {
            assert(s.black[p] && s.fin[p] <= s.fin[c]);
        }
        assert(anc(s, c, x));
    }
}

/// Leaving a fully examined vertex that has a parent keeps the invariant.
#[verifier::rlimit(80)]
pub proof fn lemma_finish_child<W>(m: GraphModel<W>, s: DfsState, sym: bool)
    requires
        m.wf(),
        inv_all(m, s, sym),
        s.stack.len() > 0,
        s.stack.last().1 == m.adj[s.stack.last().0 as int].len(),
        s.par[s.stack.last().0 as int] is Some,
    ensures
        inv_all(m, finish_child(s), sym),
        s.stack.len() >= 2,
        s.par[s.stack.last().0 as int] == Some(s.stack[s.stack.len() - 2].0),
{
    let n = m.n;
    let top = s.stack.len() - 1;
    let v = s.stack[top].0 as int;
    m.lemma_adj_in_range();
    assert(0 <= v < n);
    if top == 0 {
        assert(s.par[s.stack[0].0 as int] is None);
    }
    assert(s.par[s.stack[top].0 as int] == Some(s.stack[top - 1].0));
    let p = s.stack[top - 1].0 as int;
    assert(0 <= p < n);
    let t = finish_child(s);
    assert(s.vis[v] && !s.black[v] && s.vis[p] && !s.black[p]);
    assert(s.disc[p] < s.disc[v]);
    assert(t.stack =~= s.stack.drop_last());
    assert forall|i: int| 0 <= i < top implies #[trigger] t.stack[i] == s.stack[i] by {}
    // stack vertices are distinct
    assert forall|i: int| 0 <= i < top implies (#[trigger] s.stack[i]).0 != v by {
        assert(s.disc[s.stack[i].0 as int] < s.disc[s.stack[top].0 as int]);
    }
    assert forall|y: int, x: int| 0 <= x < n && 0 <= y < n implies #[trigger] anc(t, y, x) == anc(s, y, x) by {}
    assert(t.low[p] <= s.low[p] && t.low[p] <= s.low[v]);
    assert(t.low[p] == s.low[p] || t.low[p] == s.low[v]);
    assert forall|x: int| 0 <= x < n && x != p implies #[trigger] t.low[x] == s.low[x] by {}
    // what lies in the subtree of v has been left
    assert forall|x: int| 0 <= x < n && #[trigger] anc(s, v, x) && x != v implies s.black[x] by {
        if !s.black[x] {
            let i = choose|i: int| 0 <= i < s.stack.len() && (#[trigger] s.stack[i]).0 == x;
            if i < top {
                assert(s.disc[s.stack[i].0 as int] < s.disc[s.stack[top].0 as int]);
            }
        }
    }
    assert(inv_basic(m, t));
    // stack
    assert forall|x: int| 0 <= x < n && t.vis[x] && !#[trigger] t.black[x] implies exists|i: int|
        0 <= i < t.stack.len() && (#[trigger] t.stack[i]).0 == x by {
        let i = choose|i: int| 0 <= i < s.stack.len() && (#[trigger] s.stack[i]).0 == x;
        assert(i != top);
        assert(t.stack[i].0 == x);
    }
    assert forall|i: int, j: int| 0 <= i < t.stack.len() && 0 <= j < t.stack[i].1 implies #[trigger] scanned_ok(m, t, sym, t.stack[i].0 as int, j) by {
        assert(scanned_ok(m, s, sym, s.stack[i].0 as int, j));
    }
    assert forall|i: int, c: int|
        0 <= i < t.stack.len() && 0 <= c < n && t.black[c] && #[trigger] t.par[c] == Some(#[trigger] t.stack[i].0)
            implies t.low[t.stack[i].0 as int] <= t.low[c] by {
        if c == v {
            if i != top - 1 {
                if i < top - 1 {
                    assert(s.disc[s.stack[i].0 as int] < s.disc[s.stack[top - 1].0 as int]);
                }
            }
        } else {
            assert(s.par[c] == Some(s.stack[i].0));
            assert(s.low[s.stack[i].0 as int] <= s.low[c]);
        }
    }
    assert forall|i: int| 0 < i < t.stack.len() implies t.par[(#[trigger] t.stack[i]).0 as int] == Some(t.stack[i - 1].0) by {
        assert(s.par[s.stack[i].0 as int] == Some(s.stack[i - 1].0));
    }
    assert forall|i: int, j: int| 0 <= i < j < t.stack.len() implies t.disc[(#[trigger] t.stack[i]).0 as int] < t.disc[(#[trigger] t.stack[j]).0 as int] by {
        assert(s.disc[s.stack[i].0 as int] < s.disc[s.stack[j].0 as int]);
    }
    assert(inv_stack(m, t, sym));
    // left vertices
    assert forall|v2: int, x: int| 0 <= v2 < n && 0 <= x < n && t.black[v2] && #[trigger] anc(t, v2, x) implies t.black[x] && t.fin[x] <= t.fin[v2] by {
        if v2 != v {
            assert(s.black[v2] && anc(s, v2, x));
            if x == v {
                assert(s.black[v]);
            }
        }
    }
    assert forall|v2: int, j: int| 0 <= v2 < n && t.black[v2] && 0 <= j < m.adj[v2].len() && sym
        implies #[trigger] entry_nested(m, t, v2, j) by {
        if v2 == v {
            assert(scanned_ok(m, s, sym, s.stack[top].0 as int, j));
        } else {
            assert(entry_nested(m, s, v2, j));
        }
    }
    assert forall|v2: int, x: int, j: int|
        0 <= v2 < n && 0 <= x < n && t.black[v2] && #[trigger] anc(t, v2, x) && 0 <= j < m.adj[x].len()
            && #[trigger] non_parent_entry(m, t, x, j) implies t.low[v2] <= t.disc[target(m, x, j)] by {
        assert(non_parent_entry(m, s, x, j));
        if v2 == v {
            if x == v {
                assert(scanned_ok(m, s, sym, s.stack[top].0 as int, j));
            } else {
                lemma_child_subtree(m, s, v, x);
                let c = choose|c: int| 0 <= c < n && #[trigger] s.par[c] == Some(v as usize) && anc(s, c, x) && anc(s, v, c) && c != v;
                assert(s.black[c]);
                assert(s.low[s.stack[top].0 as int] <= s.low[c]);
                assert(s.low[c] <= s.disc[target(m, x, j)]);
            }
        } else {
            assert(s.black[v2]);
        }
    }
    assert(inv_black(m, t, sym));
    assert forall|x: int| 0 <= x < n && t.vis[x] && (#[trigger] t.par[x]) is Some implies parent_ok(m, t, x) by {
        assert(parent_ok(m, s, x));
    }
    assert(inv_parent(m, t));
    // low
    assert(low_attained(m, s, v));
    assert forall|v2: int| 0 <= v2 < n && t.vis[v2] implies #[trigger] low_attained(m, t, v2) by {
        if v2 == p && t.low[p] != s.low[p] {
            assert(s.low[v] < s.low[p]);
            assert(s.low[v] != s.disc[v]);
            let (x, j) = choose|x: int, j: int|
                0 <= x < n && 0 <= j < m.adj[x].len() && #[trigger] anc(s, v, x) && #[trigger] non_parent_entry(m, s, x, j)
                    && s.vis[target(m, x, j)] && s.disc[target(m, x, j)] == s.low[v];
            assert(anc(t, p, x) && non_parent_entry(m, t, x, j));
        } else {
            assert(low_attained(m, s, v2));
            if s.low[v2] != s.disc[v2] {
                let (x, j) = choose|x: int, j: int|
                    0 <= x < n && 0 <= j < m.adj[x].len() && #[trigger] anc(s, v2, x) && #[trigger] non_parent_entry(m, s, x, j)
                        && s.vis[target(m, x, j)] && s.disc[target(m, x, j)] == s.low[v2];
                assert(anc(t, v2, x) && non_parent_entry(m, t, x, j));
            }
        }
    }
    lemma_finish_child_flags(m, s, sym);
}

/// The flags stay explained when a vertex with a parent is left.
proof fn lemma_finish_child_flags<W>(m: GraphModel<W>, s: DfsState, sym: bool)
    requires
        m.wf(),
        inv_all(m, s, sym),
        s.stack.len() > 1,
        s.stack.last().1 == m.adj[s.stack.last().0 as int].len(),
        s.par[s.stack.last().0 as int] == Some(s.stack[s.stack.len() - 2].0),
    ensures
        inv_ap(m, finish_child(s)),
{
    let n = m.n;
    let top = s.stack.len() - 1;
    let v = s.stack[top].0 as int;
    let p = s.stack[top - 1].0 as int;
    let t = finish_child(s);
    assert(0 <= v < n && 0 <= p < n);
    assert(s.vis[p] && !s.black[p]);
    assert(s.disc[s.stack[top - 1].0 as int] < s.disc[s.stack[top].0 as int]);
    assert(p != v);
    // flags
    assert forall|q: int| 0 <= q < n implies (t.ap[q] <==> #[trigger] ap_reason(m, t, q)) by {
        assert(s.ap[q] <==> ap_reason(m, s, q));
        if exists|c: int| 0 <= c < n && s.black[c] && #[trigger] s.par[c] == Some(q as usize) && s.low[c] >= s.disc[q] {
            let c = choose|c: int| 0 <= c < n && s.black[c] && #[trigger] s.par[c] == Some(q as usize) && s.low[c] >= s.disc[q];
            assert(t.par[c] == Some(q as usize) && t.black[c] && c != p);
        }
        if exists|c: int| 0 <= c < n && t.black[c] && #[trigger] t.par[c] == Some(q as usize) && t.low[c] >= t.disc[q] {
            let c = choose|c: int| 0 <= c < n && t.black[c] && #[trigger] t.par[c] == Some(q as usize) && t.low[c] >= t.disc[q];
            if c != v {
                assert(s.par[c] == Some(q as usize) && s.black[c] && c != p);
            } else {
                assert(q == p);
            }
        }
        if q == p && s.par[p] is Some && s.low[v] >= s.disc[p] {
            assert(t.black[v] && t.par[v] == Some(p as usize) && t.low[v] >= t.disc[p]);
        }
    }
}

/// Leaving a fully examined root keeps the invariant and empties the stack.
#[verifier::rlimit(80)]
pub proof fn lemma_finish_root<W>(m: GraphModel<W>, s: DfsState, sym: bool)
    requires
        m.wf(),
        inv_all(m, s, sym),
        s.stack.len() > 0,
        s.stack.last().1 == m.adj[s.stack.last().0 as int].len(),
        s.par[s.stack.last().0 as int] is None,
    ensures
        inv_all(m, finish_root(m, s), sym),
        s.stack.len() == 1,
        !s.ap[s.stack.last().0 as int],
{
    let n = m.n;
    let top = s.stack.len() - 1;
    let v = s.stack[top].0 as int;
    m.lemma_adj_in_range();
    assert(0 <= v < n);
    if top > 0 {
        assert(s.par[s.stack[top].0 as int] == Some(s.stack[top - 1].0));
    }
    assert(ap_reason(m, s, v) == false);
    let t = finish_root(m, s);
    assert(s.vis[v] && !s.black[v]);
    assert(t.stack.len() == 0);
    assert forall|y: int, x: int| 0 <= x < n && 0 <= y < n implies #[trigger] anc(t, y, x) == anc(s, y, x) by {}
    assert forall|x: int| 0 <= x < n && #[trigger] anc(s, v, x) && x != v implies s.black[x] by {
        if !s.black[x] {
            let i = choose|i: int| 0 <= i < s.stack.len() && (#[trigger] s.stack[i]).0 == x;
        }
    }
    assert(inv_basic(m, t));
    assert forall|x: int| 0 <= x < n && t.vis[x] && !#[trigger] t.black[x] implies exists|i: int|
        0 <= i < t.stack.len() && (#[trigger] t.stack[i]).0 == x by {
        let i = choose|i: int| 0 <= i < s.stack.len() && (#[trigger] s.stack[i]).0 == x;
    }
    assert(inv_stack(m, t, sym));
    assert forall|v2: int, x: int| 0 <= v2 < n && 0 <= x < n && t.black[v2] && #[trigger] anc(t, v2, x) implies t.black[x] && t.fin[x] <= t.fin[v2] by {
        if v2 != v {
            assert(s.black[v2] && anc(s, v2, x));
            if x == v {
                assert(s.black[v]);
            }
        }
    }
    assert forall|v2: int, j: int| 0 <= v2 < n && t.black[v2] && 0 <= j < m.adj[v2].len() && sym
        implies #[trigger] entry_nested(m, t, v2, j) by {
        if v2 == v {
            assert(scanned_ok(m, s, sym, s.stack[top].0 as int, j));
        } else {
            assert(entry_nested(m, s, v2, j));
        }
    }
    assert forall|v2: int, x: int, j: int|
        0 <= v2 < n && 0 <= x < n && t.black[v2] && #[trigger] anc(t, v2, x) && 0 <= j < m.adj[x].len()
            && #[trigger] non_parent_entry(m, t, x, j) implies t.low[v2] <= t.disc[target(m, x, j)] by {
        assert(non_parent_entry(m, s, x, j));
        if v2 == v {
            if x == v {
                assert(scanned_ok(m, s, sym, s.stack[top].0 as int, j));
            } else {
                lemma_child_subtree(m, s, v, x);
                let c = choose|c: int| 0 <= c < n && #[trigger] s.par[c] == Some(v as usize) && anc(s, c, x) && anc(s, v, c) && c != v;
                assert(s.black[c]);
                assert(s.low[s.stack[top].0 as int] <= s.low[c]);
                assert(s.low[c] <= s.disc[target(m, x, j)]);
            }
        } else {
            assert(s.black[v2]);
        }
    }
    assert(inv_black(m, t, sym));
    assert forall|x: int| 0 <= x < n && t.vis[x] && (#[trigger] t.par[x]) is Some implies parent_ok(m, t, x) by {
        assert(parent_ok(m, s, x));
    }
    assert(inv_parent(m, t));
    assert forall|v2: int| 0 <= v2 < n && t.vis[v2] implies #[trigger] low_attained(m, t, v2) by {
        assert(low_attained(m, s, v2));
        if s.low[v2] != s.disc[v2] {
            let (x, j) = choose|x: int, j: int|
                0 <= x < n && 0 <= j < m.adj[x].len() && #[trigger] anc(s, v2, x) && #[trigger] non_parent_entry(m, s, x, j)
                    && s.vis[target(m, x, j)] && s.disc[target(m, x, j)] == s.low[v2];
            assert(anc(t, v2, x) && non_parent_entry(m, t, x, j));
        }
    }
    assert forall|q: int| 0 <= q < n implies (t.ap[q] <==> #[trigger] ap_reason(m, t, q)) by {
        assert(s.ap[q] <==> ap_reason(m, s, q));
        if exists|c: int| 0 <= c < n && s.black[c] && #[trigger] s.par[c] == Some(q as usize) && s.low[c] >= s.disc[q] {
            let c = choose|c: int| 0 <= c < n && s.black[c] && #[trigger] s.par[c] == Some(q as usize) && s.low[c] >= s.disc[q];
            assert(t.par[c] == Some(q as usize) && t.black[c]);
        }
        if exists|c: int| 0 <= c < n && t.black[c] && #[trigger] t.par[c] == Some(q as usize) && t.low[c] >= t.disc[q] {
            let c = choose|c: int| 0 <= c < n && t.black[c] && #[trigger] t.par[c] == Some(q as usize) && t.low[c] >= t.disc[q];
            assert(c != v);
            assert(s.par[c] == Some(q as usize) && s.black[c]);
        }
    }
}

/// The state before the search: nothing discovered, nothing flagged.
pub open spec fn initial_state(n: nat) -> DfsState {
    DfsState {
        vis: Seq::new(n, |i: int| false),
        disc: Seq::new(n, |i: int| 0usize),
        low: Seq::new(n, |i: int| 0usize),
        par: Seq::new(n, |i: int| None),
        ap: Seq::new(n, |i: int| false),
        black: Seq::new(n, |i: int| false),
        fin: Seq::new(n, |i: int| 0int),
        stack: Seq::empty(),
        time: 0,
    }
}

/// The invariant holds before the search.
pub proof fn lemma_initial<W>(m: GraphModel<W>, sym: bool)
    requires
        m.wf(),
    ensures
        inv_all(m, initial_state(m.n), sym),
{
    let s = initial_state(m.n);
    crate::reach::lemma_count_true_none(s.vis);
    assert(inv_basic(m, s));
    assert(inv_stack(m, s, sym));
    assert(inv_black(m, s, sym));
    assert(inv_parent(m, s));
    assert(inv_low(m, s));
    assert forall|p: int| 0 <= p < m.n implies (s.ap[p] <==> #[trigger] ap_reason(m, s, p)) by {}
}

} // verus!
