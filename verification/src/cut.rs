use vstd::prelude::*;

use crate::graph::GraphModel;
use crate::reach::{has_edge, is_walk, lemma_reachable_refl, lemma_reachable_step, reachable, walk_step};
use crate::dfs::{
    anc, ap_reason, count_children, entry_nested, inv_all, lemma_child_subtree, low_attained, non_parent_entry, parent_ok,
    root_children, symmetric, target,
};

verus! {

/// No vertex of the walk is `v`.
pub open spec fn avoids(p: Seq<int>, v: int) -> bool {
    forall|i: int| 0 <= i < p.len() ==> #[trigger] p[i] != v
}

/// Some walk from `a` to `b` never passes through `v`.
pub open spec fn reachable_avoiding<W>(m: GraphModel<W>, v: int, a: int, b: int) -> bool {
    exists|p: Seq<int>| #[trigger] is_walk(m, p) && p[0] == a && p.last() == b && avoids(p, v)
}

/// `v` is an articulation point: two other vertices joined by a walk are
/// joined by no walk that avoids `v`.
pub open spec fn is_cut_vertex<W>(m: GraphModel<W>, v: int) -> bool {
    &&& 0 <= v < m.n
    &&& exists|a: int, b: int|
        0 <= a < m.n && 0 <= b < m.n && a != v && b != v && #[trigger] reachable(m, a, b)
            && !#[trigger] reachable_avoiding(m, v, a, b)
}

/// A walk that starts in a set closed under the adjacency entries that
/// avoid `v`, and itself avoids `v`, stays in the set.
pub proof fn lemma_closed_walk_avoiding<W>(m: GraphModel<W>, s: spec_fn(int) -> bool, v: int, p: Seq<int>, i: int)
    requires
        is_walk(m, p),
        avoids(p, v),
        s(p[0]),
        forall|x: int, u: int| #[trigger] s(x) && #[trigger] has_edge(m, x, u) && u != v ==> s(u),
        0 <= i < p.len(),
    ensures
        s(p[i]),
    decreases i,
{
    if i > 0 {
        lemma_closed_walk_avoiding(m, s, v, p, i - 1);
        assert(walk_step(m, p, i - 1));
        assert(p[i] != v);
    }
}

/// No walk avoiding `v` leaves a set closed under the entries that avoid `v`.
pub proof fn lemma_closed_blocks<W>(m: GraphModel<W>, s: spec_fn(int) -> bool, v: int, a: int, b: int)
    requires
        s(a),
        !s(b),
        forall|x: int, u: int| #[trigger] s(x) && #[trigger] has_edge(m, x, u) && u != v ==> s(u),
    ensures
        !reachable_avoiding(m, v, a, b),
{
    if reachable_avoiding(m, v, a, b) {
        let p = choose|p: Seq<int>| #[trigger] is_walk(m, p) && p[0] == a && p.last() == b && avoids(p, v);
        lemma_closed_walk_avoiding(m, s, v, p, p.len() - 1);
    }
}

/// A walk that starts in a set closed under all adjacency entries stays in it.
pub proof fn lemma_closed_walk<W>(m: GraphModel<W>, s: spec_fn(int) -> bool, p: Seq<int>, i: int)
    requires
        is_walk(m, p),
        s(p[0]),
        forall|x: int, u: int| #[trigger] s(x) && #[trigger] has_edge(m, x, u) ==> s(u),
        0 <= i < p.len(),
    ensures
        s(p[i]),
    decreases i,
{
    if i > 0 {
        lemma_closed_walk(m, s, p, i - 1);
        assert(walk_step(m, p, i - 1));
    }
}

/// A vertex other than `v` reaches itself avoiding `v`.
pub proof fn lemma_avoiding_refl<W>(m: GraphModel<W>, v: int, a: int)
    requires
        a != v,
    ensures
        reachable_avoiding(m, v, a, a),
{
    let p = seq![a];
    assert(is_walk(m, p));
    assert(avoids(p, v));
}

/// A walk avoiding `v` extended by an entry to a vertex other than `v`.
pub proof fn lemma_avoiding_step<W>(m: GraphModel<W>, v: int, a: int, b: int, c: int)
    requires
        reachable_avoiding(m, v, a, b),
        has_edge(m, b, c),
        c != v,
    ensures
        reachable_avoiding(m, v, a, c),
{
    let p = choose|p: Seq<int>| #[trigger] is_walk(m, p) && p[0] == a && p.last() == b && avoids(p, v);
    let q = p.push(c);
    assert forall|i: int| 0 <= i < q.len() - 1 implies #[trigger] walk_step(m, q, i) by {
        if i < p.len() - 1 {
            assert(walk_step(m, p, i));
        }
    }
    assert(is_walk(m, q));
    assert(avoids(q, v));
}

/// Two walks avoiding `v` joined end to start.
pub proof fn lemma_avoiding_trans<W>(m: GraphModel<W>, v: int, a: int, b: int, c: int)
    requires
        reachable_avoiding(m, v, a, b),
        reachable_avoiding(m, v, b, c),
    ensures
        reachable_avoiding(m, v, a, c),
{
    let p = choose|p: Seq<int>| #[trigger] is_walk(m, p) && p[0] == a && p.last() == b && avoids(p, v);
    let q = choose|q: Seq<int>| #[trigger] is_walk(m, q) && q[0] == b && q.last() == c && avoids(q, v);
    let r = p + q.skip(1);
    assert forall|i: int| 0 <= i < r.len() - 1 implies #[trigger] walk_step(m, r, i) by {
        if i < p.len() - 1 {
            assert(walk_step(m, p, i));
        } else if i == p.len() - 1 {
            assert(r[i] == q[0]);
            assert(r[i + 1] == q[1]);
            assert(walk_step(m, q, 0));
        } else {
            let k = i - p.len() + 1;
            assert(r[i] == q[k]);
            assert(r[i + 1] == q[k + 1]);
            assert(walk_step(m, q, k));
        }
    }
    assert(is_walk(m, r));
    assert forall|i: int| 0 <= i < r.len() implies #[trigger] r[i] != v by {
        if i < p.len() {
            assert(r[i] == p[i]);
        } else {
            assert(r[i] == q[i - p.len() + 1]);
        }
    }
    if q.len() == 1 {
        assert(r =~= p);
    } else {
        assert(r.last() == q.last());
    }
}

/// In a graph whose entries come in pairs, a walk avoiding `v` can be reversed.
pub proof fn lemma_avoiding_symm<W>(m: GraphModel<W>, v: int, a: int, b: int)
    requires
        symmetric(m),
        reachable_avoiding(m, v, a, b),
    ensures
        reachable_avoiding(m, v, b, a),
{
    let p = choose|p: Seq<int>| #[trigger] is_walk(m, p) && p[0] == a && p.last() == b && avoids(p, v);
    let r = p.reverse();
    assert forall|i: int| 0 <= i < r.len() - 1 implies #[trigger] walk_step(m, r, i) by {
        let k = p.len() - 2 - i;
        assert(walk_step(m, p, k));
        assert(r[i] == p[k + 1]);
        assert(r[i + 1] == p[k]);
    }
    assert(is_walk(m, r));
    assert forall|i: int| 0 <= i < r.len() implies #[trigger] r[i] != v by {
        assert(r[i] == p[p.len() - 1 - i]);
    }
    assert(r[0] == b);
    assert(r.last() == a);
}


/// The search has left every vertex of an undirected graph.
pub open spec fn search_done<W>(m: GraphModel<W>, s: crate::dfs::DfsState) -> bool {
    &&& m.wf()
    &&& symmetric(m)
    &&& inv_all(m, s, true)
    &&& forall|x: int| 0 <= x < m.n ==> #[trigger] s.vis[x] && s.black[x]
}

/// Subtrees are transitive.
proof fn lemma_anc_trans<W>(m: GraphModel<W>, s: crate::dfs::DfsState, a: int, b: int, c: int)
    requires
        search_done(m, s),
        0 <= a < m.n && 0 <= b < m.n && 0 <= c < m.n,
        anc(s, a, b),
        anc(s, b, c),
    ensures
        anc(s, a, c),
{
    assert(s.black[a] && s.black[b]);
}

/// Two subtrees that share a vertex are nested.
proof fn lemma_anc_laminar<W>(m: GraphModel<W>, s: crate::dfs::DfsState, a: int, b: int, x: int)
    requires
        search_done(m, s),
        0 <= a < m.n && 0 <= b < m.n && 0 <= x < m.n,
        anc(s, a, x),
        anc(s, b, x),
    ensures
        anc(s, a, b) || anc(s, b, a),
{
    assert(s.black[a] && s.black[b]);
}

/// Every adjacency entry joins nested vertices.
proof fn lemma_edge_nested<W>(m: GraphModel<W>, s: crate::dfs::DfsState, x: int, u: int)
    requires
        search_done(m, s),
        has_edge(m, x, u),
    ensures
        0 <= u < m.n,
        anc(s, x, u) || anc(s, u, x),
{
    let j = choose|j: int| 0 <= j < m.adj[x].len() && (#[trigger] m.adj[x][j]).0 == u;
    assert(s.black[x]);
    assert(entry_nested(m, s, x, j));
}

/// The vertices of a subtree are joined to its top by walks inside the subtree.
proof fn lemma_tree_walk<W>(m: GraphModel<W>, s: crate::dfs::DfsState, v: int, c: int, x: int)
    requires
        search_done(m, s),
        0 <= c < m.n && 0 <= x < m.n,
        anc(s, c, x),
        !anc(s, c, v),
    ensures
        reachable_avoiding(m, v, c, x),
    decreases s.disc[x],
{
    if x == c {
        lemma_avoiding_refl(m, v, c);
    } else {
        if s.par[x] is None {
            assert(!anc(s, c, x));
        }
        assert(parent_ok(m, s, x));
        let p = s.par[x]->0 as int;
        assert(s.disc[c] <= s.disc[p]);
        assert(s.black[c]);
        assert(anc(s, c, p));
        lemma_tree_walk(m, s, v, c, p);
        lemma_avoiding_step(m, v, c, p, x);
    }
}

/// Every vertex lies in the subtree of a root.
proof fn lemma_root_above<W>(m: GraphModel<W>, s: crate::dfs::DfsState, x: int)
    requires
        search_done(m, s),
        0 <= x < m.n,
    ensures
        exists|r: int| 0 <= r < m.n && s.par[r] is None && #[trigger] anc(s, r, x),
    decreases s.disc[x],
{
    if s.par[x] is None {
        assert(anc(s, x, x));
    } else {
        assert(parent_ok(m, s, x));
        let p = s.par[x]->0 as int;
        lemma_root_above(m, s, p);
        let r = choose|r: int| 0 <= r < m.n && s.par[r] is None && #[trigger] anc(s, r, p);
        lemma_anc_trans(m, s, r, p, x);
    }
}

/// A vertex outside the subtree of `v` is joined, avoiding `v`, to a root
/// whose subtree holds it.
proof fn lemma_walk_to_root<W>(m: GraphModel<W>, s: crate::dfs::DfsState, v: int, x: int)
    requires
        search_done(m, s),
        0 <= x < m.n,
        0 <= v < m.n,
        !anc(s, v, x),
    ensures
        exists|r: int| 0 <= r < m.n && s.par[r] is None && #[trigger] anc(s, r, x) && reachable_avoiding(m, v, x, r),
    decreases s.disc[x],
{
    assert(anc(s, x, x));
    if s.par[x] is None {
        lemma_avoiding_refl(m, v, x);
    } else {
        assert(parent_ok(m, s, x));
        let p = s.par[x]->0 as int;
        if anc(s, v, p) {
            lemma_anc_trans(m, s, v, p, x);
        }
        lemma_walk_to_root(m, s, v, p);
        let r = choose|r: int| 0 <= r < m.n && s.par[r] is None && #[trigger] anc(s, r, p) && reachable_avoiding(m, v, p, r);
        assert(has_edge(m, x, p));
        lemma_avoiding_refl(m, v, x);
        assert(anc(s, p, p));
        lemma_avoiding_step(m, v, x, x, p);
        lemma_avoiding_trans(m, v, x, p, r);
        lemma_anc_trans(m, s, r, p, x);
    }
}

/// The subtree of a root is closed under adjacency entries.
proof fn lemma_root_closed<W>(m: GraphModel<W>, s: crate::dfs::DfsState, r: int, x: int, u: int)
    requires
        search_done(m, s),
        0 <= r < m.n && 0 <= x < m.n,
        s.par[r] is None,
        anc(s, r, x),
        has_edge(m, x, u),
    ensures
        0 <= u < m.n,
        anc(s, r, u),
{
    lemma_edge_nested(m, s, x, u);
    if anc(s, x, u) {
        lemma_anc_trans(m, s, r, x, u);
    } else {
        lemma_anc_laminar(m, s, r, u, x);
        if !anc(s, r, u) {
            assert(anc(s, u, r));
            assert(u != r);
        }
    }
}

/// Roots are the only vertices above themselves.
proof fn lemma_root_unique<W>(m: GraphModel<W>, s: crate::dfs::DfsState, r1: int, r2: int, x: int)
    requires
        search_done(m, s),
        0 <= r1 < m.n && 0 <= r2 < m.n && 0 <= x < m.n,
        s.par[r1] is None,
        s.par[r2] is None,
        anc(s, r1, x),
        anc(s, r2, x),
    ensures
        r1 == r2,
{
    lemma_anc_laminar(m, s, r1, r2, x);
}

/// A walk from inside a subtree set closed under entries stays inside.
proof fn lemma_reach_stays<W>(m: GraphModel<W>, s: crate::dfs::DfsState, r: int, a: int, b: int)
    requires
        search_done(m, s),
        0 <= r < m.n,
        s.par[r] is None,
        0 <= a < m.n,
        reachable(m, a, b),
    ensures
        anc(s, r, a) ==> anc(s, r, b),
        !anc(s, r, a) ==> reachable_avoiding(m, r, a, b),
{
    let p = choose|p: Seq<int>| #[trigger] is_walk(m, p) && p[0] == a && p.last() == b;
    let n = m.n;
    if anc(s, r, a) {
        let inside = |x: int| 0 <= x < n && anc(s, r, x);
        assert forall|x: int, u: int| #[trigger] inside(x) && #[trigger] has_edge(m, x, u) implies inside(u) by {
            lemma_root_closed(m, s, r, x, u);
        }
        lemma_closed_walk(m, inside, p, p.len() - 1);
    } else {
        let outside = |x: int| 0 <= x < n && !anc(s, r, x);
        assert forall|x: int, u: int| #[trigger] outside(x) && #[trigger] has_edge(m, x, u) implies outside(u) by {
            lemma_edge_nested(m, s, x, u);
            if anc(s, r, u) {
                assert(has_edge(m, u, x));
                lemma_root_closed(m, s, r, u, x);
            }
        }
        assert forall|i: int| 0 <= i < p.len() implies #[trigger] p[i] != r by {
            lemma_closed_walk(m, outside, p, i);
            assert(anc(s, r, r));
        }
        assert(avoids(p, r));
    }
}

/// A vertex whose removal cuts a child's subtree off from the rest.
proof fn lemma_nonroot_flag_cut<W>(m: GraphModel<W>, s: crate::dfs::DfsState, v: int, c: int)
    requires
        search_done(m, s),
        0 <= v < m.n && 0 <= c < m.n,
        s.par[v] is Some,
        s.par[c] == Some(v as usize),
        s.low[c] >= s.disc[v],
    ensures
        is_cut_vertex(m, v),
{
    let n = m.n;
    assert(parent_ok(m, s, v));
    assert(parent_ok(m, s, c));
    let q = s.par[v]->0 as int;
    assert(has_edge(m, c, v));
    assert(has_edge(m, v, q));
    lemma_reachable_refl(m, c);
    lemma_reachable_step(m, c, c, v);
    lemma_reachable_step(m, c, v, q);
    let inside = |x: int| 0 <= x < n && anc(s, c, x);
    assert forall|x: int, u: int| #[trigger] inside(x) && #[trigger] has_edge(m, x, u) && u != v implies inside(u) by {
        lemma_edge_nested(m, s, x, u);
        if anc(s, x, u) {
            lemma_anc_trans(m, s, c, x, u);
        } else {
            lemma_anc_laminar(m, s, c, u, x);
            if !anc(s, c, u) {
                // u lies strictly above c, hence strictly above v
                assert(s.disc[u] <= s.disc[v]);
                assert(s.disc[u] != s.disc[v]);
                let j = choose|j: int| 0 <= j < m.adj[x].len() && (#[trigger] m.adj[x][j]).0 == u;
                if x != c {
                    assert(parent_ok(m, s, x));
                    assert(s.disc[c] <= s.disc[s.par[x]->0 as int]);
                }
                assert(non_parent_entry(m, s, x, j));
                assert(s.black[c]);
                assert(s.low[c] <= s.disc[target(m, x, j)]);
            }
        }
    }
    assert(inside(c));
    lemma_closed_blocks(m, inside, v, c, q);
    assert(reachable(m, c, q) && !reachable_avoiding(m, v, c, q));
}

/// A root with two children separates them.
proof fn lemma_root_flag_cut<W>(m: GraphModel<W>, s: crate::dfs::DfsState, v: int, c1: int, c2: int)
    requires
        search_done(m, s),
        0 <= v < m.n && 0 <= c1 < m.n && 0 <= c2 < m.n,
        s.par[v] is None,
        s.par[c1] == Some(v as usize),
        s.par[c2] == Some(v as usize),
        c1 != c2,
    ensures
        is_cut_vertex(m, v),
{
    let n = m.n;
    assert(parent_ok(m, s, c1));
    assert(parent_ok(m, s, c2));
    assert(has_edge(m, c1, v));
    lemma_reachable_refl(m, c1);
    lemma_reachable_step(m, c1, c1, v);
    lemma_reachable_step(m, c1, v, c2);
    let inside = |x: int| 0 <= x < n && anc(s, c1, x);
    assert forall|x: int, u: int| #[trigger] inside(x) && #[trigger] has_edge(m, x, u) && u != v implies inside(u) by {
        lemma_edge_nested(m, s, x, u);
        if anc(s, x, u) {
            lemma_anc_trans(m, s, c1, x, u);
        } else {
            lemma_anc_laminar(m, s, c1, u, x);
            if !anc(s, c1, u) {
                assert(s.disc[u] <= s.disc[v]);
                lemma_anc_laminar(m, s, u, v, c1);
            }
        }
    }
    assert(inside(c1));
    assert(!inside(c2));
    lemma_closed_blocks(m, inside, v, c1, c2);
}

/// A root with at most one child separates nothing.
proof fn lemma_root_not_cut<W>(m: GraphModel<W>, s: crate::dfs::DfsState, v: int)
    requires
        search_done(m, s),
        0 <= v < m.n,
        s.par[v] is None,
        forall|c1: int, c2: int|
            0 <= c1 < m.n && 0 <= c2 < m.n && #[trigger] s.par[c1] == Some(v as usize) && #[trigger] s.par[c2] == Some(v as usize)
                ==> c1 == c2,
    ensures
        !is_cut_vertex(m, v),
{
    let n = m.n;
    assert forall|a: int, b: int|
        0 <= a < n && 0 <= b < n && a != v && b != v && #[trigger] reachable(m, a, b)
            implies #[trigger] reachable_avoiding(m, v, a, b) by {
        lemma_reach_stays(m, s, v, a, b);
        if anc(s, v, a) {
            lemma_child_subtree(m, s, v, a);
            let c = choose|c: int| 0 <= c < n && #[trigger] s.par[c] == Some(v as usize) && anc(s, c, a) && anc(s, v, c) && c != v;
            lemma_child_subtree(m, s, v, b);
            let c2 = choose|c: int| 0 <= c < n && #[trigger] s.par[c] == Some(v as usize) && anc(s, c, b) && anc(s, v, c) && c != v;
            assert(c == c2);
            assert(parent_ok(m, s, c));
            lemma_tree_walk(m, s, v, c, a);
            lemma_tree_walk(m, s, v, c, b);
            lemma_avoiding_symm(m, v, c, a);
            lemma_avoiding_trans(m, v, a, c, b);
        }
    }
}

/// Every vertex of the search tree of `r` other than `v` reaches `r` avoiding
/// `v`, when each child subtree of `v` has an entry that climbs above `v`.
proof fn lemma_reach_root_avoiding<W>(m: GraphModel<W>, s: crate::dfs::DfsState, v: int, r: int, x: int)
    requires
        search_done(m, s),
        0 <= v < m.n && 0 <= r < m.n && 0 <= x < m.n,
        s.par[r] is None,
        anc(s, r, v),
        r != v,
        anc(s, r, x),
        x != v,
        forall|c: int| 0 <= c < m.n && #[trigger] s.par[c] == Some(v as usize) ==> s.low[c] < s.disc[v],
    ensures
        reachable_avoiding(m, v, x, r),
{
    let n = m.n;
    if !anc(s, v, x) {
        lemma_walk_to_root(m, s, v, x);
        let r2 = choose|r2: int| 0 <= r2 < n && s.par[r2] is None && #[trigger] anc(s, r2, x) && reachable_avoiding(m, v, x, r2);
        lemma_root_unique(m, s, r, r2, x);
    } else {
        lemma_child_subtree(m, s, v, x);
        let c = choose|c: int| 0 <= c < n && #[trigger] s.par[c] == Some(v as usize) && anc(s, c, x) && anc(s, v, c) && c != v;
        assert(parent_ok(m, s, c));
        assert(s.low[c] < s.disc[v]);
        assert(low_attained(m, s, c));
        let (y, j) = choose|y: int, j: int|
            0 <= y < n && 0 <= j < m.adj[y].len() && #[trigger] anc(s, c, y) && #[trigger] non_parent_entry(m, s, y, j)
                && s.vis[target(m, y, j)] && s.disc[target(m, y, j)] == s.low[c];
        let u = target(m, y, j);
        assert(has_edge(m, y, u));
        lemma_edge_nested(m, s, y, u);
        assert(!anc(s, y, u));
        assert(u != v);
        assert(!anc(s, v, u));
        lemma_walk_to_root(m, s, v, u);
        let r2 = choose|r2: int| 0 <= r2 < n && s.par[r2] is None && #[trigger] anc(s, r2, u) && reachable_avoiding(m, v, u, r2);
        lemma_anc_trans(m, s, r, v, c);
        lemma_anc_trans(m, s, r, c, y);
        lemma_anc_laminar(m, s, r2, u, y);
        if anc(s, u, r2) {
            assert(u == r2);
        }
        lemma_anc_trans(m, s, r2, u, y);
        lemma_root_unique(m, s, r, r2, y);
        // x <- c -> y -> u -> r
        lemma_tree_walk(m, s, v, c, x);
        lemma_avoiding_symm(m, v, c, x);
        lemma_tree_walk(m, s, v, c, y);
        lemma_avoiding_trans(m, v, x, c, y);
        lemma_avoiding_step(m, v, x, y, u);
        lemma_avoiding_trans(m, v, x, u, r);
    }
}

/// A non-root whose every child subtree climbs above it separates nothing.
proof fn lemma_nonroot_not_cut<W>(m: GraphModel<W>, s: crate::dfs::DfsState, v: int)
    requires
        search_done(m, s),
        0 <= v < m.n,
        s.par[v] is Some,
        forall|c: int| 0 <= c < m.n && #[trigger] s.par[c] == Some(v as usize) ==> s.low[c] < s.disc[v],
    ensures
        !is_cut_vertex(m, v),
{
    let n = m.n;
    lemma_root_above(m, s, v);
    let r = choose|r: int| 0 <= r < n && s.par[r] is None && #[trigger] anc(s, r, v);
    assert(r != v);
    assert forall|a: int, b: int|
        0 <= a < n && 0 <= b < n && a != v && b != v && #[trigger] reachable(m, a, b)
            implies #[trigger] reachable_avoiding(m, v, a, b) by {
        lemma_reach_stays(m, s, r, a, b);
        if anc(s, r, a) {
            lemma_reach_root_avoiding(m, s, v, r, a);
            lemma_reach_root_avoiding(m, s, v, r, b);
            lemma_avoiding_symm(m, v, b, r);
            lemma_avoiding_trans(m, v, a, r, b);
        } else {
            let p = choose|p: Seq<int>| #[trigger] is_walk(m, p) && p[0] == a && p.last() == b && avoids(p, r);
            let n2 = m.n;
            let outside = |x: int| 0 <= x < n2 && !anc(s, r, x);
            assert forall|x: int, u: int| #[trigger] outside(x) && #[trigger] has_edge(m, x, u) implies outside(u) by {
                lemma_edge_nested(m, s, x, u);
                if anc(s, r, u) {
                    assert(has_edge(m, u, x));
                    lemma_root_closed(m, s, r, u, x);
                }
            }
            assert forall|i: int| 0 <= i < p.len() implies #[trigger] p[i] != v by {
                lemma_closed_walk(m, outside, p, i);
            }
            assert(avoids(p, v));
        }
    }
}

/// Two distinct children give a count of at least two.
pub(crate) proof fn lemma_count_two(par: Seq<Option<usize>>, p: int, k: int, c1: int, c2: int)
    requires
        0 <= c1 < c2 < k,
        par[c1] == Some(p as usize),
        par[c2] == Some(p as usize),
    ensures
        count_children(par, p, k) >= 2,
    decreases k,
{
    if k - 1 > c2 {
        lemma_count_two(par, p, k - 1, c1, c2);
    } else {
        lemma_count_one(par, p, k - 1, c1);
    }
}

proof fn lemma_count_one(par: Seq<Option<usize>>, p: int, k: int, c: int)
    requires
        0 <= c < k,
        par[c] == Some(p as usize),
    ensures
        count_children(par, p, k) >= 1,
    decreases k,
{
    if k - 1 > c {
        lemma_count_one(par, p, k - 1, c);
    }
}

/// A count of at least two comes from two distinct children.
proof fn lemma_count_witness(par: Seq<Option<usize>>, p: int, k: int)
    requires
        count_children(par, p, k) >= 2,
    ensures
        exists|c1: int, c2: int| 0 <= c1 < c2 < k && #[trigger] par[c1] == Some(p as usize) && #[trigger] par[c2] == Some(p as usize),
    decreases k,
{
    if count_children(par, p, k - 1) >= 2 {
        lemma_count_witness(par, p, k - 1);
        let (c1, c2) = choose|c1: int, c2: int|
            0 <= c1 < c2 < k - 1 && #[trigger] par[c1] == Some(p as usize) && #[trigger] par[c2] == Some(p as usize);
    } else {
        lemma_count_first(par, p, k - 1);
        let c1 = choose|c1: int| 0 <= c1 < k - 1 && #[trigger] par[c1] == Some(p as usize);
        assert(par[k - 1] == Some(p as usize));
    }
}

proof fn lemma_count_first(par: Seq<Option<usize>>, p: int, k: int)
    requires
        count_children(par, p, k) >= 1,
    ensures
        exists|c: int| 0 <= c < k && #[trigger] par[c] == Some(p as usize),
    decreases k,
{
    if par[k - 1] != Some(p as usize) {
        lemma_count_first(par, p, k - 1);
        let c = choose|c: int| 0 <= c < k - 1 && #[trigger] par[c] == Some(p as usize);
    }
}

/// When the search has left every vertex of an undirected graph, the
/// flagged vertices are exactly the articulation points.
pub proof fn lemma_flags_are_cut_vertices<W>(m: GraphModel<W>, s: crate::dfs::DfsState, v: int)
    requires
        search_done(m, s),
        0 <= v < m.n,
    ensures
        s.ap[v] == is_cut_vertex(m, v),
{
    let n = m.n;
    assert(s.ap[v] <==> ap_reason(m, s, v));
    if s.par[v] is Some {
        if exists|c: int| 0 <= c < n && s.black[c] && #[trigger] s.par[c] == Some(v as usize) && s.low[c] >= s.disc[v] {
            let c = choose|c: int| 0 <= c < n && s.black[c] && #[trigger] s.par[c] == Some(v as usize) && s.low[c] >= s.disc[v];
            lemma_nonroot_flag_cut(m, s, v, c);
        } else {
            assert forall|c: int| 0 <= c < n && #[trigger] s.par[c] == Some(v as usize) implies s.low[c] < s.disc[v] by {
                assert(s.black[c]);
            }
            lemma_nonroot_not_cut(m, s, v);
        }
    } else {
        if root_children(m, s.par, v) >= 2 {
            lemma_count_witness(s.par, v, n as int);
            let (c1, c2) = choose|c1: int, c2: int|
                0 <= c1 < c2 < n && #[trigger] s.par[c1] == Some(v as usize) && #[trigger] s.par[c2] == Some(v as usize);
            lemma_root_flag_cut(m, s, v, c1, c2);
        } else {
            assert forall|c1: int, c2: int|
                0 <= c1 < n && 0 <= c2 < n && #[trigger] s.par[c1] == Some(v as usize) && #[trigger] s.par[c2] == Some(v as usize)
                    implies c1 == c2 by {
                if c1 < c2 {
                    lemma_count_two(s.par, v, n as int, c1, c2);
                } else if c2 < c1 {
                    lemma_count_two(s.par, v, n as int, c2, c1);
                }
            }
            lemma_root_not_cut(m, s, v);
        }
    }
}

} // verus!
