use vstd::prelude::*;

use std::collections::VecDeque;

use crate::graph::{GraphModel, SpectralGraph};

verus! {

/// The graph has an adjacency entry from `a` to `b`.
pub open spec fn has_edge<W>(m: GraphModel<W>, a: int, b: int) -> bool {
    &&& 0 <= a < m.n
    &&& exists|k: int| 0 <= k < m.adj[a].len() && (#[trigger] m.adj[a][k]).0 == b
}

/// The `i`-th step of the vertex sequence `p` follows an adjacency entry.
pub open spec fn walk_step<W>(m: GraphModel<W>, p: Seq<int>, i: int) -> bool {
    has_edge(m, p[i], p[i + 1])
}

/// `p` is a non-empty sequence of vertices, each following an adjacency
/// entry of the one before.
pub open spec fn is_walk<W>(m: GraphModel<W>, p: Seq<int>) -> bool {
    &&& p.len() >= 1
    &&& forall|i: int| 0 <= i < p.len() - 1 ==> #[trigger] walk_step(m, p, i)
}

/// Some walk leads from `s` to `t`.
pub open spec fn reachable<W>(m: GraphModel<W>, s: int, t: int) -> bool {
    exists|p: Seq<int>| #[trigger] is_walk(m, p) && p[0] == s && p.last() == t
}

/// Every vertex can be reached from vertex 0 (trivially so with at most one vertex).
pub open spec fn connected<W>(m: GraphModel<W>) -> bool {
    m.n <= 1 || forall|v: int| 0 <= v < m.n ==> #[trigger] reachable(m, 0, v)
}

/// Number of `true` entries.
pub open spec fn count_true(s: Seq<bool>) -> nat
    decreases s.len(),
{
    if s.len() == 0 {
        0
    } else {
        count_true(s.drop_last()) + if s.last() { 1nat } else { 0nat }
    }
}

/// Turning one `false` entry to `true` adds one to the count.
pub proof fn lemma_count_true_update(s: Seq<bool>, i: int)
    requires
        0 <= i < s.len(),
        !s[i],
    ensures
        count_true(s.update(i, true)) == count_true(s) + 1,
    decreases s.len(),
{
    let t = s.update(i, true);
    if i < s.len() - 1 {
        assert(t.drop_last() =~= s.drop_last().update(i, true));
        lemma_count_true_update(s.drop_last(), i);
    } else {
        assert(t.drop_last() =~= s.drop_last());
    }
}

/// The count is at most the length, and reaches it exactly when every entry is `true`.
pub proof fn lemma_count_true_bound(s: Seq<bool>)
    ensures
        count_true(s) <= s.len(),
        count_true(s) == s.len() <==> forall|i: int| 0 <= i < s.len() ==> #[trigger] s[i],
    decreases s.len(),
{
    if s.len() > 0 {
        let d = s.drop_last();
        lemma_count_true_bound(d);
        if forall|i: int| 0 <= i < s.len() ==> #[trigger] s[i] {
            assert forall|i: int| 0 <= i < d.len() implies #[trigger] d[i] by {
                assert(s[i]);
            }
        }
        if count_true(s) == s.len() {
            assert forall|i: int| 0 <= i < s.len() implies #[trigger] s[i] by {
                if i < s.len() - 1 {
                    assert(d[i]);
                }
            }
        }
    }
}

/// A sequence without `true` entries counts zero.
pub proof fn lemma_count_true_none(s: Seq<bool>)
    requires
        forall|i: int| 0 <= i < s.len() ==> !(#[trigger] s[i]),
    ensures
        count_true(s) == 0,
    decreases s.len(),
{
    if s.len() > 0 {
        let d = s.drop_last();
        assert forall|i: int| 0 <= i < d.len() implies !(#[trigger] d[i]) by {
            assert(!s[i]);
        }
        lemma_count_true_none(d);
    }
}

/// Every vertex reaches itself.
pub proof fn lemma_reachable_refl<W>(m: GraphModel<W>, s: int)
    ensures
        reachable(m, s, s),
{
    let p = seq![s];
    assert(is_walk(m, p));
}

/// A walk to `a` followed by an adjacency entry from `a` to `b` reaches `b`.
pub proof fn lemma_reachable_step<W>(m: GraphModel<W>, s: int, a: int, b: int)
    requires
        reachable(m, s, a),
        has_edge(m, a, b),
    ensures
        reachable(m, s, b),
{
    let p = choose|p: Seq<int>| #[trigger] is_walk(m, p) && p[0] == s && p.last() == a;
    let q = p.push(b);
    assert forall|i: int| 0 <= i < q.len() - 1 implies #[trigger] walk_step(m, q, i) by {
        if i < p.len() - 1 {
            assert(walk_step(m, p, i));
        }
    }
    assert(is_walk(m, q));
}

/// The vertices of a walk that starts inside a set closed under adjacency
/// entries stay inside it.
proof fn lemma_closed_walk<W>(m: GraphModel<W>, vis: Seq<bool>, p: Seq<int>, i: int)
    requires
        vis.len() == m.n,
        is_walk(m, p),
        0 <= i < p.len(),
        0 <= p[0] < m.n && vis[p[0]],
        forall|a: int, b: int| 0 <= a < m.n && vis[a] && #[trigger] has_edge(m, a, b) ==> 0 <= b < m.n && vis[b],
    ensures
        0 <= p[i] < m.n && vis[p[i]],
    decreases i,
{
    if i > 0 {
        lemma_closed_walk(m, vis, p, i - 1);
        assert(walk_step(m, p, i - 1));
    }
}

/// A set of vertices that holds `s` and is closed under adjacency entries
/// holds every vertex reachable from `s`.
pub proof fn lemma_closed_holds_reachable<W>(m: GraphModel<W>, vis: Seq<bool>, s: int, t: int)
    requires
        vis.len() == m.n,
        0 <= s < m.n,
        vis[s],
        forall|a: int, b: int| 0 <= a < m.n && vis[a] && #[trigger] has_edge(m, a, b) ==> 0 <= b < m.n && vis[b],
        reachable(m, s, t),
    ensures
        0 <= t < m.n && vis[t],
{
    let p = choose|p: Seq<int>| #[trigger] is_walk(m, p) && p[0] == s && p.last() == t;
    lemma_closed_walk(m, vis, p, p.len() - 1);
}

impl<W: Copy> SpectralGraph<W> {
    /// Check connectivity via BFS from vertex 0
    pub fn is_connected(&self) -> (r: bool)
        requires
            self@.wf(),
        ensures
            r == connected(self@),
    {
        let ghost m = self@;
        let n = self.num_vertices();
        if n <= 1 {
            return true;
        }
        let mut visited: Vec<bool> = Vec::new();
        let mut i: usize = 0;
        while i < n
            invariant
                i <= n,
                visited@.len() == i,
                forall|j: int| 0 <= j < i ==> !(#[trigger] visited@[j]),
            decreases n - i,
        {
            visited.push(false);
            i = i + 1;
        }
        proof {
            lemma_count_true_none(visited@);
            lemma_count_true_update(visited@, 0);
            lemma_reachable_refl(m, 0);
        }
        let mut queue: VecDeque<usize> = VecDeque::new();
        queue.push_back(0);
        visited.set(0, true);
        let mut count: usize = 1;
        proof {
            assert(queue@[0] == 0usize);
            assert forall|a: int| 0 <= a < n && #[trigger] visited@[a] implies a == 0 by {}
        }
        while queue.len() > 0
            invariant
                m == self@,
                m.wf(),
                n == m.n,
                n > 1,
                visited@.len() == n,
                visited@[0],
                count == count_true(visited@),
                forall|j: int| 0 <= j < queue@.len() ==> (#[trigger] queue@[j]) < n && visited@[queue@[j] as int],
                forall|j: int, l: int| 0 <= j < l < queue@.len() ==> (#[trigger] queue@[j]) != (#[trigger] queue@[l]),
                forall|v: int| 0 <= v < n && #[trigger] visited@[v] ==> reachable(m, 0, v),
                forall|a: int, b: int|
                    0 <= a < n && visited@[a] && !queue@.contains(a as usize) && #[trigger] has_edge(m, a, b)
                        ==> 0 <= b < n && visited@[b],
            decreases 2 * (n - count) + queue@.len(),
        {
            proof {
                lemma_count_true_bound(visited@);
            }
            let ghost measure = 2 * (n - count) + queue@.len();
            let ghost q0 = queue@;
            match queue.pop_front() {
                Some(v) => {
                    proof {
                        assert(q0[0] == v);
                        assert forall|j: int| 0 <= j < queue@.len() implies (#[trigger] queue@[j]) != v by {
                            assert(queue@[j] == q0[j + 1]);
                        }
                        m.lemma_adj_in_range();
                        assert forall|a: int| 0 <= a < n && a != v && #[trigger] q0.contains(a as usize) implies queue@.contains(a as usize) by {
                            let j = choose|j: int| 0 <= j < q0.len() && q0[j] == a as usize;
                            assert(queue@[j - 1] == q0[j]);
                        }
                    }
                    let row = self.neighbors(v);
                    let mut k: usize = 0;
                    while k < row.len()
                        invariant
                            m == self@,
                            m.wf(),
                            n == m.n,
                            n > 1,
                            forall|a: int, j: int| 0 <= a < m.n && 0 <= j < m.adj[a].len() ==> (#[trigger] m.adj[a][j]).0 < m.n,
                            v < n,
                            visited@[v as int],
                            row@ == m.adj[v as int],
                            !queue@.contains(v),
                            k <= row@.len(),
                            visited@.len() == n,
                            visited@[0],
                            count == count_true(visited@),
                            count <= n,
                            forall|j: int| 0 <= j < queue@.len() ==> (#[trigger] queue@[j]) < n && visited@[queue@[j] as int],
                            forall|j: int, l: int| 0 <= j < l < queue@.len() ==> (#[trigger] queue@[j]) != (#[trigger] queue@[l]),
                            forall|x: int| 0 <= x < n && #[trigger] visited@[x] ==> reachable(m, 0, x),
                            forall|a: int, b: int|
                                0 <= a < n && a != v && visited@[a] && !queue@.contains(a as usize) && #[trigger] has_edge(m, a, b)
                                    ==> 0 <= b < n && visited@[b],
                            forall|j: int| 0 <= j < k ==> visited@[(#[trigger] row@[j]).0 as int],
                            2 * (n - count) + queue@.len() < measure,
                        decreases row@.len() - k,
                    {
                        let (u, _) = row[k];
                        proof {
                            assert(m.adj[v as int][k as int].0 == u);
                            assert(has_edge(m, v as int, u as int));
                        }
                        if !visited[u] {
                            let ghost vis0 = visited@;
                            let ghost qb = queue@;
                            proof {
                                lemma_count_true_update(visited@, u as int);
                                lemma_reachable_step(m, 0, v as int, u as int);
                                lemma_count_true_bound(visited@.update(u as int, true));
                            }
                            visited.set(u, true);
                            count = count + 1;
                            queue.push_back(u);
                            proof {
                                assert forall|j: int, l: int| 0 <= j < l < queue@.len() implies (#[trigger] queue@[j]) != (#[trigger] queue@[l]) by {
                                    if l == queue@.len() - 1 {
                                        assert(visited@[qb[j] as int] == vis0[qb[j] as int]);
                                    }
                                }
                                assert forall|a: int, b: int|
                                    0 <= a < n && a != v && visited@[a] && !queue@.contains(a as usize) && #[trigger] has_edge(m, a, b)
                                        implies 0 <= b < n && visited@[b] by {
                                    if qb.contains(a as usize) {
                                        let j = choose|j: int| 0 <= j < qb.len() && qb[j] == a as usize;
                                        assert(queue@[j] == a as usize);
                                    }
                                    if a == u as int {
                                        assert(queue@[queue@.len() - 1] == u);
                                    }
                                }
                            }
                        }
                        k = k + 1;
                    }
                    proof {
                        assert forall|a: int, b: int|
                            0 <= a < n && visited@[a] && !queue@.contains(a as usize) && #[trigger] has_edge(m, a, b)
                                implies 0 <= b < n && visited@[b] by {
                            if a == v as int {
                                let j = choose|j: int| 0 <= j < m.adj[a].len() && (#[trigger] m.adj[a][j]).0 == b;
                                assert(row@[j].0 == b);
                            }
                        }
                    }
                }
                None => {}
            }
        }
        proof {
            lemma_count_true_bound(visited@);
            if count == n {
                assert forall|v: int| 0 <= v < m.n implies #[trigger] reachable(m, 0, v) by {
                    assert(visited@[v]);
                }
            } else {
                let t = choose|t: int| 0 <= t < n && !visited@[t];
                if reachable(m, 0, t) {
                    lemma_closed_holds_reachable(m, visited@, 0, t);
                }
            }
        }
        count == n
    }
}

} // verus!
