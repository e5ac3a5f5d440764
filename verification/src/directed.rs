use vstd::prelude::*;

use crate::builders::{
    after_build, complete_pairs, complete_row, complete_rows, cycle_pairs, entries_of, grid_cell, grid_pairs, grid_row,
    grid_rows, lemma_entries_of_push, lemma_grid_index, path_pairs, star_pairs,
};
use crate::dfs::{anc, count_children, parent_ok, root_children, target, DfsState};
use crate::forest::{discovered_before, dfs_forest, entries_seen, escapes, flagged, flags};
use crate::graph::{out_entries, GraphModel};
use crate::reach::{count_true, has_edge, lemma_count_true_none};

verus! {

/// A fresh directed graph: valid, not finalized, no edge recorded yet.
pub open spec fn fresh_directed<W>(g: GraphModel<W>) -> bool {
    &&& g.wf()
    &&& !g.finalized
    &&& g.directed
    &&& g.pending.len() == 0
}

/// In a directed graph, recording one more pair adds one entry to the list of its source.
proof fn lemma_directed_push<W>(pairs: Seq<(usize, usize)>, p: (usize, usize), w: W, u: int)
    ensures
        out_entries(entries_of(pairs.push(p), w, true), u) == if p.0 as int == u {
            out_entries(entries_of(pairs, w, true), u).push((p.1, w))
        } else {
            out_entries(entries_of(pairs, w, true), u)
        },
{
    lemma_entries_of_push(pairs, p, w, true);
    let e = entries_of(pairs, w, true);
    assert(entries_of(pairs.push(p), w, true) =~= e.push((p.0, p.1, w)));
    assert(e.push((p.0, p.1, w)).drop_last() =~= e);
}

/// The adjacency list of `u` after building a fresh directed graph from `pairs`.
proof fn lemma_directed_row<W>(g: GraphModel<W>, pairs: Seq<(usize, usize)>, w: W, u: int)
    requires
        fresh_directed(g),
        0 <= u < g.n,
    ensures
        after_build(g, pairs, w).adj[u] == out_entries(entries_of(pairs, w, true), u),
{
    assert(g.pending + entries_of(pairs, w, true) =~= entries_of(pairs, w, true));
}

proof fn lemma_cycle_prefix<W>(n: nat, w: W, u: int, k: int)
    requires
        0 <= u < n,
        0 <= k <= n,
        n <= usize::MAX,
    ensures
        out_entries(entries_of(cycle_pairs(n).take(k), w, true), u) == if u < k {
            seq![(((u + 1) % (n as int)) as usize, w)]
        } else {
            Seq::<(usize, W)>::empty()
        },
    decreases k,
{
    if k > 0 {
        lemma_cycle_prefix(n, w, u, k - 1);
        let pairs = cycle_pairs(n);
        assert(pairs.take(k) =~= pairs.take(k - 1).push(pairs[k - 1]));
        lemma_directed_push(pairs.take(k - 1), pairs[k - 1], w, u);
    } else {
        assert(cycle_pairs(n).take(0) =~= Seq::<(usize, usize)>::empty());
    }
}

/// In a cycle built on a fresh directed graph, every vertex `i` has exactly
/// one entry, leading to `(i + 1) mod n`.
pub proof fn law_directed_cycle_rows<W>(g: GraphModel<W>, w: W, i: int)
    requires
        fresh_directed(g),
        0 <= i < g.n,
    ensures
        after_build(g, cycle_pairs(g.n), w).adj[i] == seq![(((i + 1) % (g.n as int)) as usize, w)],
{
    lemma_directed_row(g, cycle_pairs(g.n), w, i);
    lemma_cycle_prefix(g.n, w, i, g.n as int);
    assert(cycle_pairs(g.n).take(g.n as int) =~= cycle_pairs(g.n));
}

proof fn lemma_path_prefix<W>(n: nat, w: W, u: int, k: int)
    requires
        0 <= u < n,
        0 <= k <= path_pairs(n).len(),
        n <= usize::MAX,
    ensures
        out_entries(entries_of(path_pairs(n).take(k), w, true), u) == if u < k {
            seq![((u + 1) as usize, w)]
        } else {
            Seq::<(usize, W)>::empty()
        },
    decreases k,
{
    if k > 0 {
        lemma_path_prefix(n, w, u, k - 1);
        let pairs = path_pairs(n);
        assert(pairs.take(k) =~= pairs.take(k - 1).push(pairs[k - 1]));
        lemma_directed_push(pairs.take(k - 1), pairs[k - 1], w, u);
    } else {
        assert(path_pairs(n).take(0) =~= Seq::<(usize, usize)>::empty());
    }
}

/// In a path built on a fresh directed graph, every vertex but the last has
/// exactly one entry, leading to the next vertex, and the last has none.
pub proof fn law_directed_path_rows<W>(g: GraphModel<W>, w: W, i: int)
    requires
        fresh_directed(g),
        0 <= i < g.n,
    ensures
        after_build(g, path_pairs(g.n), w).adj[i] == if i + 1 < g.n {
            seq![((i + 1) as usize, w)]
        } else {
            Seq::<(usize, W)>::empty()
        },
{
    let pairs = path_pairs(g.n);
    lemma_directed_row(g, pairs, w, i);
    lemma_path_prefix(g.n, w, i, pairs.len() as int);
    assert(pairs.take(pairs.len() as int) =~= pairs);
}

proof fn lemma_star_prefix<W>(n: nat, w: W, u: int, k: int)
    requires
        0 <= u < n,
        0 <= k <= star_pairs(n).len(),
    ensures
        out_entries(entries_of(star_pairs(n).take(k), w, true), u) == if u == 0 {
            Seq::new(k as nat, |j: int| ((j + 1) as usize, w))
        } else {
            Seq::<(usize, W)>::empty()
        },
    decreases k,
{
    if k > 0 {
        lemma_star_prefix(n, w, u, k - 1);
        let pairs = star_pairs(n);
        assert(pairs.take(k) =~= pairs.take(k - 1).push(pairs[k - 1]));
        lemma_directed_push(pairs.take(k - 1), pairs[k - 1], w, u);
        if u == 0 {
            assert(Seq::new((k - 1) as nat, |j: int| ((j + 1) as usize, w)).push((k as usize, w)) =~= Seq::new(
                k as nat,
                |j: int| ((j + 1) as usize, w),
            ));
        }
    } else {
        assert(star_pairs(n).take(0) =~= Seq::<(usize, usize)>::empty());
        assert(Seq::new(0, |j: int| ((j + 1) as usize, w)) =~= Seq::<(usize, W)>::empty());
    }
}

/// In a star built on a fresh directed graph, the center has one entry to
/// each other vertex, in increasing order, and the other vertices have none.
pub proof fn law_directed_star_rows<W>(g: GraphModel<W>, w: W, i: int)
    requires
        fresh_directed(g),
        0 <= i < g.n,
    ensures
        after_build(g, star_pairs(g.n), w).adj[i] == if i == 0 {
            Seq::new((g.n - 1) as nat, |j: int| ((j + 1) as usize, w))
        } else {
            Seq::<(usize, W)>::empty()
        },
{
    let pairs = star_pairs(g.n);
    lemma_directed_row(g, pairs, w, i);
    lemma_star_prefix(g.n, w, i, pairs.len() as int);
    assert(pairs.take(pairs.len() as int) =~= pairs);
}


/// With a single possible child `c0` below `k`, `p` has at most one child there.
proof fn lemma_count_at_most_one(par: Seq<Option<usize>>, p: int, k: int, c0: int)
    requires
        forall|c: int| 0 <= c < k && c != c0 ==> #[trigger] par[c] != Some(p as usize),
    ensures
        count_children(par, p, k) <= 1,
        c0 >= k || c0 < 0 ==> count_children(par, p, k) == 0,
    decreases k,
{
    if k > 0 {
        lemma_count_at_most_one(par, p, k - 1, c0);
    }
}

/// Along a chain of parents `x - 1 -> x`, every later vertex lies in the subtree of an earlier one.
#[verifier::spinoff_prover]
proof fn lemma_chain_below<W>(m: GraphModel<W>, s: DfsState, c: int, x: int)
    requires
        dfs_forest(m, s),
        1 <= c <= x < m.n,
        forall|k: int| 1 <= k < m.n ==> #[trigger] s.par[k] == Some((k - 1) as usize),
    ensures
        anc(s, c, x),
    decreases x - c,
{
    assert(0 <= c < m.n);
    assert(s.vis[c]);
    assert(s.black[c] && s.disc[c] < s.fin[c]);
    if x > c {
        lemma_chain_below(m, s, c, x - 1);
        assert(s.par[x] == Some((x - 1) as usize));
        assert(parent_ok(m, s, x));
        assert(s.fin[x - 1] <= s.fin[c]);
    }
}

/// Some vertex below `k` has the smallest discovery time among them.
proof fn lemma_first_discovered(s: DfsState, k: int) -> (x: int)
    requires
        1 <= k,
    ensures
        0 <= x < k,
        forall|y: int| 0 <= y < k ==> s.disc[x] <= #[trigger] s.disc[y],
    decreases k,
{
    if k == 1 {
        0
    } else {
        let x = lemma_first_discovered(s, k - 1);
        if s.disc[k - 1] < s.disc[x] {
            k - 1
        } else {
            x
        }
    }
}

/// A count `r` that the articulation rule gives on a search forest of a
/// directed path on `n >= 3` vertices (as `count_articulation_points`
/// states of its result) is `n - 2`: the search from vertex 0 runs down the
/// path and flags every inner vertex.
pub proof fn law_directed_path_articulation<W>(g: GraphModel<W>, w: W, r: nat)
    requires
        fresh_directed(g),
        g.n >= 3,
        exists|s: DfsState| dfs_forest(after_build(g, path_pairs(g.n), w), s) && r == count_true(
            flags(after_build(g, path_pairs(g.n), w), s),
        ),
    ensures
        r == g.n - 2,
{
    let m = after_build(g, path_pairs(g.n), w);
    let n = g.n;
    let s = choose|s: DfsState| dfs_forest(m, s) && r == count_true(flags(m, s));
    assert forall|i: int| 0 <= i < n implies #[trigger] m.adj[i] == (if i + 1 < n {
        seq![((i + 1) as usize, w)]
    } else {
        Seq::<(usize, W)>::empty()
    }) by {
        law_directed_path_rows(g, w, i);
    }
    assert forall|k: int| 0 <= k < n implies #[trigger] s.par[k] == (if k == 0 {
        None
    } else {
        Some((k - 1) as usize)
    }) by {
        if s.par[k] is Some {
            assert(parent_ok(m, s, k));
            let p = s.par[k]->0 as int;
            assert(has_edge(m, p, k));
            let j = choose|j: int| 0 <= j < m.adj[p].len() && (#[trigger] m.adj[p][j]).0 == k;
            assert(m.adj[p][j].0 == p + 1);
        } else if k > 0 {
            assert(discovered_before(s, k - 1, k));
            assert(s.black[k - 1]);
            assert(entries_seen(m, s, k - 1));
            assert(target(m, k - 1, 0) == k);
            assert(anc(s, k - 1, k));
        }
    }
    let expected = Seq::new(n, |v: int| 0 < v < n - 1);
    assert forall|p: int| 0 <= p < n implies #[trigger] flags(m, s)[p] == expected[p] by {
        if p == 0 {
            assert forall|c: int| 0 <= c < n && c != 1 implies #[trigger] s.par[c] != Some(0usize) by {
                assert(s.par[c] == (if c == 0 { None } else { Some((c - 1) as usize) }));
            }
            lemma_count_at_most_one(s.par, 0, n as int, 1);
            assert(!flagged(m, s, p));
        } else if p == n - 1 {
            assert forall|c: int| 0 <= c < n implies #[trigger] s.par[c] != Some(p as usize) by {
                assert(s.par[c] == (if c == 0 { None } else { Some((c - 1) as usize) }));
            }
            assert(!flagged(m, s, p));
        } else {
            let c = p + 1;
            assert(s.par[c] == Some(p as usize));
            assert(parent_ok(m, s, c));
            if escapes(m, s, c, p) {
                let (x, j) = choose|x: int, j: int|
                    0 <= x < m.n && 0 <= j < m.adj[x].len() && #[trigger] anc(s, c, x)
                        && #[trigger] crate::dfs::non_parent_entry(m, s, x, j) && s.disc[target(m, x, j)] < s.disc[p];
                assert(m.adj[x] == (if x + 1 < n { seq![((x + 1) as usize, w)] } else { Seq::<(usize, W)>::empty() }));
                assert(target(m, x, j) == x + 1);
                assert(s.par[x + 1] == Some(x as usize));
                assert(parent_ok(m, s, x + 1));
            }
            assert(flagged(m, s, p));
        }
    }
    assert(flags(m, s) =~= expected);
    crate::laws::lemma_count_interior(n, n as int);
}

/// A count `r` that the articulation rule gives on a search forest of a
/// directed star on `n >= 3` vertices is 1: every other vertex is a child of
/// the center, so the center is the one flagged vertex.
pub proof fn law_directed_star_articulation<W>(g: GraphModel<W>, w: W, r: nat)
    requires
        fresh_directed(g),
        g.n >= 3,
        exists|s: DfsState| dfs_forest(after_build(g, star_pairs(g.n), w), s) && r == count_true(
            flags(after_build(g, star_pairs(g.n), w), s),
        ),
    ensures
        r == 1,
{
    let m = after_build(g, star_pairs(g.n), w);
    let n = g.n;
    let s = choose|s: DfsState| dfs_forest(m, s) && r == count_true(flags(m, s));
    assert forall|i: int| 0 <= i < n implies #[trigger] m.adj[i] == (if i == 0 {
        Seq::new((n - 1) as nat, |j: int| ((j + 1) as usize, w))
    } else {
        Seq::<(usize, W)>::empty()
    }) by {
        law_directed_star_rows(g, w, i);
    }
    assert forall|k: int| 0 <= k < n implies #[trigger] s.par[k] == (if k == 0 {
        None
    } else {
        Some(0usize)
    }) by {
        if s.par[k] is Some {
            assert(parent_ok(m, s, k));
            let p = s.par[k]->0 as int;
            assert(has_edge(m, p, k));
            let j = choose|j: int| 0 <= j < m.adj[p].len() && (#[trigger] m.adj[p][j]).0 == k;
            assert(p == 0);
            assert(m.adj[p][j].0 == j + 1);
        } else if k > 0 {
            assert(discovered_before(s, 0, k));
            assert(s.black[0]);
            assert(entries_seen(m, s, 0));
            assert(target(m, 0, k - 1) == k);
            assert(anc(s, 0, k));
        }
    }
    let expected = Seq::new(n, |v: int| v == 0);
    assert forall|p: int| 0 <= p < n implies #[trigger] flags(m, s)[p] == expected[p] by {
        if p == 0 {
            assert(s.par[1] == Some(0usize));
            assert(s.par[2] == Some(0usize));
            crate::cut::lemma_count_two(s.par, 0, n as int, 1, 2);
            assert(root_children(m, s.par, 0) >= 2);
            assert(flagged(m, s, p));
        } else {
            assert forall|c: int| 0 <= c < n implies #[trigger] s.par[c] != Some(p as usize) by {
                assert(s.par[c] == (if c == 0 { None } else { Some(0usize) }));
            }
            assert(!flagged(m, s, p));
        }
    }
    assert(flags(m, s) =~= expected);
    crate::laws::lemma_count_center(n, n as int);
}

/// A count `r` that the articulation rule gives on a search forest of a
/// directed cycle on `n >= 3` vertices is 0: the search from vertex 0 runs
/// around the cycle and the last entry leads back to vertex 0, so no vertex
/// is flagged.
pub proof fn law_directed_cycle_articulation<W>(g: GraphModel<W>, w: W, r: nat)
    requires
        fresh_directed(g),
        g.n >= 3,
        exists|s: DfsState| dfs_forest(after_build(g, cycle_pairs(g.n), w), s) && r == count_true(
            flags(after_build(g, cycle_pairs(g.n), w), s),
        ),
    ensures
        r == 0,
{
    let m = after_build(g, cycle_pairs(g.n), w);
    let n = g.n;
    let s = choose|s: DfsState| dfs_forest(m, s) && r == count_true(flags(m, s));
    assert forall|i: int| 0 <= i < n implies #[trigger] m.adj[i] == seq![(((i + 1) % (n as int)) as usize, w)] by {
        law_directed_cycle_rows(g, w, i);
    }
    // vertex 0 is discovered first
    let x0 = lemma_first_discovered(s, n as int);
    if s.par[x0] is Some {
        assert(parent_ok(m, s, x0));
        let p = s.par[x0]->0 as int;
        assert(s.disc[x0] <= s.disc[p]);
    }
    if x0 > 0 {
        assert(discovered_before(s, 0, x0));
    }
    assert(x0 == 0);
    assert forall|k: int| 1 <= k < n implies #[trigger] s.par[k] == Some((k - 1) as usize) by {
        if s.par[k] is Some {
            assert(parent_ok(m, s, k));
            let p = s.par[k]->0 as int;
            assert(has_edge(m, p, k));
            let j = choose|j: int| 0 <= j < m.adj[p].len() && (#[trigger] m.adj[p][j]).0 == k;
            assert(m.adj[p][j].0 == (p + 1) % (n as int));
            if p + 1 == n {
                vstd::arithmetic::div_mod::lemma_mod_self_0(n as int);
                assert((p + 1) % (n as int) == 0);
            } else {
                vstd::arithmetic::div_mod::lemma_small_mod((p + 1) as nat, n);
                assert((p + 1) % (n as int) == p + 1);
            }
        } else {
            assert(discovered_before(s, k - 1, k));
            assert(s.black[k - 1]);
            assert(entries_seen(m, s, k - 1));
            vstd::arithmetic::div_mod::lemma_small_mod(k as nat, n);
            assert(k % (n as int) == k);
            assert(target(m, k - 1, 0) == k);
            assert(anc(s, k - 1, k));
        }
    }
    assert forall|p: int| 0 <= p < n implies !#[trigger] flags(m, s)[p] by {
        if p == 0 {
            assert forall|c: int| 0 <= c < n && c != 1 implies #[trigger] s.par[c] != Some(0usize) by {
                if c >= 1 {
                    assert(s.par[c] == Some((c - 1) as usize));
                }
            }
            lemma_count_at_most_one(s.par, 0, n as int, 1);
            assert(!flagged(m, s, p));
        } else {
            assert(s.par[p] is Some);
            assert forall|c: int| 0 <= c < n && #[trigger] s.par[c] == Some(p as usize) implies escapes(m, s, c, p) by {
                assert(c != 0);
                assert(s.par[c] == Some((c - 1) as usize));
                lemma_chain_below(m, s, c, n - 1);
                vstd::arithmetic::div_mod::lemma_mod_self_0(n as int);
                assert(((n - 1) + 1) % (n as int) == 0);
                assert(target(m, n - 1, 0) == 0);
                assert(s.par[n - 1] == Some((n - 2) as usize));
                assert(crate::dfs::non_parent_entry(m, s, n - 1, 0));
                assert(s.disc[0] != s.disc[p]);
            }
            assert(!flagged(m, s, p));
        }
    }
    lemma_count_true_none(flags(m, s));
}

/// In an undirected graph, recording a pair `(a, b)` with `a != b` adds `b`
/// to the list of `a` and then `a` to the list of `b`.
proof fn lemma_undirected_push<W>(pairs: Seq<(usize, usize)>, p: (usize, usize), w: W, u: int)
    requires
        p.0 != p.1,
    ensures
        out_entries(entries_of(pairs.push(p), w, false), u) == if p.0 as int == u {
            out_entries(entries_of(pairs, w, false), u).push((p.1, w))
        } else if p.1 as int == u {
            out_entries(entries_of(pairs, w, false), u).push((p.0, w))
        } else {
            out_entries(entries_of(pairs, w, false), u)
        },
{
    lemma_entries_of_push(pairs, p, w, false);
    let e = entries_of(pairs, w, false);
    let e1 = e.push((p.0, p.1, w));
    let e2 = e1.push((p.1, p.0, w));
    assert(entries_of(pairs.push(p), w, false) =~= e2);
    assert(e2.drop_last() =~= e1);
    assert(e1.drop_last() =~= e);
    let r = out_entries(e, u);
    assert(out_entries(e1, u) == if p.0 as int == u { r.push((p.1, w)) } else { r });
    assert(out_entries(e2, u) == if p.1 as int == u { out_entries(e1, u).push((p.0, w)) } else { out_entries(e1, u) });
}

/// The adjacency list of `u` after building a fresh undirected graph from `pairs`.
proof fn lemma_undirected_row<W>(g: GraphModel<W>, pairs: Seq<(usize, usize)>, w: W, u: int)
    requires
        crate::laws::fresh_undirected(g),
        0 <= u < g.n,
    ensures
        after_build(g, pairs, w).adj[u] == out_entries(entries_of(pairs, w, false), u),
{
    assert(g.pending + entries_of(pairs, w, false) =~= entries_of(pairs, w, false));
}

/// The neighbors that the first `k` consecutive pairs `(i, i + 1)` give `u`.
pub open spec fn chain_row<W>(u: int, k: int, w: W) -> Seq<(usize, W)> {
    (if 0 < u <= k { seq![((u - 1) as usize, w)] } else { Seq::empty() }) + (if u < k {
        seq![((u + 1) as usize, w)]
    } else {
        Seq::empty()
    })
}

proof fn lemma_chain_prefix<W>(pairs: Seq<(usize, usize)>, w: W, u: int, k: int)
    requires
        0 <= u <= pairs.len(),
        0 <= k <= pairs.len(),
        pairs.len() < usize::MAX,
        forall|i: int| 0 <= i < pairs.len() ==> #[trigger] pairs[i] == (i as usize, (i + 1) as usize),
    ensures
        out_entries(entries_of(pairs.take(k), w, false), u) == chain_row(u, k, w),
    decreases k,
{
    if k > 0 {
        lemma_chain_prefix(pairs, w, u, k - 1);
        assert(pairs.take(k) =~= pairs.take(k - 1).push(pairs[k - 1]));
        lemma_undirected_push(pairs.take(k - 1), pairs[k - 1], w, u);
        assert(chain_row(u, k, w) =~= (if u == k - 1 {
            chain_row(u, k - 1, w).push((k as usize, w))
        } else if u == k {
            chain_row(u, k - 1, w).push(((k - 1) as usize, w))
        } else {
            chain_row(u, k - 1, w)
        }));
    } else {
        assert(pairs.take(0) =~= Seq::<(usize, usize)>::empty());
        assert(chain_row(u, 0, w) =~= Seq::<(usize, W)>::empty());
    }
}

/// In a path built on a fresh undirected graph, vertex `i` lists its
/// predecessor, when it has one, then its successor, when it has one.
pub proof fn law_undirected_path_rows<W>(g: GraphModel<W>, w: W, i: int)
    requires
        crate::laws::fresh_undirected(g),
        0 <= i < g.n,
    ensures
        after_build(g, path_pairs(g.n), w).adj[i] == (if i > 0 { seq![((i - 1) as usize, w)] } else {
            Seq::<(usize, W)>::empty()
        }) + (if i + 1 < g.n { seq![((i + 1) as usize, w)] } else { Seq::<(usize, W)>::empty() }),
{
    let pairs = path_pairs(g.n);
    lemma_undirected_row(g, pairs, w, i);
    lemma_chain_prefix(pairs, w, i, pairs.len() as int);
    assert(pairs.take(pairs.len() as int) =~= pairs);
}

/// In a cycle built on a fresh undirected graph with `n >= 3` vertices,
/// vertex `i` lists its predecessor and then its successor, except vertex 0,
/// which lists 1 and then `n - 1`.
pub proof fn law_undirected_cycle_rows<W>(g: GraphModel<W>, w: W, i: int)
    requires
        crate::laws::fresh_undirected(g),
        g.n >= 3,
        0 <= i < g.n,
    ensures
        after_build(g, cycle_pairs(g.n), w).adj[i] == if i == 0 {
            seq![(1usize, w), ((g.n - 1) as usize, w)]
        } else {
            seq![((i - 1) as usize, w), (((i + 1) % (g.n as int)) as usize, w)]
        },
{
    let n = g.n;
    let pairs = cycle_pairs(n);
    let front = pairs.take(n - 1);
    assert forall|k: int| 0 <= k < front.len() implies #[trigger] front[k] == (k as usize, (k + 1) as usize) by {
        vstd::arithmetic::div_mod::lemma_small_mod((k + 1) as nat, n);
    }
    lemma_undirected_row(g, pairs, w, i);
    lemma_chain_prefix(front, w, i, n - 1);
    assert(front.take(n - 1) =~= front);
    vstd::arithmetic::div_mod::lemma_mod_self_0(n as int);
    assert(pairs[n - 1] == ((n - 1) as usize, 0usize));
    assert(pairs =~= front.push(pairs[n - 1]));
    lemma_undirected_push(front, pairs[n - 1], w, i);
    if 0 < i < n - 1 {
        vstd::arithmetic::div_mod::lemma_small_mod((i + 1) as nat, n);
    }
    assert(chain_row(i, n - 1, w) =~= (if i == 0 {
        seq![(1usize, w)]
    } else if i == n - 1 {
        seq![((i - 1) as usize, w)]
    } else {
        seq![((i - 1) as usize, w), ((i + 1) as usize, w)]
    }));
}

proof fn lemma_undirected_star_prefix<W>(n: nat, w: W, u: int, k: int)
    requires
        0 <= u < n,
        0 <= k <= star_pairs(n).len(),
        n <= usize::MAX,
    ensures
        out_entries(entries_of(star_pairs(n).take(k), w, false), u) == if u == 0 {
            Seq::new(k as nat, |j: int| ((j + 1) as usize, w))
        } else if u <= k {
            seq![(0usize, w)]
        } else {
            Seq::<(usize, W)>::empty()
        },
    decreases k,
{
    if k > 0 {
        lemma_undirected_star_prefix(n, w, u, k - 1);
        let pairs = star_pairs(n);
        assert(pairs.take(k) =~= pairs.take(k - 1).push(pairs[k - 1]));
        lemma_undirected_push(pairs.take(k - 1), pairs[k - 1], w, u);
        if u == 0 {
            assert(Seq::new((k - 1) as nat, |j: int| ((j + 1) as usize, w)).push((k as usize, w)) =~= Seq::new(
                k as nat,
                |j: int| ((j + 1) as usize, w),
            ));
        } else if u == k {
            assert(Seq::<(usize, W)>::empty().push((0usize, w)) =~= seq![(0usize, w)]);
        }
    } else {
        assert(star_pairs(n).take(0) =~= Seq::<(usize, usize)>::empty());
        assert(Seq::new(0, |j: int| ((j + 1) as usize, w)) =~= Seq::<(usize, W)>::empty());
    }
}

/// In a star built on a fresh undirected graph, the center lists every other
/// vertex in increasing order, and every other vertex lists the center alone.
pub proof fn law_undirected_star_rows<W>(g: GraphModel<W>, w: W, i: int)
    requires
        crate::laws::fresh_undirected(g),
        0 <= i < g.n,
    ensures
        after_build(g, star_pairs(g.n), w).adj[i] == if i == 0 {
            Seq::new((g.n - 1) as nat, |j: int| ((j + 1) as usize, w))
        } else {
            seq![(0usize, w)]
        },
{
    let pairs = star_pairs(g.n);
    lemma_undirected_row(g, pairs, w, i);
    lemma_undirected_star_prefix(g.n, w, i, pairs.len() as int);
    assert(pairs.take(pairs.len() as int) =~= pairs);
}

/// The pairs of a complete graph recorded before pair `(i, upto)`.
spec fn complete_prefix(n: nat, i: int, upto: int) -> Seq<(usize, usize)> {
    complete_rows(n, i) + complete_row(n, i, upto)
}

proof fn lemma_complete_prefix_step(n: nat, i: int, upto: int)
    requires
        0 <= i < n,
        i + 1 <= upto < n,
    ensures
        complete_prefix(n, i, upto + 1) == complete_prefix(n, i, upto).push((i as usize, upto as usize)),
{
    assert(complete_row(n, i, upto + 1) =~= complete_row(n, i, upto).push((i as usize, upto as usize)));
    assert(complete_prefix(n, i, upto + 1) =~= complete_prefix(n, i, upto).push((i as usize, upto as usize)));
}

proof fn lemma_complete_prefix_row(n: nat, i: int)
    requires
        1 <= i < n,
    ensures
        complete_prefix(n, i, i + 1) == complete_prefix(n, i - 1, n as int),
{
    assert(complete_row(n, i, i + 1) =~= Seq::<(usize, usize)>::empty());
    assert(complete_prefix(n, i, i + 1) =~= complete_prefix(n, i - 1, n as int));
}

spec fn complete_directed_row<W>(n: nat, u: int, i: int, upto: int, w: W) -> Seq<(usize, W)> {
    if u < i {
        Seq::new((n - 1 - u) as nat, |k: int| ((u + 1 + k) as usize, w))
    } else if u == i {
        Seq::new((upto - i - 1) as nat, |k: int| ((i + 1 + k) as usize, w))
    } else {
        Seq::empty()
    }
}

proof fn lemma_complete_directed_prefix<W>(n: nat, w: W, u: int, i: int, upto: int)
    requires
        0 <= u < n,
        0 <= i < n,
        i + 1 <= upto <= n,
        n <= usize::MAX,
    ensures
        out_entries(entries_of(complete_prefix(n, i, upto), w, true), u) == complete_directed_row(n, u, i, upto, w),
    decreases i, upto,
{
    if upto > i + 1 {
        lemma_complete_directed_prefix(n, w, u, i, upto - 1);
        lemma_complete_prefix_step(n, i, upto - 1);
        lemma_directed_push(complete_prefix(n, i, upto - 1), (i as usize, (upto - 1) as usize), w, u);
        if u == i {
            assert(complete_directed_row(n, u, i, upto - 1, w).push(((upto - 1) as usize, w)) =~= complete_directed_row(
                n,
                u,
                i,
                upto,
                w,
            ));
        }
    } else if i == 0 {
        assert(complete_prefix(n, 0, 1) =~= Seq::<(usize, usize)>::empty());
        assert(complete_directed_row(n, u, i, upto, w) =~= Seq::<(usize, W)>::empty());
    } else {
        lemma_complete_directed_prefix(n, w, u, i - 1, n as int);
        lemma_complete_prefix_row(n, i);
        assert(complete_directed_row(n, u, i - 1, n as int, w) =~= complete_directed_row(n, u, i, upto, w));
    }
}

/// In a complete graph built on a fresh directed graph, vertex `i` has one
/// entry to each larger vertex, in increasing order, and none to smaller ones.
pub proof fn law_directed_complete_rows<W>(g: GraphModel<W>, w: W, i: int)
    requires
        fresh_directed(g),
        0 <= i < g.n,
    ensures
        after_build(g, complete_pairs(g.n), w).adj[i] == Seq::new((g.n - 1 - i) as nat, |k: int| ((i + 1 + k) as usize, w)),
{
    let n = g.n;
    lemma_directed_row(g, complete_pairs(n), w, i);
    lemma_complete_directed_prefix(n, w, i, n - 1, n as int);
    assert(complete_row(n, n - 1, n as int) =~= Seq::<(usize, usize)>::empty());
    assert(complete_pairs(n) =~= complete_prefix(n, n - 1, n as int));
    assert(complete_directed_row(n, i, n - 1, n as int, w) =~= Seq::new(
        (n - 1 - i) as nat,
        |k: int| ((i + 1 + k) as usize, w),
    ));
}

/// Every vertex other than `u`, in increasing order.
pub open spec fn others<W>(n: nat, u: int, w: W) -> Seq<(usize, W)> {
    Seq::new((n - 1) as nat, |k: int| ((if k < u { k } else { k + 1 }) as usize, w))
}

spec fn complete_undirected_row<W>(n: nat, u: int, i: int, upto: int, w: W) -> Seq<(usize, W)> {
    if u < i {
        others(n, u, w)
    } else if u == i {
        Seq::new(i as nat, |k: int| (k as usize, w)) + Seq::new((upto - i - 1) as nat, |k: int| ((i + 1 + k) as usize, w))
    } else {
        Seq::new(i as nat, |k: int| (k as usize, w)) + (if u < upto { seq![(i as usize, w)] } else { Seq::empty() })
    }
}

proof fn lemma_complete_undirected_prefix<W>(n: nat, w: W, u: int, i: int, upto: int)
    requires
        0 <= u < n,
        0 <= i < n,
        i + 1 <= upto <= n,
        n <= usize::MAX,
    ensures
        out_entries(entries_of(complete_prefix(n, i, upto), w, false), u) == complete_undirected_row(n, u, i, upto, w),
    decreases i, upto,
{
    if upto > i + 1 {
        lemma_complete_undirected_prefix(n, w, u, i, upto - 1);
        lemma_complete_prefix_step(n, i, upto - 1);
        lemma_undirected_push(complete_prefix(n, i, upto - 1), (i as usize, (upto - 1) as usize), w, u);
        if u == i {
            assert(complete_undirected_row(n, u, i, upto - 1, w).push(((upto - 1) as usize, w))
                =~= complete_undirected_row(n, u, i, upto, w));
        } else if u == upto - 1 {
            assert(complete_undirected_row(n, u, i, upto - 1, w).push((i as usize, w)) =~= complete_undirected_row(
                n,
                u,
                i,
                upto,
                w,
            ));
        } else if u > i {
            assert(complete_undirected_row(n, u, i, upto - 1, w) =~= complete_undirected_row(n, u, i, upto, w));
        }
    } else if i == 0 {
        assert(complete_prefix(n, 0, 1) =~= Seq::<(usize, usize)>::empty());
        assert(complete_undirected_row(n, u, i, upto, w) =~= Seq::<(usize, W)>::empty());
    } else {
        lemma_complete_undirected_prefix(n, w, u, i - 1, n as int);
        lemma_complete_prefix_row(n, i);
        assert(complete_undirected_row(n, u, i - 1, n as int, w) =~= complete_undirected_row(n, u, i, upto, w));
    }
}

/// In a complete graph built on a fresh undirected graph, vertex `i` lists
/// every other vertex once, in increasing order.
pub proof fn law_undirected_complete_rows<W>(g: GraphModel<W>, w: W, i: int)
    requires
        crate::laws::fresh_undirected(g),
        0 <= i < g.n,
    ensures
        after_build(g, complete_pairs(g.n), w).adj[i] == others(g.n, i, w),
{
    let n = g.n;
    lemma_undirected_row(g, complete_pairs(n), w, i);
    lemma_complete_undirected_prefix(n, w, i, n - 1, n as int);
    assert(complete_row(n, n - 1, n as int) =~= Seq::<(usize, usize)>::empty());
    assert(complete_pairs(n) =~= complete_prefix(n, n - 1, n as int));
    assert(complete_undirected_row(n, i, n - 1, n as int, w) =~= others(n, i, w));
}

/// Two cells of a grid with `cols` columns have the same index only when they are the same cell.
proof fn lemma_grid_unique(cols: int, r1: int, c1: int, r2: int, c2: int)
    requires
        0 <= r1,
        0 <= r2,
        0 <= c1 < cols,
        0 <= c2 < cols,
        r1 * cols + c1 == r2 * cols + c2,
    ensures
        r1 == r2,
        c1 == c2,
{
    if r1 < r2 {
        assert(r1 * cols + c1 < r2 * cols + c2) by (nonlinear_arith)
            requires
                r1 < r2,
                0 <= c1 < cols,
                0 <= c2,
        ;
    } else if r2 < r1 {
        assert(r2 * cols + c2 < r1 * cols + c1) by (nonlinear_arith)
            requires
                r2 < r1,
                0 <= c2 < cols,
                0 <= c1,
        ;
    }
}

/// Cell `(a, b)` comes before cell `(r, c)` in row-major order.
spec fn cell_before(a: int, b: int, r: int, c: int) -> bool {
    a < r || (a == r && b < c)
}

/// The pairs of the grid cells before cell `(r, c)`.
spec fn grid_prefix(rows: nat, cols: nat, r: int, c: int) -> Seq<(usize, usize)> {
    grid_rows(rows, cols, r) + grid_row(rows, cols, r, c)
}

/// What the cells before `(r, c)` give cell `(vr, vc)`: the cell above, the
/// cell to the left, then its own right and lower neighbors, each once the
/// cell that records it has been passed. A directed grid keeps only the last two.
spec fn grid_row_upto<W>(rows: nat, cols: nat, vr: int, vc: int, r: int, c: int, w: W, directed: bool) -> Seq<
    (usize, W),
> {
    let v = vr * cols + vc;
    let own = cell_before(vr, vc, r, c);
    (if !directed && vr > 0 && cell_before(vr - 1, vc, r, c) { seq![((v - cols) as usize, w)] } else { Seq::empty() })
        + (if !directed && vc > 0 && cell_before(vr, vc - 1, r, c) { seq![((v - 1) as usize, w)] } else { Seq::empty() })
        + (if vc + 1 < cols && own { seq![((v + 1) as usize, w)] } else { Seq::empty() })
        + (if vr + 1 < rows && own { seq![((v + cols) as usize, w)] } else { Seq::empty() })
}

/// Which cells the pairs recorded at cell `(r, c)` touch, by index.
proof fn lemma_grid_touch(rows: nat, cols: nat, vr: int, vc: int, r: int, c: int)
    requires
        0 <= vr < rows,
        0 <= vc < cols,
        0 <= r < rows,
        0 <= c < cols,
    ensures
        (vr * cols + vc == r * cols + c) <==> (vr == r && vc == c),
        c + 1 < cols ==> ((vr * cols + vc == r * cols + c + 1) <==> (vr == r && vc == c + 1)),
        r + 1 < rows ==> ((vr * cols + vc == r * cols + c + cols) <==> (vr == r + 1 && vc == c)),
        vr * cols + vc - cols == (vr - 1) * cols + vc,
{
    if vr * cols + vc == r * cols + c {
        lemma_grid_unique(cols as int, vr, vc, r, c);
    }
    if c + 1 < cols && vr * cols + vc == r * cols + c + 1 {
        lemma_grid_unique(cols as int, vr, vc, r, c + 1);
    }
    assert((r + 1) * cols + c == r * cols + c + cols) by (nonlinear_arith);
    if r + 1 < rows && vr * cols + vc == r * cols + c + cols {
        lemma_grid_unique(cols as int, vr, vc, r + 1, c);
    }
    assert(vr * cols + vc - cols == (vr - 1) * cols + vc) by (nonlinear_arith);
}

/// Passing cell `(r, c)`: its right pair, then its lower pair, where those exist.
#[verifier::rlimit(40)]
proof fn lemma_grid_step<W>(rows: nat, cols: nat, w: W, directed: bool, vr: int, vc: int, r: int, c: int)
    requires
        0 <= vr < rows,
        0 <= vc < cols,
        0 <= r < rows,
        0 <= c < cols,
        rows * cols <= usize::MAX,
        out_entries(entries_of(grid_prefix(rows, cols, r, c), w, directed), vr * cols + vc) == grid_row_upto(
            rows,
            cols,
            vr,
            vc,
            r,
            c,
            w,
            directed,
        ),
    ensures
        out_entries(entries_of(grid_prefix(rows, cols, r, c + 1), w, directed), vr * cols + vc) == grid_row_upto(
            rows,
            cols,
            vr,
            vc,
            r,
            c + 1,
            w,
            directed,
        ),
{
    let v = vr * cols + vc;
    lemma_grid_index(rows as int, cols as int, r, c);
    lemma_grid_index(rows as int, cols as int, vr, vc);
    lemma_grid_touch(rows, cols, vr, vc, r, c);
    let t = r * cols + c;
    let pre = grid_prefix(rows, cols, r, c);
    let right = (t as usize, (t + 1) as usize);
    let down = (t as usize, (t + cols) as usize);
    let mid = if c + 1 < cols { pre.push(right) } else { pre };
    let fin = if r + 1 < rows { mid.push(down) } else { mid };
    assert(grid_prefix(rows, cols, r, c + 1) =~= fin);
    let is_cell = vr == r && vc == c;
    let is_right = vr == r && vc == c + 1;
    let is_below = vr == r + 1 && vc == c;
    if c + 1 < cols {
        if directed {
            lemma_directed_push(pre, right, w, v);
        } else {
            lemma_undirected_push(pre, right, w, v);
        }
    }
    if r + 1 < rows {
        if directed {
            lemma_directed_push(mid, down, w, v);
        } else {
            lemma_undirected_push(mid, down, w, v);
        }
    }
    let g0 = grid_row_upto(rows, cols, vr, vc, r, c, w, directed);
    let g1 = grid_row_upto(rows, cols, vr, vc, r, c + 1, w, directed);
    let r1 = out_entries(entries_of(mid, w, directed), v);
    if is_cell {
        assert(r1 =~= if c + 1 < cols { g0.push(((v + 1) as usize, w)) } else { g0 });
        assert(g1 =~= if r + 1 < rows { r1.push(((v + cols) as usize, w)) } else { r1 });
    } else if is_right {
        assert(g1 =~= if directed { g0 } else { g0.push(((v - 1) as usize, w)) });
    } else if is_below {
        assert(g1 =~= if directed { g0 } else { g0.push(((v - cols) as usize, w)) });
    } else {
        assert(g1 =~= g0);
    }
}

proof fn lemma_grid_prefix<W>(rows: nat, cols: nat, w: W, directed: bool, vr: int, vc: int, r: int, c: int)
    requires
        0 <= vr < rows,
        0 <= vc < cols,
        0 <= r <= rows,
        0 <= c <= cols,
        r == rows ==> c == 0,
        rows * cols <= usize::MAX,
    ensures
        out_entries(entries_of(grid_prefix(rows, cols, r, c), w, directed), vr * cols + vc) == grid_row_upto(
            rows,
            cols,
            vr,
            vc,
            r,
            c,
            w,
            directed,
        ),
    decreases r, c,
{
    let v = vr * cols + vc;
    lemma_grid_index(rows as int, cols as int, vr, vc);
    if c > 0 {
        lemma_grid_prefix(rows, cols, w, directed, vr, vc, r, c - 1);
        lemma_grid_step(rows, cols, w, directed, vr, vc, r, c - 1);
    } else if r > 0 {
        lemma_grid_prefix(rows, cols, w, directed, vr, vc, r - 1, cols as int);
        assert(grid_row(rows, cols, r, 0) =~= Seq::<(usize, usize)>::empty());
        assert(grid_prefix(rows, cols, r, 0) =~= grid_prefix(rows, cols, r - 1, cols as int));
        assert(grid_row_upto(rows, cols, vr, vc, r, 0, w, directed) =~= grid_row_upto(
            rows,
            cols,
            vr,
            vc,
            r - 1,
            cols as int,
            w,
            directed,
        ));
    } else {
        assert(grid_prefix(rows, cols, 0, 0) =~= Seq::<(usize, usize)>::empty());
        assert(grid_row_upto(rows, cols, vr, vc, 0, 0, w, directed) =~= Seq::<(usize, W)>::empty());
    }
}

/// In a `rows` by `cols` grid built on a fresh directed graph, cell
/// `(r, c)` has an entry to its right neighbor, then one to the cell below,
/// where those exist, and no other.
pub proof fn law_directed_grid_rows<W>(g: GraphModel<W>, rows: nat, cols: nat, w: W, r: int, c: int)
    requires
        fresh_directed(g),
        g.n == rows * cols,
        0 <= r < rows,
        0 <= c < cols,
    ensures
        after_build(g, grid_pairs(rows, cols), w).adj[r * cols + c] == (if c + 1 < cols {
            seq![((r * cols + c + 1) as usize, w)]
        } else {
            Seq::<(usize, W)>::empty()
        }) + (if r + 1 < rows { seq![((r * cols + c + cols) as usize, w)] } else { Seq::<(usize, W)>::empty() }),
{
    lemma_grid_index(rows as int, cols as int, r, c);
    lemma_directed_row(g, grid_pairs(rows, cols), w, r * cols + c);
    lemma_grid_prefix(rows, cols, w, true, r, c, rows as int, 0);
    assert(grid_row(rows, cols, rows as int, 0) =~= Seq::<(usize, usize)>::empty());
    assert(grid_prefix(rows, cols, rows as int, 0) =~= grid_pairs(rows, cols));
    assert(grid_row_upto(rows, cols, r, c, rows as int, 0, w, true) =~= (if c + 1 < cols {
        seq![((r * cols + c + 1) as usize, w)]
    } else {
        Seq::<(usize, W)>::empty()
    }) + (if r + 1 < rows { seq![((r * cols + c + cols) as usize, w)] } else { Seq::<(usize, W)>::empty() }));
}

/// In a `rows` by `cols` grid built on a fresh undirected graph, cell
/// `(r, c)` lists the cell above, the cell to its left, the cell to its
/// right and the cell below, in that order, where those exist.
pub proof fn law_undirected_grid_rows<W>(g: GraphModel<W>, rows: nat, cols: nat, w: W, r: int, c: int)
    requires
        crate::laws::fresh_undirected(g),
        g.n == rows * cols,
        0 <= r < rows,
        0 <= c < cols,
    ensures
        after_build(g, grid_pairs(rows, cols), w).adj[r * cols + c] == (if r > 0 {
            seq![((r * cols + c - cols) as usize, w)]
        } else {
            Seq::<(usize, W)>::empty()
        }) + (if c > 0 { seq![((r * cols + c - 1) as usize, w)] } else { Seq::<(usize, W)>::empty() }) + (if c + 1
            < cols {
            seq![((r * cols + c + 1) as usize, w)]
        } else {
            Seq::<(usize, W)>::empty()
        }) + (if r + 1 < rows { seq![((r * cols + c + cols) as usize, w)] } else { Seq::<(usize, W)>::empty() }),
{
    lemma_grid_index(rows as int, cols as int, r, c);
    lemma_undirected_row(g, grid_pairs(rows, cols), w, r * cols + c);
    lemma_grid_prefix(rows, cols, w, false, r, c, rows as int, 0);
    assert(grid_row(rows, cols, rows as int, 0) =~= Seq::<(usize, usize)>::empty());
    assert(grid_prefix(rows, cols, rows as int, 0) =~= grid_pairs(rows, cols));
}

/// In a directed complete graph (`i -> j` for `i < j`), the search follows
/// `0 -> 1 -> 2 -> ...`: the parent of every vertex `k > 0` is `k - 1`.
proof fn lemma_complete_parent<W>(g: GraphModel<W>, w: W, s: DfsState, k: int)
    requires
        fresh_directed(g),
        dfs_forest(after_build(g, complete_pairs(g.n), w), s),
        0 <= k < g.n,
    ensures
        s.par[k] == if k == 0 { None } else { Some((k - 1) as usize) },
    decreases k,
{
    let m = after_build(g, complete_pairs(g.n), w);
    let n = g.n;
    if s.par[k] is Some {
        assert(parent_ok(m, s, k));
        let p = s.par[k]->0 as int;
        assert(has_edge(m, p, k));
        let j = choose|j: int| 0 <= j < m.adj[p].len() && (#[trigger] m.adj[p][j]).0 == k;
        law_directed_complete_rows(g, w, p);
        assert(m.adj[p][j].0 == p + 1 + j);
        if p < k - 1 {
            let q = p + 1;
            lemma_complete_parent(g, w, s, q);
            assert(parent_ok(m, s, q));
            assert(crate::forest::first_fresh_entry(m, s, p, k));
            assert(target(m, p, 0) == q);
            assert(s.disc[q] != s.disc[k]);
            assert(s.black[q]);
            assert(entries_seen(m, s, q));
            law_directed_complete_rows(g, w, q);
            assert(target(m, q, k - q - 1) == k);
            assert(anc(s, q, k));
        }
    } else if k > 0 {
        assert(discovered_before(s, k - 1, k));
        assert(s.black[k - 1]);
        assert(entries_seen(m, s, k - 1));
        law_directed_complete_rows(g, w, k - 1);
        assert(target(m, k - 1, 0) == k);
        assert(anc(s, k - 1, k));
    }
}

/// Along the search chain of a directed complete graph, discovery times increase with the vertex.
proof fn lemma_complete_disc_increasing<W>(g: GraphModel<W>, w: W, s: DfsState, a: int, b: int)
    requires
        fresh_directed(g),
        dfs_forest(after_build(g, complete_pairs(g.n), w), s),
        0 <= a < b < g.n,
    ensures
        s.disc[a] < s.disc[b],
    decreases b - a,
{
    lemma_complete_parent(g, w, s, b);
    assert(parent_ok(after_build(g, complete_pairs(g.n), w), s, b));
    if a < b - 1 {
        lemma_complete_disc_increasing(g, w, s, a, b - 1);
    }
}

/// A count `r` that the articulation rule gives on a search forest of a
/// directed complete graph on `n >= 3` vertices (an entry `i -> j` for
/// every `i < j`) is `n - 2`: the search runs down `0, 1, ..., n - 1`, no
/// entry leads back, and every inner vertex is flagged.
pub proof fn law_directed_complete_articulation<W>(g: GraphModel<W>, w: W, r: nat)
    requires
        fresh_directed(g),
        g.n >= 3,
        exists|s: DfsState| dfs_forest(after_build(g, complete_pairs(g.n), w), s) && r == count_true(
            flags(after_build(g, complete_pairs(g.n), w), s),
        ),
    ensures
        r == g.n - 2,
{
    let m = after_build(g, complete_pairs(g.n), w);
    let n = g.n;
    let s = choose|s: DfsState| dfs_forest(m, s) && r == count_true(flags(m, s));
    assert forall|k: int| 0 <= k < n implies #[trigger] s.par[k] == (if k == 0 {
        None
    } else {
        Some((k - 1) as usize)
    }) by {
        lemma_complete_parent(g, w, s, k);
    }
    let expected = Seq::new(n, |v: int| 0 < v < n - 1);
    assert forall|p: int| 0 <= p < n implies #[trigger] flags(m, s)[p] == expected[p] by {
        if p == 0 {
            assert forall|c: int| 0 <= c < n && c != 1 implies #[trigger] s.par[c] != Some(0usize) by {
                assert(s.par[c] == (if c == 0 { None } else { Some((c - 1) as usize) }));
            }
            lemma_count_at_most_one(s.par, 0, n as int, 1);
            assert(!flagged(m, s, p));
        } else if p == n - 1 {
            assert forall|c: int| 0 <= c < n implies #[trigger] s.par[c] != Some(p as usize) by {
                assert(s.par[c] == (if c == 0 { None } else { Some((c - 1) as usize) }));
            }
            assert(!flagged(m, s, p));
        } else {
            let c = p + 1;
            assert(s.par[c] == Some(p as usize));
            assert(parent_ok(m, s, c));
            if escapes(m, s, c, p) {
                let (x, j) = choose|x: int, j: int|
                    0 <= x < m.n && 0 <= j < m.adj[x].len() && #[trigger] anc(s, c, x)
                        && #[trigger] crate::dfs::non_parent_entry(m, s, x, j) && s.disc[target(m, x, j)] < s.disc[p];
                law_directed_complete_rows(g, w, x);
                let t = target(m, x, j);
                assert(t == x + 1 + j);
                if x < c {
                    lemma_complete_disc_increasing(g, w, s, x, c);
                }
                if x < p {
                    lemma_complete_disc_increasing(g, w, s, x, p);
                }
                lemma_complete_disc_increasing(g, w, s, p, t);
            }
            assert(flagged(m, s, p));
        }
    }
    assert(flags(m, s) =~= expected);
    crate::laws::lemma_count_interior(n, n as int);
}
} // verus!
