//! Single-source shortest paths over a weighted, directed adjacency list
//! with non-negative edge weights (Dijkstra's label-setting algorithm).
//!
//! The engine returns a dense distance mapping and a dense parent mapping.
//! `i32::MAX` is the "infinite / unreachable" sentinel in the distance
//! mapping and `-1` the "no predecessor" sentinel in the parent mapping.

use vstd::prelude::*;

verus! {

/// A weighted adjacency list is well formed when every edge points at a
/// vertex of the graph and carries a non-negative weight.
pub open spec fn valid_graph(g: Seq<Vec<(i32, i32)>>) -> bool {
    forall|u: int, j: int|
        0 <= u < g.len() && 0 <= j < g[u]@.len()
            ==> 0 <= (#[trigger] g[u]@[j]).0 < g.len() && g[u]@[j].1 >= 0
}

/// There is a walk of exactly `steps` edges from `u` to `v` whose weights
/// sum to `d`.
pub open spec fn has_path(g: Seq<Vec<(i32, i32)>>, u: int, v: int, d: int, steps: nat) -> bool
    decreases steps,
{
    if steps == 0 {
        u == v && d == 0
    } else {
        exists|j: int|
            0 <= j < g[u]@.len() && has_path(
                g,
                (#[trigger] g[u]@[j]).0 as int,
                v,
                d - g[u]@[j].1,
                (steps - 1) as nat,
            )
    }
}

/// No edge can lower any recorded distance: the relaxation fixpoint.
pub open spec fn no_relaxable_edge(g: Seq<Vec<(i32, i32)>>, dist: Seq<i32>) -> bool {
    forall|u: int, j: int|
        0 <= u < g.len() && 0 <= j < g[u]@.len()
            ==> dist[(#[trigger] g[u]@[j]).0 as int] <= dist[u] + g[u]@[j].1
}

/// Appending one edge to the end of a walk yields a walk.
proof fn lemma_path_extend(
    g: Seq<Vec<(i32, i32)>>,
    u: int,
    m: int,
    d: int,
    steps: nat,
    j: int,
)
    requires
        valid_graph(g),
        0 <= u < g.len(),
        0 <= m < g.len(),
        has_path(g, u, m, d, steps),
        0 <= j < g[m]@.len(),
    ensures
        has_path(g, u, g[m]@[j].0 as int, d + g[m]@[j].1, steps + 1),
    decreases steps,
{
    if steps == 0 {
        assert(u == m && d == 0);
        assert(has_path(g, g[m]@[j].0 as int, g[m]@[j].0 as int, 0, 0));
        assert(has_path(g, u, g[m]@[j].0 as int, d + g[m]@[j].1, steps + 1));
    } else {
        let j0 = choose|j0: int|
            0 <= j0 < g[u]@.len() && has_path(
                g,
                (#[trigger] g[u]@[j0]).0 as int,
                m,
                d - g[u]@[j0].1,
                (steps - 1) as nat,
            );
        lemma_path_extend(g, g[u]@[j0].0 as int, m, d - g[u]@[j0].1, (steps - 1) as nat, j);
        assert(has_path(
            g,
            g[u]@[j0].0 as int,
            g[m]@[j].0 as int,
            (d + g[m]@[j].1) - g[u]@[j0].1,
            steps,
        ));
        assert(has_path(g, u, g[m]@[j].0 as int, d + g[m]@[j].1, steps + 1));
    }
}

/// At a relaxation fixpoint the recorded distances bound every walk:
/// following a walk from `u` to `v` of total weight `d`, the recorded
/// distance of `v` is at most the recorded distance of `u` plus `d`.
proof fn lemma_path_lower_bound(
    g: Seq<Vec<(i32, i32)>>,
    dist: Seq<i32>,
    u: int,
    v: int,
    d: int,
    steps: nat,
)
    requires
        valid_graph(g),
        dist.len() == g.len(),
        no_relaxable_edge(g, dist),
        0 <= u < g.len(),
        has_path(g, u, v, d, steps),
    ensures
        0 <= v < g.len(),
        dist[v] <= dist[u] + d,
    decreases steps,
{
    if steps == 0 {
    } else {
        let j0 = choose|j0: int|
            0 <= j0 < g[u]@.len() && has_path(
                g,
                (#[trigger] g[u]@[j0]).0 as int,
                v,
                d - g[u]@[j0].1,
                (steps - 1) as nat,
            );
        lemma_path_lower_bound(
            g,
            dist,
            g[u]@[j0].0 as int,
            v,
            d - g[u]@[j0].1,
            (steps - 1) as nat,
        );
    }
}

/// Number of `false` entries of a sequence of flags.
pub open spec fn count_false(s: Seq<bool>) -> nat
    decreases s.len(),
{
    if s.len() == 0 {
        0
    } else {
        count_false(s.drop_last()) + if s.last() {
            0nat
        } else {
            1nat
        }
    }
}

/// Setting one `false` flag to `true` lowers `count_false` by exactly one.
proof fn lemma_count_false_update(s: Seq<bool>, i: int)
    requires
        0 <= i < s.len(),
        !s[i],
    ensures
        count_false(s.update(i, true)) + 1 == count_false(s),
    decreases s.len(),
{
    if i == s.len() - 1 {
        assert(s.update(i, true).drop_last() =~= s.drop_last());
    } else {
        assert(s.update(i, true).drop_last() =~= s.drop_last().update(i, true));
        lemma_count_false_update(s.drop_last(), i);
    }
}

/// A sequence of cleared flags has as many `false` entries as elements.
proof fn lemma_count_false_all(s: Seq<bool>)
    requires
        forall|x: int| 0 <= x < s.len() ==> !(#[trigger] s[x]),
    ensures
        count_false(s) == s.len(),
    decreases s.len(),
{
    if s.len() > 0 {
        lemma_count_false_all(s.drop_last());
    }
}

/// Following parent entries from `v` arrives at `s` within `fuel` steps.
pub open spec fn parent_chain_reaches(par: Seq<i32>, s: int, v: int, fuel: nat) -> bool
    decreases fuel,
{
    if v == s {
        true
    } else if fuel == 0 {
        false
    } else {
        0 <= par[v] < par.len() && parent_chain_reaches(par, s, par[v] as int, (fuel - 1) as nat)
    }
}

/// A chain that arrives within some budget arrives within any larger one.
proof fn lemma_parent_chain_fuel(par: Seq<i32>, s: int, v: int, f1: nat, f2: nat)
    requires
        parent_chain_reaches(par, s, v, f1),
        f1 <= f2,
    ensures
        parent_chain_reaches(par, s, v, f2),
    decreases f1,
{
    if v != s {
        lemma_parent_chain_fuel(par, s, par[v] as int, (f1 - 1) as nat, (f2 - 1) as nat);
    }
}

/// A vertex finalized at position `p` of the finalization order chains
/// back to the start in at most `p` parent steps, because every finalized
/// vertex other than the start names an earlier-finalized parent.
proof fn lemma_order_chain(par: Seq<i32>, order: Seq<int>, s: int, p: int)
    requires
        forall|p2: int| 0 <= p2 < order.len() ==> 0 <= #[trigger] order[p2] < par.len(),
        forall|p2: int|
            0 <= p2 < order.len() && #[trigger] order[p2] != s ==> exists|q: int|
                0 <= q < p2 && #[trigger] order[q] == par[order[p2]] as int,
        0 <= p < order.len(),
    ensures
        parent_chain_reaches(par, s, order[p], p as nat),
    decreases p,
{
    if order[p] != s {
        let q = choose|q: int| 0 <= q < p && #[trigger] order[q] == par[order[p]] as int;
        lemma_order_chain(par, order, s, q);
        lemma_parent_chain_fuel(par, s, order[q], q as nat, (p - 1) as nat);
    }
}

/// The result contract of the shortest-path engine, over the views of the
/// two returned mappings: distances are exactly the least walk weights
/// from `s` (capped by the `i32::MAX` sentinel), and every finite entry of
/// the parent mapping names a predecessor whose edge accounts for it.
pub open spec fn sssp_post(g: Seq<Vec<(i32, i32)>>, s: int, dist: Seq<i32>, par: Seq<i32>) -> bool {
    &&& dist.len() == g.len()
    &&& par.len() == g.len()
    &&& dist[s] == 0
    &&& par[s] == -1
    &&& (forall|v: int| 0 <= v < g.len() ==> 0 <= #[trigger] dist[v] <= i32::MAX)
    &&& (forall|v: int| 0 <= v < g.len() ==> -1 <= #[trigger] par[v] < g.len())
    // no walk from the start is shorter than the recorded distance
    &&& (forall|v: int, d: int, steps: nat|
        0 <= v < g.len() && #[trigger] has_path(g, s, v, d, steps) ==> dist[v] <= d)
    // every finite recorded distance is the weight of an actual walk
    &&& (forall|v: int|
        0 <= v < g.len() && #[trigger] dist[v] < i32::MAX ==> exists|steps: nat|
            has_path(g, s, v, dist[v] as int, steps))
    // every finite entry but the start has a parent edge accounting for it
    &&& (forall|v: int|
        0 <= v < g.len() && v != s && #[trigger] dist[v] < i32::MAX ==> 0 <= par[v] < g.len()
            && dist[par[v] as int] < i32::MAX && exists|j: int|
            0 <= j < g[par[v] as int]@.len() && (#[trigger] g[par[v] as int]@[j]).0 as int == v
                && dist[par[v] as int] + g[par[v] as int]@[j].1 == dist[v])
    // unreached vertices have no predecessor
    &&& (forall|v: int| 0 <= v < g.len() && #[trigger] dist[v] == i32::MAX ==> par[v] == -1)
    // parent chains are acyclic: from every reached vertex they arrive at
    // the start within one step per vertex
    &&& (forall|v: int|
        0 <= v < g.len() && #[trigger] dist[v] < i32::MAX ==> parent_chain_reaches(
            par,
            s,
            v,
            g.len() as nat,
        ))
}

/// Every frontier entry names a vertex of the graph and a key that is no
/// smaller than that vertex's current distance.
spec fn inv_entries(g: Seq<Vec<(i32, i32)>>, dist: Seq<i32>, pq: Seq<(i32, usize)>) -> bool {
    forall|e: int|
        0 <= e < pq.len() ==> (#[trigger] pq[e]).1 < g.len() && dist[pq[e].1 as int] <= pq[e].0
            < i32::MAX && 0 <= dist[pq[e].1 as int]
}

/// Every unfinalized vertex with a finite tentative distance has a
/// frontier entry carrying exactly that distance.
spec fn inv_frontier(
    g: Seq<Vec<(i32, i32)>>,
    dist: Seq<i32>,
    vis: Seq<bool>,
    pq: Seq<(i32, usize)>,
) -> bool {
    forall|v: int|
        0 <= v < g.len() && !vis[v] && #[trigger] dist[v] < i32::MAX ==> exists|e: int|
            0 <= e < pq.len() && #[trigger] pq[e] == (dist[v], v as usize)
}

/// Finalized vertices have finite distances, none above any tentative one.
spec fn inv_visited(dist: Seq<i32>, vis: Seq<bool>) -> bool {
    &&& (forall|u: int| 0 <= u < vis.len() && #[trigger] vis[u] ==> dist[u] < i32::MAX)
    &&& (forall|u: int, v: int|
        #![trigger vis[u], vis[v]]
        0 <= u < vis.len() && 0 <= v < vis.len() && vis[u] && !vis[v] ==> dist[u] <= dist[v])
}

/// All edges out of finalized vertices have been relaxed, except those of
/// `x` at position `upto` or later.
spec fn inv_relaxed_upto(
    g: Seq<Vec<(i32, i32)>>,
    dist: Seq<i32>,
    vis: Seq<bool>,
    x: int,
    upto: int,
) -> bool {
    forall|u: int, j: int|
        0 <= u < g.len() && 0 <= j < g[u]@.len() && vis[u] && (u != x || j < upto) ==> dist[(
        #[trigger] g[u]@[j]).0 as int] <= dist[u] + g[u]@[j].1
}

/// All edges out of finalized vertices have been relaxed.
spec fn inv_relaxed(g: Seq<Vec<(i32, i32)>>, dist: Seq<i32>, vis: Seq<bool>) -> bool {
    forall|u: int, j: int|
        0 <= u < g.len() && 0 <= j < g[u]@.len() && vis[u] ==> dist[(#[trigger] g[u]@[j]).0
            as int] <= dist[u] + g[u]@[j].1
}

/// Parent entries stay consistent while the algorithm runs: a finite
/// vertex other than `s` has a finalized parent whose edge accounts for
/// its distance, and sentinel distances carry sentinel parents.
spec fn inv_parent(
    g: Seq<Vec<(i32, i32)>>,
    s: int,
    dist: Seq<i32>,
    par: Seq<i32>,
    vis: Seq<bool>,
) -> bool {
    &&& (forall|v: int|
        0 <= v < g.len() && v != s && #[trigger] dist[v] < i32::MAX ==> 0 <= par[v] < g.len()
            && vis[par[v] as int] && dist[par[v] as int] < i32::MAX && exists|j: int|
            0 <= j < g[par[v] as int]@.len() && (#[trigger] g[par[v] as int]@[j]).0 as int == v
                && dist[par[v] as int] + g[par[v] as int]@[j].1 == dist[v])
    &&& (forall|v: int| 0 <= v < g.len() && #[trigger] dist[v] == i32::MAX ==> par[v] == -1)
}

/// Every finite tentative distance is witnessed by an actual walk.
spec fn inv_witness(g: Seq<Vec<(i32, i32)>>, s: int, dist: Seq<i32>) -> bool {
    forall|v: int|
        0 <= v < g.len() && #[trigger] dist[v] < i32::MAX ==> exists|steps: nat|
            has_path(g, s, v, dist[v] as int, steps)
}

/// Single-source shortest paths by priority-ordered relaxation.
///
/// Fails (returns `None`) exactly when the graph is empty, the start
/// vertex is out of range, or the start vertex has no outgoing edge.
/// Otherwise the returned distance mapping holds, for each vertex, the
/// least total weight of any walk from `start` (with `i32::MAX` standing
/// for "unreachable, or no walk cheaper than the sentinel"), and the
/// parent mapping names for each reached vertex a predecessor on such a
/// least-weight walk (`-1` for the start and for unreached vertices).
/// Tentative sums are accumulated in a wider integer, so no relaxation
/// can overflow; a vertex whose cheapest walk would reach the sentinel is
/// reported unreachable instead of wrapping around.
#[verifier::rlimit(100)]
pub fn sssp(adj: &Vec<Vec<(i32, i32)>>, start: usize) -> (r: Option<(Vec<i32>, Vec<i32>)>)
    requires
        valid_graph(adj@),
        adj@.len() <= i32::MAX,
    ensures
        (r is Some) <==> (adj@.len() > 0 && (start as int) < adj@.len()
            && adj@[start as int]@.len() > 0),
        r matches Some(pair) ==> sssp_post(adj@, start as int, pair.0@, pair.1@),
{
    if adj.len() == 0 || start >= adj.len() || adj[start].len() == 0 {
        return None;
    }
    let n: usize = adj.len();
    let mut distance: Vec<i32> = Vec::new();
    let mut parents: Vec<i32> = Vec::new();
    let mut visited: Vec<bool> = Vec::new();
    while distance.len() < n
        invariant
            distance@.len() <= n,
            forall|x: int| 0 <= x < distance@.len() ==> #[trigger] distance@[x] == i32::MAX,
        decreases n - distance@.len(),
    {
        distance.push(i32::MAX);
    }
    while parents.len() < n
        invariant
            parents@.len() <= n,
            forall|x: int| 0 <= x < parents@.len() ==> #[trigger] parents@[x] == -1,
        decreases n - parents@.len(),
    {
        parents.push(-1);
    }
    while visited.len() < n
        invariant
            visited@.len() <= n,
            forall|x: int| 0 <= x < visited@.len() ==> !(#[trigger] visited@[x]),
        decreases n - visited@.len(),
    {
        visited.push(false);
    }
    distance[start] = 0;
    let mut pq: Vec<(i32, usize)> = Vec::new();
    pq.push((0, start));
    proof {
        assert(has_path(adj@, start as int, start as int, 0, 0));
        assert forall|v: int|
            0 <= v < n && !visited@[v] && #[trigger] distance@[v] < i32::MAX
            implies exists|e: int|
            0 <= e < pq@.len() && #[trigger] pq@[e] == (distance@[v], v as usize) by {
            assert(v == start as int);
            assert(pq@[0] == (distance@[v], v as usize));
        }
    }
    let ghost mut order: Seq<int> = Seq::empty();
    proof {
        lemma_count_false_all(visited@);
    }
    while pq.len() > 0
        invariant
            valid_graph(adj@),
            adj@.len() == n,
            n <= i32::MAX,
            (start as int) < n,
            distance@.len() == n,
            parents@.len() == n,
            visited@.len() == n,
            distance@[start as int] == 0,
            parents@[start as int] == -1,
            forall|v: int| 0 <= v < n ==> 0 <= #[trigger] distance@[v] <= i32::MAX,
            forall|v: int| 0 <= v < n ==> -1 <= #[trigger] parents@[v] < n,
            inv_entries(adj@, distance@, pq@),
            inv_frontier(adj@, distance@, visited@, pq@),
            inv_visited(distance@, visited@),
            inv_relaxed(adj@, distance@, visited@),
            inv_parent(adj@, start as int, distance@, parents@, visited@),
            inv_witness(adj@, start as int, distance@),
            order.len() + count_false(visited@) == n,
            forall|p: int| 0 <= p < order.len() ==> 0 <= #[trigger] order[p] < n
                && visited@[order[p]],
            forall|x: int| 0 <= x < n && #[trigger] visited@[x] ==> exists|p: int|
                0 <= p < order.len() && #[trigger] order[p] == x,
            forall|p: int|
                0 <= p < order.len() && #[trigger] order[p] != start as int ==> exists|q: int|
                    0 <= q < p && #[trigger] order[q] == parents@[order[p]] as int,
        decreases count_false(visited@), pq@.len(),
    {
        // scan for an entry with the least key
        let mut m: usize = 0;
        let mut idx: usize = 1;
        while idx < pq.len()
            invariant
                pq@.len() > 0,
                (m as int) < pq@.len(),
                idx <= pq@.len(),
                forall|e: int| 0 <= e < idx ==> pq@[m as int].0 <= (#[trigger] pq@[e]).0,
            decreases pq@.len() - idx,
        {
            if pq[idx].0 < pq[m].0 {
                m = idx;
            }
            idx += 1;
        }
        let ghost pq0 = pq@;
        let (k, u) = pq.swap_remove(m);
        proof {
            assert(pq0[m as int] == (k, u));
            assert((u as int) < n);
            // every unfinalized finite vertex other than u keeps an exact
            // frontier entry after the removal
            assert forall|v: int|
                0 <= v < n && !visited@[v] && #[trigger] distance@[v] < i32::MAX && v != u as int
                implies exists|e: int|
                0 <= e < pq@.len() && #[trigger] pq@[e] == (distance@[v], v as usize) by {
                let e0 = choose|e0: int|
                    0 <= e0 < pq0.len() && #[trigger] pq0[e0] == (distance@[v], v as usize);
                assert(pq0[e0].1 != pq0[m as int].1);
                assert(e0 != m as int);
                if e0 < pq0.len() - 1 {
                    assert(pq@[e0] == pq0[e0]);
                } else {
                    assert((m as int) < pq0.len() - 1);
                    assert(pq@[m as int] == pq0[pq0.len() - 1]);
                }
            }
            // surviving entries are entries of the old frontier
            assert forall|e: int| 0 <= e < pq@.len() implies (#[trigger] pq@[e]).1 < n
                && distance@[pq@[e].1 as int] <= pq@[e].0 < i32::MAX
                && 0 <= distance@[pq@[e].1 as int] by {
                if e == m as int {
                    assert(pq@[e] == pq0[pq0.len() - 1]);
                } else {
                    assert(pq@[e] == pq0[e]);
                }
            }
        }
        if !visited[u] {
            let ghost vis0 = visited@;
            proof {
                // the extracted key is a lower bound on every tentative
                // distance still unfinalized, so u may be finalized now
                assert(distance@[u as int] <= k);
                lemma_count_false_update(vis0, u as int);
            }
            visited[u] = true;
            let d: i32 = distance[u];
            let ghost vis1 = visited@;
            let ghost order0 = order;
            proof {
                order = order.push(u as int);
                assert(vis1 =~= vis0.update(u as int, true));
                // u enters the finalization order; its parent, if any, was
                // finalized earlier, and everything finalized stays listed
                assert forall|x: int| 0 <= x < n && #[trigger] vis1[x] implies exists|p: int|
                    0 <= p < order.len() && #[trigger] order[p] == x by {
                    if x == u as int {
                        assert(order[order.len() - 1] == x);
                    } else {
                        let p0 = choose|p0: int|
                            0 <= p0 < order0.len() && #[trigger] order0[p0] == x;
                        assert(order[p0] == x);
                    }
                }
                assert forall|p: int|
                    0 <= p < order.len() && #[trigger] order[p] != start as int
                    implies exists|q: int|
                    0 <= q < p && #[trigger] order[q] == parents@[order[p]] as int by {
                    if p == order.len() - 1 {
                        assert(order[p] == u as int);
                        assert(distance@[u as int] < i32::MAX);
                        assert(vis0[parents@[u as int] as int]);
                        let q0 = choose|q0: int|
                            0 <= q0 < order0.len() && #[trigger] order0[q0] == parents@[u
                                as int] as int;
                        assert(order[q0] == parents@[order[p]] as int);
                    } else {
                        let q0 = choose|q0: int|
                            0 <= q0 < p && #[trigger] order0[q0] == parents@[order0[p]] as int;
                        assert(order[q0] == parents@[order[p]] as int);
                    }
                }
                assert forall|x: int| 0 <= x < n && vis1[x] implies #[trigger] distance@[x]
                    <= d by {
                    if x != u as int {
                        assert(vis0[x]);
                        assert(!vis0[u as int]);
                    }
                }
                // newly: visited minimality against every unfinalized vertex
                assert forall|x: int, v: int|
                    #![trigger vis1[x], vis1[v]]
                    0 <= x < n && 0 <= v < n && vis1[x] && !vis1[v] implies distance@[x]
                    <= distance@[v] by {
                    if distance@[v] < i32::MAX {
                        let e0 = choose|e0: int|
                            0 <= e0 < pq0.len() && #[trigger] pq0[e0] == (
                            distance@[v],
                            v as usize,
                            );
                        assert(pq0[m as int].0 <= pq0[e0].0);
                        assert(distance@[x] <= d);
                    } else {
                        assert(distance@[x] <= d);
                    }
                }
            }
            let deg: usize = adj[u].len();
            for j in 0..deg
                invariant
                    valid_graph(adj@),
                    adj@.len() == n,
                    n <= i32::MAX,
                    (start as int) < n,
                    (u as int) < n,
                    deg == adj@[u as int]@.len(),
                    distance@.len() == n,
                    parents@.len() == n,
                    visited@ == vis1,
                    vis1.len() == n,
                    vis1[u as int],
                    distance@[u as int] == d,
                    0 <= d < i32::MAX,
                    distance@[start as int] == 0,
                    parents@[start as int] == -1,
                    forall|v: int| 0 <= v < n ==> 0 <= #[trigger] distance@[v] <= i32::MAX,
                    forall|v: int| 0 <= v < n ==> -1 <= #[trigger] parents@[v] < n,
                    forall|x: int| 0 <= x < n && vis1[x] ==> #[trigger] distance@[x] <= d,
                    inv_entries(adj@, distance@, pq@),
                    inv_frontier(adj@, distance@, visited@, pq@),
                    inv_visited(distance@, visited@),
                    inv_relaxed_upto(adj@, distance@, visited@, u as int, j as int),
                    inv_parent(adj@, start as int, distance@, parents@, visited@),
                    inv_witness(adj@, start as int, distance@),
                    order.len() + count_false(vis1) == n,
                    forall|p: int| 0 <= p < order.len() ==> 0 <= #[trigger] order[p] < n
                        && vis1[order[p]],
                    forall|x: int| 0 <= x < n && #[trigger] vis1[x] ==> exists|p: int|
                        0 <= p < order.len() && #[trigger] order[p] == x,
                    forall|p: int|
                        0 <= p < order.len() && #[trigger] order[p] != start as int
                            ==> exists|q: int|
                            0 <= q < p && #[trigger] order[q] == parents@[order[p]] as int,
            {
                let (v0, w) = adj[u][j];
                let v: usize = v0 as usize;
                assert(0 <= (v0 as int) < n && w >= 0);
                if !visited[v] {
                    let sum: i64 = d as i64 + w as i64;
                    if sum < distance[v] as i64 {
                        let ghost dist0 = distance@;
                        let ghost parb = parents@;
                        let ghost pqb = pq@;
                        distance[v] = sum as i32;
                        parents[v] = u as i32;
                        pq.push((d + w, v));
                        proof {
                            assert(distance@ =~= dist0.update(v as int, (d + w) as i32));
                            // only the unfinalized v changes parent, so the
                            // chain-back property of finalized vertices holds
                            assert forall|p: int|
                                0 <= p < order.len() && #[trigger] order[p] != start as int
                                implies exists|q: int|
                                0 <= q < p && #[trigger] order[q] == parents@[order[p]]
                                    as int by {
                                assert(vis1[order[p]] && !vis1[v as int]);
                                assert(order[p] != v as int);
                                assert(parents@[order[p]] == parb[order[p]]);
                                let q0 = choose|q0: int|
                                    0 <= q0 < p && #[trigger] order[q0] == parb[order[p]] as int;
                                assert(order[q0] == parents@[order[p]] as int);
                            }
                            // walk witness for the improved vertex
                            let su = choose|steps: nat|
                                has_path(adj@, start as int, u as int, d as int, steps);
                            lemma_path_extend(adj@, start as int, u as int, d as int, su, j as int);
                            assert(has_path(
                                adj@,
                                start as int,
                                v as int,
                                distance@[v as int] as int,
                                su + 1,
                            ));
                            // each unfinalized finite vertex keeps an exact entry
                            assert forall|v2: int|
                                0 <= v2 < n && !vis1[v2] && #[trigger] distance@[v2] < i32::MAX
                                implies exists|e: int|
                                0 <= e < pq@.len() && #[trigger] pq@[e] == (
                                distance@[v2],
                                v2 as usize,
                                ) by {
                                if v2 == v as int {
                                    assert(pq@[pq@.len() - 1] == (distance@[v2], v2 as usize));
                                } else {
                                    let e0 = choose|e0: int|
                                        0 <= e0 < pqb.len() && #[trigger] pqb[e0] == (
                                        dist0[v2],
                                        v2 as usize,
                                        );
                                    assert(pq@[e0] == (distance@[v2], v2 as usize));
                                }
                            }
                        }
                    } else {
                        assert(distance@[v as int] <= d + w);
                    }
                } else {
                    assert(distance@[v as int] <= d);
                }
                assert(distance@[(adj@[u as int]@[j as int]).0 as int] <= distance@[u as int]
                    + (adj@[u as int]@[j as int]).1);
            }
            proof {
                assert(inv_relaxed(adj@, distance@, visited@));
            }
        }
    }
    proof {
        // an empty frontier finalizes every finite vertex, so no edge can
        // still lower a distance
        assert forall|u2: int, j2: int|
            0 <= u2 < n && 0 <= j2 < adj@[u2]@.len() implies distance@[(
        #[trigger] adj@[u2]@[j2]).0 as int] <= distance@[u2] + adj@[u2]@[j2].1 by {
            if distance@[u2] < i32::MAX {
                assert(visited@[u2]);
            }
        }
        assert(no_relaxable_edge(adj@, distance@));
        assert forall|v: int, dd: int, steps: nat|
            0 <= v < n && #[trigger] has_path(adj@, start as int, v, dd, steps)
            implies distance@[v] <= dd by {
            lemma_path_lower_bound(adj@, distance@, start as int, v, dd, steps);
        }
        // every reached vertex was finalized, so its parent chain walks
        // back through earlier finalizations to the start
        assert forall|v: int|
            0 <= v < n && #[trigger] distance@[v] < i32::MAX implies parent_chain_reaches(
            parents@,
            start as int,
            v,
            n as nat,
        ) by {
            assert(visited@[v]);
            let p = choose|p: int| 0 <= p < order.len() && #[trigger] order[p] == v;
            lemma_order_chain(parents@, order, start as int, p);
            lemma_parent_chain_fuel(parents@, start as int, v, p as nat, n as nat);
        }
        assert(sssp_post(adj@, start as int, distance@, parents@));
    }
    Some((distance, parents))
}

/// Law: once the engine commits a distance, no edge could lower it any
/// further — the returned distance mapping is a relaxation fixpoint. This
/// is the observable face of the label-setting discipline: a finalized
/// vertex's distance is never updated again, so nothing relaxable is left
/// behind when the frontier drains.
pub proof fn lemma_result_is_relaxation_fixpoint(
    g: Seq<Vec<(i32, i32)>>,
    s: int,
    dist: Seq<i32>,
    par: Seq<i32>,
)
    requires
        valid_graph(g),
        0 <= s < g.len(),
        sssp_post(g, s, dist, par),
    ensures
        no_relaxable_edge(g, dist),
{
    assert forall|u: int, j: int|
        0 <= u < g.len() && 0 <= j < g[u]@.len() implies dist[(#[trigger] g[u]@[j]).0 as int]
        <= dist[u] + g[u]@[j].1 by {
        if dist[u] < i32::MAX {
            let steps = choose|steps: nat| has_path(g, s, u, dist[u] as int, steps);
            lemma_path_extend(g, s, u, dist[u] as int, steps, j);
            assert(has_path(g, s, g[u]@[j].0 as int, dist[u] + g[u]@[j].1, steps + 1));
        }
    }
}

/// Law: the engine's contract pins the distance mapping down — any two
/// results for the same graph and start vertex that both satisfy it hold
/// the same distances. (Parent entries may differ only where several
/// least-weight predecessors exist; tie-breaking among them is left open.)
pub proof fn lemma_distances_determined(
    g: Seq<Vec<(i32, i32)>>,
    s: int,
    dist1: Seq<i32>,
    par1: Seq<i32>,
    dist2: Seq<i32>,
    par2: Seq<i32>,
)
    requires
        sssp_post(g, s, dist1, par1),
        sssp_post(g, s, dist2, par2),
    ensures
        dist1 == dist2,
{
    assert forall|v: int| 0 <= v < g.len() implies dist1[v] == dist2[v] by {
        if dist1[v] < i32::MAX {
            let steps = choose|steps: nat| has_path(g, s, v, dist1[v] as int, steps);
            assert(dist2[v] <= dist1[v]);
        }
        if dist2[v] < i32::MAX {
            let steps = choose|steps: nat| has_path(g, s, v, dist2[v] as int, steps);
            assert(dist1[v] <= dist2[v]);
        }
    }
    assert(dist1 =~= dist2);
}

} // verus!


