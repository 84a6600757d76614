//! Graph algorithms over dense, index-addressed adjacency lists: a
//! shortest-path engine (`dijkstra`) and two traversal utilities,
//! depth-first post-ordering and breadth-first layering.

use std::collections::HashMap;
use vstd::prelude::*;

pub mod dijkstra;

verus! {

broadcast use vstd::std_specs::hash::group_hash_axioms;

/// An unweighted adjacency list is well formed when every listed
/// neighbour is a vertex of the graph.
pub open spec fn valid_adj(g: Seq<Vec<i32>>) -> bool {
    forall|u: int, j: int|
        0 <= u < g.len() && 0 <= j < g[u]@.len() ==> 0 <= #[trigger] g[u]@[j] < g.len()
}

/// Flag entries are the marks `0` (unvisited) and `1` (visited).
pub open spec fn marks(s: Seq<i32>) -> bool {
    forall|x: int| 0 <= x < s.len() ==> #[trigger] s[x] == 0 || s[x] == 1
}

/// Number of `0` marks in a flag sequence.
pub open spec fn count_zeros(s: Seq<i32>) -> nat
    decreases s.len(),
{
    if s.len() == 0 {
        0
    } else {
        count_zeros(s.drop_last()) + if s.last() == 0 {
            1nat
        } else {
            0nat
        }
    }
}

/// Setting one `0` mark to `1` lowers `count_zeros` by exactly one.
proof fn lemma_count_zeros_update(s: Seq<i32>, i: int)
    requires
        0 <= i < s.len(),
        s[i] == 0,
    ensures
        count_zeros(s.update(i, 1)) + 1 == count_zeros(s),
    decreases s.len(),
{
    if i == s.len() - 1 {
        assert(s.update(i, 1).drop_last() =~= s.drop_last());
    } else {
        assert(s.update(i, 1).drop_last() =~= s.drop_last().update(i, 1));
        lemma_count_zeros_update(s.drop_last(), i);
    }
}

/// A step that clears no mark cannot raise the number of `0` marks.
proof fn lemma_count_zeros_monotone(s1: Seq<i32>, s2: Seq<i32>)
    requires
        s1.len() == s2.len(),
        forall|x: int| 0 <= x < s2.len() && #[trigger] s2[x] == 0 ==> s1[x] == 0,
    ensures
        count_zeros(s2) <= count_zeros(s1),
    decreases s1.len(),
{
    if s1.len() > 0 {
        lemma_count_zeros_monotone(s1.drop_last(), s2.drop_last());
    }
}

/// No vertex appears twice.
pub open spec fn no_dup(s: Seq<i32>) -> bool {
    forall|t1: int, t2: int| 0 <= t1 < t2 < s.len() ==> s[t1] != s[t2]
}

/// Vertex `x` went from unvisited to visited between two flag states.
pub open spec fn newly(v0: Seq<i32>, v1: Seq<i32>, x: int) -> bool {
    v0[x] == 0 && v1[x] == 1
}

/// Vertex `x` appears somewhere in the sequence.
pub open spec fn appears(s: Seq<i32>, x: int) -> bool {
    exists|t: int| 0 <= t < s.len() && #[trigger] s[t] as int == x
}

/// Every neighbour of vertex `x` carries the visited mark.
pub open spec fn neighbours_marked(g: Seq<Vec<i32>>, vis: Seq<i32>, x: int) -> bool {
    forall|j: int| 0 <= j < g[x]@.len() ==> vis[(#[trigger] g[x]@[j]) as int] == 1
}

/// There is a walk of `steps` edges from `u` to `x` all of whose
/// vertices — `u` and `x` included — are unvisited in `vis`.
pub open spec fn reach_unvisited(
    g: Seq<Vec<i32>>,
    vis: Seq<i32>,
    u: int,
    x: int,
    steps: nat,
) -> bool
    decreases steps,
{
    &&& vis[u] == 0
    &&& if steps == 0 {
        u == x
    } else {
        exists|j: int|
            0 <= j < g[u]@.len() && reach_unvisited(
                g,
                vis,
                (#[trigger] g[u]@[j]) as int,
                x,
                (steps - 1) as nat,
            )
    }
}

/// A walk through unvisited vertices stays one when marks are removed.
proof fn lemma_reach_unvisited_mono(
    g: Seq<Vec<i32>>,
    vis1: Seq<i32>,
    vis2: Seq<i32>,
    u: int,
    x: int,
    steps: nat,
)
    requires
        valid_adj(g),
        vis1.len() == g.len(),
        vis2.len() == g.len(),
        forall|y: int| 0 <= y < g.len() && #[trigger] vis1[y] == 0 ==> vis2[y] == 0,
        0 <= u < g.len(),
        reach_unvisited(g, vis1, u, x, steps),
    ensures
        reach_unvisited(g, vis2, u, x, steps),
    decreases steps,
{
    if steps > 0 {
        let j0 = choose|j0: int|
            0 <= j0 < g[u]@.len() && reach_unvisited(
                g,
                vis1,
                (#[trigger] g[u]@[j0]) as int,
                x,
                (steps - 1) as nat,
            );
        lemma_reach_unvisited_mono(g, vis1, vis2, g[u]@[j0] as int, x, (steps - 1) as nat);
        assert(reach_unvisited(g, vis2, u, x, steps));
    }
}

/// A walk through unvisited vertices is in particular a walk.
proof fn lemma_reach_unvisited_is_walk(
    g: Seq<Vec<i32>>,
    vis: Seq<i32>,
    u: int,
    x: int,
    steps: nat,
)
    requires
        valid_adj(g),
        vis.len() == g.len(),
        0 <= u < g.len(),
        reach_unvisited(g, vis, u, x, steps),
    ensures
        ureach(g, u, x, steps),
    decreases steps,
{
    if steps > 0 {
        let j0 = choose|j0: int|
            0 <= j0 < g[u]@.len() && reach_unvisited(
                g,
                vis,
                (#[trigger] g[u]@[j0]) as int,
                x,
                (steps - 1) as nat,
            );
        lemma_reach_unvisited_is_walk(g, vis, g[u]@[j0] as int, x, (steps - 1) as nat);
        assert(ureach(g, u, x, steps));
    }
}

/// The graph has no directed cycle (self-loops included).
pub open spec fn acyclic(g: Seq<Vec<i32>>) -> bool {
    forall|v: int, steps: nat| 0 <= v < g.len() && 1 <= steps ==> !(#[trigger] ureach(
        g,
        v,
        v,
        steps,
    ))
}

/// How the depth-first walk accounts for edge `j` out of the vertex at
/// position `t` of the result: its target was appended earlier, or was
/// already visited before the walk began, or is an ancestor still on the
/// walk's stack — appended at `t` or later, with a walk back to `t`'s
/// vertex (so this case arises only on cycles).
pub open spec fn edge_resolved(
    g: Seq<Vec<i32>>,
    res: Seq<i32>,
    vis0: Seq<i32>,
    t: int,
    j: int,
) -> bool {
    let x = res[t] as int;
    let y = (g[x]@[j]) as int;
    ||| exists|t2: int| 0 <= t2 < t && (#[trigger] res[t2]) as int == y
    ||| vis0[y] == 1
    ||| (exists|t2: int| t <= t2 < res.len() && (#[trigger] res[t2]) as int == y) && exists|
        steps: nat,
    |
        1 <= steps && #[trigger] ureach(g, y, x, steps)
}

/// The target of edge `j` out of the vertex at position `t` appears
/// somewhere before position `t`.
pub open spec fn precedes_source(g: Seq<Vec<i32>>, res: Seq<i32>, t: int, j: int) -> bool {
    exists|t2: int| 0 <= t2 < t && (#[trigger] res[t2]) as int == (g[res[t] as int]@[j]) as int
}

/// One depth-first walk from vertex `i`: visits every vertex reachable
/// from `i` through unvisited vertices, marking each, and appends each in
/// post-order. The appended block consists of exactly the vertices this
/// call marked, each once, with `i` last among them (unless `i` was
/// already marked, in which case nothing happens).
pub fn dfs_visit(i: i32, adj_list: &Vec<Vec<i32>>, visited: &mut Vec<i32>, result: &mut Vec<i32>)
    requires
        valid_adj(adj_list@),
        0 <= i < adj_list@.len(),
        old(visited)@.len() == adj_list@.len(),
        marks(old(visited)@),
    ensures
        final(visited)@.len() == adj_list@.len(),
        marks(final(visited)@),
        forall|x: int|
            0 <= x < adj_list@.len() && #[trigger] old(visited)@[x] == 1 ==> final(visited)@[x]
                == 1,
        final(visited)@[i as int] == 1,
        final(result)@.len() >= old(result)@.len(),
        final(result)@.subrange(0, old(result)@.len() as int) == old(result)@,
        forall|t: int|
            old(result)@.len() <= t < final(result)@.len() ==> 0 <= #[trigger] final(result)@[t]
                < adj_list@.len() && newly(old(visited)@, final(visited)@, final(result)@[t] as int),
        forall|x: int|
            0 <= x < adj_list@.len() && #[trigger] newly(old(visited)@, final(visited)@, x)
                ==> exists|t: int|
                old(result)@.len() <= t < final(result)@.len() && #[trigger] final(result)@[t]
                    as int == x,
        forall|t1: int, t2: int|
            old(result)@.len() <= t1 < t2 < final(result)@.len() ==> final(result)@[t1]
                != final(result)@[t2],
        // post-order: the walk's root comes after everything it marked
        old(visited)@[i as int] == 0 ==> final(result)@.len() > old(result)@.len()
            && final(result)@.last() == i,
        // the walk explores fully: whatever it marks has all its
        // neighbours marked when it returns
        forall|x: int|
            0 <= x < adj_list@.len() && #[trigger] newly(old(visited)@, final(visited)@, x)
                ==> neighbours_marked(adj_list@, final(visited)@, x),
        // and no further: it marks only vertices it can reach from `i`
        // through vertices unvisited at entry
        forall|x: int|
            0 <= x < adj_list@.len() && #[trigger] newly(old(visited)@, final(visited)@, x)
                ==> exists|steps: nat| reach_unvisited(adj_list@, old(visited)@, i as int, x, steps),
        // a walk whose root is already marked changes nothing
        old(visited)@[i as int] == 1 ==> final(visited)@ == old(visited)@
            && final(result)@ == old(result)@,
        // post-order, edge by edge: every edge out of an appended vertex
        // leads to an earlier entry, a previously visited vertex, or an
        // ancestor on a cycle
        forall|t: int, j: int|
            old(result)@.len() <= t < final(result)@.len()
                && 0 <= j < adj_list@[final(result)@[t] as int]@.len() ==> #[trigger] edge_resolved(
                adj_list@,
                final(result)@,
                old(visited)@,
                t,
                j,
            ),
    decreases count_zeros(old(visited)@),
{
    let iu: usize = i as usize;
    if visited[iu] == 1 {
        proof {
            assert(result@.subrange(0, result@.len() as int) =~= result@);
        }
        return ;
    }
    let ghost vis0 = visited@;
    let ghost r0 = result@;
    proof {
        lemma_count_zeros_update(vis0, i as int);
    }
    visited[iu] = 1;
    proof {
        assert(reach_unvisited(adj_list@, vis0, i as int, i as int, 0));
    }
    let n: usize = adj_list.len();
    let deg: usize = adj_list[iu].len();
    for j in 0..deg
        invariant
            valid_adj(adj_list@),
            n == adj_list@.len(),
            0 <= (i as int) < n,
            iu == i as usize,
            deg == adj_list@[i as int]@.len(),
            visited@.len() == n,
            marks(visited@),
            vis0 == old(visited)@,
            r0 == old(result)@,
            vis0.len() == n,
            marks(vis0),
            vis0[i as int] == 0,
            visited@[i as int] == 1,
            forall|x: int| 0 <= x < n && #[trigger] vis0[x] == 1 ==> visited@[x] == 1,
            count_zeros(visited@) < count_zeros(vis0),
            result@.len() >= r0.len(),
            result@.subrange(0, r0.len() as int) == r0,
            forall|t: int|
                r0.len() <= t < result@.len() ==> 0 <= #[trigger] result@[t] < n && newly(
                    vis0,
                    visited@,
                    result@[t] as int,
                ) && result@[t] != i,
            forall|x: int|
                0 <= x < n && #[trigger] newly(vis0, visited@, x) && x != i as int
                    ==> exists|t: int|
                    r0.len() <= t < result@.len() && #[trigger] result@[t] as int == x,
            forall|t1: int, t2: int|
                r0.len() <= t1 < t2 < result@.len() ==> result@[t1] != result@[t2],
            forall|x: int|
                0 <= x < n && #[trigger] newly(vis0, visited@, x) && x != i as int
                    ==> neighbours_marked(adj_list@, visited@, x),
            forall|j2: int|
                0 <= j2 < j ==> visited@[(#[trigger] adj_list@[i as int]@[j2]) as int] == 1,
            forall|x: int|
                0 <= x < n && #[trigger] newly(vis0, visited@, x) ==> exists|steps: nat|
                    reach_unvisited(adj_list@, vis0, i as int, x, steps),
            forall|t: int, j2: int|
                r0.len() <= t < result@.len() && 0 <= j2 < adj_list@[result@[t] as int]@.len()
                    ==> #[trigger] edge_resolved(adj_list@, result@, vis0, t, j2)
                    || (adj_list@[result@[t] as int]@[j2]) as int == i as int,
    {
        let node = adj_list[iu][j];
        if visited[node as usize] == 0 {
            let ghost vb = visited@;
            let ghost rb = result@;
            dfs_visit(node, adj_list, visited, result);
            proof {
                assert forall|x: int|
                    0 <= x < n && #[trigger] visited@[x] == 0 implies vb[x] == 0 by {
                    assert(vb[x] == 0 || vb[x] == 1);
                }
                lemma_count_zeros_monotone(vb, visited@);
                assert(result@.subrange(0, r0.len() as int) =~= r0);
                // entries pushed before the recursive call are unchanged
                assert forall|t: int| r0.len() <= t < rb.len() implies result@[t] == rb[t] by {
                    assert(result@.subrange(0, rb.len() as int)[t] == result@[t]);
                }
                // every pushed entry is a vertex this call newly marked,
                // and is not `i`
                assert forall|t: int| r0.len() <= t < result@.len() implies 0 <= #[trigger] result@[t]
                    < n && newly(vis0, visited@, result@[t] as int) && result@[t] != i by {
                    if t < rb.len() {
                        assert(result@[t] == rb[t]);
                        assert(newly(vis0, vb, rb[t] as int));
                        assert(vb[rb[t] as int] == 1);
                    } else {
                        assert(newly(vb, visited@, result@[t] as int));
                        assert(vb[result@[t] as int] == 0);
                        assert(vis0[result@[t] as int] == 0 || vis0[result@[t] as int] == 1);
                        assert(vb[i as int] == 1);
                    }
                }
                // whatever the call marked it reached from `node` through
                // vertices it saw unvisited; those were unvisited at entry
                // too, and the edge to `node` roots the walk at `i`
                assert forall|x: int|
                    0 <= x < n && #[trigger] newly(vis0, visited@, x) implies exists|steps: nat|
                    reach_unvisited(adj_list@, vis0, i as int, x, steps) by {
                    if !newly(vis0, vb, x) {
                        assert(newly(vb, visited@, x));
                        assert forall|y: int|
                            0 <= y < n && #[trigger] vb[y] == 0 implies vis0[y] == 0 by {
                            assert(vis0[y] == 0 || vis0[y] == 1);
                        }
                        let steps0 = choose|steps0: nat|
                            reach_unvisited(adj_list@, vb, node as int, x, steps0);
                        lemma_reach_unvisited_mono(
                            adj_list@,
                            vb,
                            vis0,
                            node as int,
                            x,
                            steps0,
                        );
                        assert(adj_list@[i as int]@[j as int] == node);
                        assert(reach_unvisited(adj_list@, vis0, i as int, x, steps0 + 1));
                    }
                }
                // a vertex this loop has marked so far keeps its neighbours
                // marked: earlier walks by monotonicity, the last one by
                // what the call itself ensures
                assert forall|x: int|
                    0 <= x < n && #[trigger] newly(vis0, visited@, x) && x != i as int
                    implies neighbours_marked(adj_list@, visited@, x) by {
                    if vb[x] == 1 {
                        assert(newly(vis0, vb, x));
                        assert(neighbours_marked(adj_list@, vb, x));
                        assert forall|j2: int|
                            0 <= j2 < adj_list@[x]@.len() implies visited@[(
                        #[trigger] adj_list@[x]@[j2]) as int] == 1 by {
                            assert(vb[(adj_list@[x]@[j2]) as int] == 1);
                        }
                    } else {
                        assert(newly(vb, visited@, x));
                    }
                }
                // pushed entries stay pairwise distinct: the earlier block
                // holds vertices already marked before the call, the newer
                // block vertices it marked itself
                assert forall|t1: int, t2: int|
                    r0.len() <= t1 < t2 < result@.len() implies result@[t1] != result@[t2] by {
                    if t1 < rb.len() && t2 >= rb.len() {
                        assert(result@[t1] == rb[t1]);
                        assert(vb[rb[t1] as int] == 1);
                        assert(newly(vb, visited@, result@[t2] as int));
                    } else if t2 < rb.len() {
                        assert(result@[t1] == rb[t1] && result@[t2] == rb[t2]);
                    }
                }
                // the recursive call pushed exactly what it newly marked;
                // those were unmarked before it, hence unmarked at entry,
                // and distinct from everything pushed earlier
                assert forall|x: int|
                    0 <= x < n && #[trigger] newly(vis0, visited@, x) && x != i as int
                    implies exists|t: int|
                    r0.len() <= t < result@.len() && #[trigger] result@[t] as int == x by {
                    if vb[x] == 1 {
                        assert(newly(vis0, vb, x));
                        let t0 = choose|t0: int|
                            r0.len() <= t0 < rb.len() && #[trigger] rb[t0] as int == x;
                        assert(result@[t0] as int == x);
                    } else {
                        assert(newly(vb, visited@, x));
                    }
                }
                // edges of the block stay accounted for: entries kept their
                // positions, earlier-visited targets split into "visited at
                // entry" and "pushed by an earlier walk of this loop"
                assert forall|t: int, j2: int|
                    r0.len() <= t < result@.len() && 0 <= j2 < adj_list@[result@[t]
                        as int]@.len()
                    implies #[trigger] edge_resolved(adj_list@, result@, vis0, t, j2)
                        || (adj_list@[result@[t] as int]@[j2]) as int == i as int by {
                    let x = result@[t] as int;
                    let y = (adj_list@[x]@[j2]) as int;
                    if t < rb.len() {
                        assert(result@[t] == rb[t]);
                        if edge_resolved(adj_list@, rb, vis0, t, j2) {
                            if exists|t2: int| 0 <= t2 < t && (#[trigger] rb[t2]) as int == y {
                                let t2 = choose|t2: int|
                                    0 <= t2 < t && (#[trigger] rb[t2]) as int == y;
                                assert(result@[t2] as int == y);
                            } else if vis0[y] == 1 {
                            } else {
                                let t2 = choose|t2: int|
                                    t <= t2 < rb.len() && (#[trigger] rb[t2]) as int == y;
                                assert(result@[t2] as int == y);
                            }
                            assert(edge_resolved(adj_list@, result@, vis0, t, j2));
                        }
                    } else {
                        assert(edge_resolved(adj_list@, result@, vb, t, j2));
                        assert(newly(vb, visited@, x));
                        assert(0 <= y < n);
                        if !edge_resolved(adj_list@, result@, vis0, t, j2) && y != i as int {
                            assert(vb[y] == 1);
                            assert(vis0[y] == 0 || vis0[y] == 1);
                            assert(newly(vis0, vb, y));
                            let t2 = choose|t2: int|
                                r0.len() <= t2 < rb.len() && #[trigger] rb[t2] as int == y;
                            assert(result@[t2] as int == y && t2 < t);
                            assert(edge_resolved(adj_list@, result@, vis0, t, j2));
                        }
                    }
                }
            }
        }
    }
    let ghost rp = result@;
    result.push(i);
    proof {
        assert(result@.subrange(0, r0.len() as int) =~= r0);
        assert(newly(vis0, visited@, i as int));
        assert forall|x: int|
            0 <= x < n && #[trigger] newly(vis0, visited@, x) implies exists|t: int|
            r0.len() <= t < result@.len() && #[trigger] result@[t] as int == x by {
            if x == i as int {
                assert(result@[result@.len() - 1] as int == x);
            } else {
                let t0 = choose|t0: int| r0.len() <= t0 < rp.len() && #[trigger] rp[t0] as int == x;
                assert(result@[t0] as int == x);
            }
        }
        // every edge of the appended block is accounted for: the root's
        // own edges by the finished scan, the rest by the loop, with the
        // root — appended last — resolving what pointed back at it
        assert forall|t: int, j2: int|
            r0.len() <= t < result@.len() && 0 <= j2 < adj_list@[result@[t] as int]@.len()
            implies #[trigger] edge_resolved(adj_list@, result@, vis0, t, j2) by {
            let x = result@[t] as int;
            let y = (adj_list@[x]@[j2]) as int;
            if t == result@.len() - 1 {
                assert(x == i as int);
                assert(visited@[y] == 1);
                if vis0[y] != 1 {
                    if y == i as int {
                        assert(ureach(adj_list@, i as int, i as int, 0));
                        assert(ureach(adj_list@, y, x, 1));
                        assert(result@[t] as int == y);
                        assert(edge_resolved(adj_list@, result@, vis0, t, j2));
                    } else {
                        assert(vis0[y] == 0 || vis0[y] == 1);
                        assert(newly(vis0, visited@, y));
                        let t2 = choose|t2: int|
                            r0.len() <= t2 < rp.len() && #[trigger] rp[t2] as int == y;
                        assert(result@[t2] as int == y && t2 < t);
                        assert(edge_resolved(adj_list@, result@, vis0, t, j2));
                    }
                }
            } else {
                assert(result@[t] == rp[t]);
                if edge_resolved(adj_list@, rp, vis0, t, j2) {
                    if exists|t2: int| 0 <= t2 < t && (#[trigger] rp[t2]) as int == y {
                        let t2 = choose|t2: int| 0 <= t2 < t && (#[trigger] rp[t2]) as int == y;
                        assert(result@[t2] as int == y);
                    } else if vis0[y] == 1 {
                    } else {
                        let t2 = choose|t2: int|
                            t <= t2 < rp.len() && (#[trigger] rp[t2]) as int == y;
                        assert(result@[t2] as int == y);
                    }
                    assert(edge_resolved(adj_list@, result@, vis0, t, j2));
                } else {
                    assert(y == i as int);
                    assert(newly(vis0, visited@, x) && x != i as int);
                    let steps = choose|steps: nat|
                        reach_unvisited(adj_list@, vis0, i as int, x, steps);
                    lemma_reach_unvisited_is_walk(adj_list@, vis0, i as int, x, steps);
                    assert(steps >= 1);
                    assert(result@[result@.len() - 1] as int == y);
                    assert(edge_resolved(adj_list@, result@, vis0, t, j2));
                }
            }
        }
    }
}

/// Depth-first post-ordering of the whole graph: walks every vertex in
/// index order, and returns a sequence in which every vertex of the graph
/// appears exactly once, each vertex after all its reachable unvisited
/// descendants.
pub fn dfs_list(adj_list: &Vec<Vec<i32>>) -> (res: Vec<i32>)
    requires
        valid_adj(adj_list@),
        adj_list@.len() <= i32::MAX,
    ensures
        forall|t: int| 0 <= t < res@.len() ==> 0 <= #[trigger] res@[t] < adj_list@.len(),
        forall|x: int| 0 <= x < adj_list@.len() ==> #[trigger] appears(res@, x),
        no_dup(res@),
        // on an acyclic graph the result is post-ordered: every edge's
        // target precedes its source, so the reverse is a topological order
        forall|t: int, j: int|
            0 <= t < res@.len() && 0 <= j < adj_list@[res@[t] as int]@.len() && acyclic(adj_list@)
                ==> #[trigger] precedes_source(adj_list@, res@, t, j),
{
    let n: usize = adj_list.len();
    let mut visited: Vec<i32> = Vec::new();
    while visited.len() < n
        invariant
            visited@.len() <= n,
            forall|x: int| 0 <= x < visited@.len() ==> #[trigger] visited@[x] == 0,
        decreases n - visited@.len(),
    {
        visited.push(0);
    }
    let mut res: Vec<i32> = Vec::new();
    for i in 0..n
        invariant
            valid_adj(adj_list@),
            n == adj_list@.len(),
            n <= i32::MAX,
            visited@.len() == n,
            marks(visited@),
            forall|x: int| 0 <= x < i ==> #[trigger] visited@[x] == 1,
            forall|t: int| 0 <= t < res@.len() ==> 0 <= #[trigger] res@[t] < n,
            no_dup(res@),
            // the marked vertices are exactly those delivered so far
            forall|x: int| 0 <= x < n && #[trigger] visited@[x] == 1 ==> appears(res@, x),
            forall|t: int| 0 <= t < res@.len() ==> visited@[res@[t] as int] == 1,
            forall|t: int, j2: int|
                0 <= t < res@.len() && 0 <= j2 < adj_list@[res@[t] as int]@.len() && acyclic(
                    adj_list@,
                ) ==> #[trigger] precedes_source(adj_list@, res@, t, j2),
    {
        if visited[i] == 0 {
            let ghost vb = visited@;
            let ghost rb = res@;
            dfs_visit(i as i32, adj_list, &mut visited, &mut res);
            proof {
                assert forall|t: int| 0 <= t < rb.len() implies res@[t] == rb[t] by {
                    assert(res@.subrange(0, rb.len() as int)[t] == res@[t]);
                }
                assert forall|x: int| 0 <= x <= i implies visited@[x] == 1 by {
                    if x < i {
                        assert(vb[x] == 1);
                    }
                }
                assert forall|t: int| 0 <= t < res@.len() implies 0 <= #[trigger] res@[t]
                    < n by {
                    if t < rb.len() {
                        assert(res@[t] == rb[t]);
                    } else {
                        assert(newly(vb, visited@, res@[t] as int));
                    }
                }
                assert forall|x: int|
                    0 <= x < n && #[trigger] visited@[x] == 1 implies appears(res@, x) by {
                    if vb[x] == 1 {
                        assert(appears(rb, x));
                        let t0 = choose|t0: int| 0 <= t0 < rb.len() && #[trigger] rb[t0] as int == x;
                        assert(res@[t0] as int == x);
                    } else {
                        assert(newly(vb, visited@, x));
                        let t0 = choose|t0: int|
                            rb.len() <= t0 < res@.len() && #[trigger] res@[t0] as int == x;
                        assert(res@[t0] as int == x);
                    }
                    assert(appears(res@, x));
                }
                assert forall|t1: int, t2: int|
                    0 <= t1 < t2 < res@.len() implies res@[t1] != res@[t2] by {
                    if t1 < rb.len() && t2 >= rb.len() {
                        assert(res@[t1] == rb[t1]);
                        assert(vb[rb[t1] as int] == 1);
                        assert(newly(vb, visited@, res@[t2] as int));
                    } else if t2 < rb.len() {
                        assert(res@[t1] == rb[t1] && res@[t2] == rb[t2]);
                    }
                }
                assert forall|t: int|
                    0 <= t < res@.len() implies visited@[res@[t] as int] == 1 by {
                    if t < rb.len() {
                        assert(res@[t] == rb[t]);
                        assert(vb[rb[t] as int] == 1);
                    } else {
                        assert(newly(vb, visited@, res@[t] as int));
                    }
                }
                // on an acyclic graph every edge of the grown result leads
                // backwards: earlier entries keep their witnesses; for the
                // new block, already-visited targets were already delivered,
                // and an ancestor on the walk's stack would close a cycle
                assert forall|t: int, j2: int|
                    0 <= t < res@.len() && 0 <= j2 < adj_list@[res@[t] as int]@.len() && acyclic(
                        adj_list@,
                    ) implies #[trigger] precedes_source(adj_list@, res@, t, j2) by {
                    let x = res@[t] as int;
                    let y = (adj_list@[x]@[j2]) as int;
                    if t < rb.len() {
                        assert(res@[t] == rb[t]);
                        assert(precedes_source(adj_list@, rb, t, j2));
                        let t2 = choose|t2: int| 0 <= t2 < t && (#[trigger] rb[t2]) as int == y;
                        assert(res@[t2] as int == y);
                    } else {
                        assert(edge_resolved(adj_list@, res@, vb, t, j2));
                        assert(0 <= x < n);
                        assert(0 <= y < n);
                        if exists|t2: int| 0 <= t2 < t && (#[trigger] res@[t2]) as int == y {
                        } else if vb[y] == 1 {
                            assert(appears(rb, y));
                            let t2 = choose|t2: int|
                                0 <= t2 < rb.len() && (#[trigger] rb[t2]) as int == y;
                            assert(res@[t2] as int == y && t2 < t);
                        } else {
                            let steps = choose|steps: nat|
                                1 <= steps && #[trigger] ureach(adj_list@, y, x, steps);
                            lemma_ureach_extend(adj_list@, y, x, steps, j2);
                            assert(ureach(adj_list@, y, y, steps + 1));
                            assert(false);
                        }
                        assert(precedes_source(adj_list@, res@, t, j2));
                    }
                }
            }
        }
    }
    proof {
        assert forall|x: int| 0 <= x < n implies #[trigger] appears(res@, x) by {
            assert(visited@[x] == 1);
        }
    }
    res
}

/// There is a walk of exactly `steps` edges from `u` to `v`.
pub open spec fn ureach(g: Seq<Vec<i32>>, u: int, v: int, steps: nat) -> bool
    decreases steps,
{
    if steps == 0 {
        u == v
    } else {
        exists|j: int|
            0 <= j < g[u]@.len() && ureach(g, (#[trigger] g[u]@[j]) as int, v, (steps - 1) as nat)
    }
}

/// Appending one edge to the end of a walk yields a walk.
proof fn lemma_ureach_extend(g: Seq<Vec<i32>>, u: int, m: int, steps: nat, j: int)
    requires
        valid_adj(g),
        0 <= u < g.len(),
        0 <= m < g.len(),
        ureach(g, u, m, steps),
        0 <= j < g[m]@.len(),
    ensures
        ureach(g, u, g[m]@[j] as int, steps + 1),
    decreases steps,
{
    if steps == 0 {
        assert(ureach(g, g[m]@[j] as int, g[m]@[j] as int, 0));
        assert(ureach(g, u, g[m]@[j] as int, steps + 1));
    } else {
        let j0 = choose|j0: int|
            0 <= j0 < g[u]@.len() && ureach(g, (#[trigger] g[u]@[j0]) as int, m, (steps - 1) as nat);
        lemma_ureach_extend(g, g[u]@[j0] as int, m, (steps - 1) as nat, j);
        assert(ureach(g, g[u]@[j0] as int, g[m]@[j] as int, steps));
        assert(ureach(g, u, g[m]@[j] as int, steps + 1));
    }
}

/// Every outgoing edge of `k` reaches a keyed vertex of the next layer at
/// the latest.
pub open spec fn wave_done(g: Seq<Vec<i32>>, lv: Map<i32, i32>, k: i32) -> bool {
    forall|j: int|
        0 <= j < g[k as int]@.len() ==> lv.contains_key(#[trigger] g[k as int]@[j])
            && lv[g[k as int]@[j]] <= lv[k] + 1
}

/// When every keyed vertex has its wave fully expanded, a walk of `steps`
/// edges from a keyed vertex `u` ends at a keyed vertex whose level
/// exceeds `u`'s by at most `steps`.
proof fn lemma_ureach_bound(g: Seq<Vec<i32>>, lv: Map<i32, i32>, u: int, v: int, steps: nat)
    requires
        valid_adj(g),
        g.len() <= i32::MAX,
        forall|k: i32| #[trigger] lv.contains_key(k) ==> wave_done(g, lv, k),
        0 <= u < g.len(),
        lv.contains_key(u as i32),
        ureach(g, u, v, steps),
    ensures
        0 <= v < g.len(),
        lv.contains_key(v as i32),
        lv[v as i32] <= lv[u as i32] + steps,
    decreases steps,
{
    if steps == 0 {
    } else {
        let j0 = choose|j0: int|
            0 <= j0 < g[u]@.len() && ureach(g, (#[trigger] g[u]@[j0]) as int, v, (steps - 1) as nat);
        assert(wave_done(g, lv, u as i32));
        assert(lv.contains_key(g[u]@[j0]));
        lemma_ureach_bound(g, lv, g[u]@[j0] as int, v, (steps - 1) as nat);
    }
}

/// The set of vertex indices of a graph with `n` vertices.
pub open spec fn vertex_set(n: int) -> Set<i32> {
    Set::new(|x: i32| 0 <= x < n)
}

/// That set is finite and holds exactly `n` indices.
proof fn lemma_vertex_set_len(n: int)
    requires
        0 <= n <= i32::MAX,
    ensures
        vertex_set(n).finite(),
        vertex_set(n).len() == n,
    decreases n,
{
    if n == 0 {
        assert(vertex_set(0) =~= Set::<i32>::empty());
    } else {
        lemma_vertex_set_len(n - 1);
        assert(!vertex_set(n - 1).contains((n - 1) as i32));
        assert(vertex_set(n) =~= vertex_set(n - 1).insert((n - 1) as i32));
    }
}

/// The result contract of the breadth-first layering: keyed entries are
/// exactly the vertices reachable from `s`, each level is exactly the
/// least number of edges of any walk from `s` to its vertex, and each
/// parent is a keyed predecessor one level up whose edge list names the
/// vertex. Unreached vertices are absent from both mappings.
pub open spec fn bfs_post(g: Seq<Vec<i32>>, s: i32, lv: Map<i32, i32>, par: Map<i32, i32>) -> bool {
    &&& lv.dom() == par.dom()
    &&& lv.contains_key(s)
    &&& lv[s] == 0
    &&& par[s] == -1
    &&& (forall|k: i32| #[trigger] lv.contains_key(k) ==> 0 <= k < g.len())
    // every keyed vertex but the start has a parent edge one level up
    &&& (forall|k: i32|
        #[trigger] lv.contains_key(k) && k != s ==> 1 <= lv[k] && 0 <= par[k] < g.len()
            && lv.contains_key(par[k]) && lv[par[k]] + 1 == lv[k] && exists|j: int|
            0 <= j < g[par[k] as int]@.len() && #[trigger] g[par[k] as int]@[j] == k)
    // no keyed vertex has an unexpanded edge
    &&& (forall|k: i32| #[trigger] lv.contains_key(k) ==> wave_done(g, lv, k))
    // each level is witnessed by a walk of exactly that many edges
    &&& (forall|k: i32|
        #[trigger] lv.contains_key(k) ==> ureach(g, s as int, k as int, lv[k] as nat))
    // and no walk from the start beats its end vertex's level
    &&& (forall|v: int, steps: nat|
        0 <= v < g.len() && #[trigger] ureach(g, s as int, v, steps) ==> lv.contains_key(v as i32)
            && lv[v as i32] <= steps)
}

/// Vertex `k` stands in the wave `c` at position `from` or later.
pub open spec fn in_wave(c: Seq<i32>, from: int, k: i32) -> bool {
    exists|t: int| from <= t < c.len() && #[trigger] c[t] == k
}

/// Breadth-first layering from `s`: returns a level mapping and a parent
/// mapping, keyed exactly by the vertices reachable from `s`. The start
/// has level `0` and parent `-1`; every other reached vertex is keyed to
/// its least edge count from `s`, and to the predecessor in the previous
/// layer that first reached it. Unreached vertices are absent.
#[verifier::rlimit(100)]
pub fn bfs_list(adj_list: &[Vec<i32>], s: i32) -> (r: (HashMap<i32, i32>, HashMap<i32, i32>))
    requires
        valid_adj(adj_list@),
        0 <= s < adj_list@.len(),
        adj_list@.len() < i32::MAX,
    ensures
        bfs_post(adj_list@, s, r.0@, r.1@),
{
    let ghost g = adj_list@;
    let n: usize = adj_list.len();
    let mut parent: HashMap<i32, i32> = HashMap::new();
    parent.insert(s, -1);
    let mut level: HashMap<i32, i32> = HashMap::new();
    level.insert(s, 0);
    let mut i: i32 = 1;
    let mut current: Vec<i32> = Vec::new();
    current.push(s);
    proof {
        assert(level@.dom() =~= parent@.dom());
        assert(level@.dom() =~= Set::<i32>::empty().insert(s));
        assert(level@.dom().len() == 1);
        assert(ureach(g, s as int, s as int, 0));
        assert(current@[0] == s);
        assert(in_wave(current@, 0, s));
    }
    while current.len() > 0
        invariant
            valid_adj(g),
            g == adj_list@,
            n == g.len(),
            n < i32::MAX,
            0 <= s < n,
            level@.dom() == parent@.dom(),
            level@.contains_key(s),
            level@[s] == 0,
            parent@[s] == -1,
            forall|k: i32| #[trigger] level@.contains_key(k) ==> 0 <= k < n,
            forall|k: i32| #[trigger] level@.contains_key(k) ==> 0 <= level@[k] <= i - 1,
            forall|k: i32|
                #[trigger] level@.contains_key(k) && k != s ==> 1 <= level@[k] && 0 <= parent@[k]
                    < n && level@.contains_key(parent@[k]) && level@[parent@[k]] + 1 == level@[k]
                    && exists|j: int|
                    0 <= j < g[parent@[k] as int]@.len() && #[trigger] g[parent@[k] as int]@[j]
                        == k,
            forall|t: int|
                0 <= t < current@.len() ==> level@.contains_key(#[trigger] current@[t])
                    && level@[current@[t]] == i - 1,
            forall|k: i32|
                #[trigger] level@.contains_key(k) && !in_wave(current@, 0, k) ==> wave_done(
                    g,
                    level@,
                    k,
                ),
            forall|k: i32|
                #[trigger] level@.contains_key(k) ==> ureach(g, s as int, k as int, level@[k] as nat),
            1 <= i,
            i as int <= level@.dom().len() + 1,
            current@.len() > 0 ==> i as int <= level@.dom().len(),
            level@.dom().len() <= n,
        decreases n - level@.dom().len(), current@.len(),
    {
        let ghost lv0 = level@;
        let mut next: Vec<i32> = Vec::new();
        let clen: usize = current.len();
        for t in 0..clen
            invariant
                valid_adj(g),
                g == adj_list@,
                n == g.len(),
                n < i32::MAX,
                0 <= s < n,
                1 <= i,
                i as int <= lv0.dom().len() + 1,
                clen == current@.len(),
                clen > 0,
                i as int <= lv0.dom().len(),
                level@.dom() == parent@.dom(),
                level@.contains_key(s),
                level@[s] == 0,
                parent@[s] == -1,
                forall|k: i32| #[trigger] level@.contains_key(k) ==> 0 <= k < n,
                forall|k: i32| #[trigger] level@.contains_key(k) ==> 0 <= level@[k] <= i,
                forall|k: i32|
                    #[trigger] lv0.contains_key(k) ==> level@.contains_key(k) && level@[k] == lv0[k],
                forall|k: i32|
                    #[trigger] level@.contains_key(k) && !lv0.contains_key(k) ==> level@[k] == i
                        && in_wave(next@, 0, k),
                forall|e: int|
                    0 <= e < next@.len() ==> level@.contains_key(#[trigger] next@[e])
                        && level@[next@[e]] == i,
                forall|k: i32|
                    #[trigger] level@.contains_key(k) && k != s ==> 1 <= level@[k] && 0
                        <= parent@[k] < n && level@.contains_key(parent@[k]) && level@[parent@[k]]
                        + 1 == level@[k] && exists|j: int|
                        0 <= j < g[parent@[k] as int]@.len() && #[trigger] g[parent@[k] as int]@[j]
                            == k,
                forall|t2: int|
                    0 <= t2 < current@.len() ==> level@.contains_key(#[trigger] current@[t2])
                        && level@[current@[t2]] == i - 1,
                forall|k: i32|
                    #[trigger] level@.contains_key(k) && !in_wave(current@, t as int, k)
                        && !in_wave(next@, 0, k) ==> wave_done(g, level@, k),
                forall|k: i32|
                    #[trigger] level@.contains_key(k) ==> ureach(
                        g,
                        s as int,
                        k as int,
                        level@[k] as nat,
                    ),
                level@.dom().len() == lv0.dom().len() + next@.len(),
                level@.dom().len() <= n,
        {
            let u: i32 = current[t];
            let deg: usize = adj_list[u as usize].len();
            for j in 0..deg
                invariant
                    valid_adj(g),
                    g == adj_list@,
                    n == g.len(),
                    n < i32::MAX,
                    0 <= s < n,
                    1 <= i,
                    clen == current@.len(),
                    (t as int) < current@.len(),
                    u == current@[t as int],
                    0 <= u < n,
                    deg == g[u as int]@.len(),
                    level@.contains_key(u),
                    level@[u] == i - 1,
                    level@.dom() == parent@.dom(),
                    level@.contains_key(s),
                    level@[s] == 0,
                    parent@[s] == -1,
                    forall|k: i32| #[trigger] level@.contains_key(k) ==> 0 <= k < n,
                    forall|k: i32| #[trigger] level@.contains_key(k) ==> 0 <= level@[k] <= i,
                    forall|k: i32|
                        #[trigger] lv0.contains_key(k) ==> level@.contains_key(k) && level@[k]
                            == lv0[k],
                    forall|k: i32|
                        #[trigger] level@.contains_key(k) && !lv0.contains_key(k) ==> level@[k]
                            == i && in_wave(next@, 0, k),
                    forall|e: int|
                        0 <= e < next@.len() ==> level@.contains_key(#[trigger] next@[e])
                            && level@[next@[e]] == i,
                    forall|k: i32|
                        #[trigger] level@.contains_key(k) && k != s ==> 1 <= level@[k] && 0
                            <= parent@[k] < n && level@.contains_key(parent@[k])
                            && level@[parent@[k]] + 1 == level@[k] && exists|j2: int|
                            0 <= j2 < g[parent@[k] as int]@.len() && #[trigger] g[parent@[k]
                                as int]@[j2] == k,
                    forall|t2: int|
                        0 <= t2 < current@.len() ==> level@.contains_key(#[trigger] current@[t2])
                            && level@[current@[t2]] == i - 1,
                    forall|k: i32|
                        #[trigger] level@.contains_key(k) && !in_wave(current@, t as int, k)
                            && !in_wave(next@, 0, k) ==> wave_done(g, level@, k),
                    forall|k: i32|
                        #[trigger] level@.contains_key(k) ==> ureach(
                            g,
                            s as int,
                            k as int,
                            level@[k] as nat,
                        ),
                    forall|j2: int|
                        0 <= j2 < j ==> level@.contains_key(#[trigger] g[u as int]@[j2])
                            && level@[g[u as int]@[j2]] <= i,
                    level@.dom().len() == lv0.dom().len() + next@.len(),
                    level@.dom().len() <= n,
            {
                let v: i32 = adj_list[u as usize][j];
                if !level.contains_key(&v) {
                    let ghost lvp = level@;
                    let ghost parp = parent@;
                    let ghost nxp = next@;
                    proof {
                        assert(lvp.dom().finite());
                    }
                    level.insert(v, i);
                    parent.insert(v, u);
                    next.push(v);
                    proof {
                        assert(level@.dom() =~= parent@.dom());
                        // the new entry's parent edge, and every older
                        // entry's parent edge, stand as before
                        assert(level@[v] == i && parent@[v] == u && level@[u] == i - 1);
                        assert(g[u as int]@[j as int] == v);
                        assert forall|k: i32|
                            #[trigger] level@.contains_key(k) && k != s implies 1 <= level@[k] && 0
                            <= parent@[k] < n && level@.contains_key(parent@[k])
                            && level@[parent@[k]] + 1 == level@[k] && exists|j2: int|
                            0 <= j2 < g[parent@[k] as int]@.len() && #[trigger] g[parent@[k]
                                as int]@[j2] == k by {
                            if k == v {
                                assert(g[parent@[k] as int]@[j as int] == k);
                            } else {
                                assert(lvp.contains_key(k) && level@[k] == lvp[k]);
                                assert(parent@[k] == parp[k]);
                                assert(lvp.contains_key(parp[k]));
                                assert(level@[parent@[k]] == lvp[parp[k]]);
                            }
                        }
                        assert(level@.dom() =~= lvp.dom().insert(v));
                        assert(level@.dom().len() == lvp.dom().len() + 1);
                        lemma_vertex_set_len(n as int);
                        assert(level@.dom().subset_of(vertex_set(n as int)));
                        vstd::set_lib::lemma_len_subset(level@.dom(), vertex_set(n as int));
                        lemma_ureach_extend(g, s as int, u as int, (i - 1) as nat, j as int);
                        assert(ureach(g, s as int, v as int, i as nat));
                        assert(next@[next@.len() - 1] == v);
                        // wave membership of earlier entries survives the push
                        assert forall|k: i32| #[trigger] in_wave(nxp, 0, k) implies in_wave(
                            next@,
                            0,
                            k,
                        ) by {
                            let t0 = choose|t0: int| 0 <= t0 < nxp.len() && #[trigger] nxp[t0] == k;
                            assert(next@[t0] == k);
                        }
                        assert(in_wave(next@, 0, v));
                    }
                } else {
                    proof {
                        assert(level@[v] <= i);
                    }
                }
            }
            proof {
                assert(wave_done(g, level@, u));
                assert forall|k: i32|
                    #[trigger] level@.contains_key(k) && !in_wave(current@, t + 1, k)
                        && !in_wave(next@, 0, k) implies wave_done(g, level@, k) by {
                    if k != u {
                        assert(!in_wave(current@, t as int, k)) by {
                            if in_wave(current@, t as int, k) {
                                let t0 = choose|t0: int|
                                    t <= t0 < current@.len() && #[trigger] current@[t0] == k;
                                assert(t0 == t as int);
                            }
                        }
                    }
                }
            }
        }
        current = next;
        i = i + 1;
    }
    proof {
        assert forall|v: int, steps: nat|
            0 <= v < n && #[trigger] ureach(g, s as int, v, steps) implies level@.contains_key(
            v as i32,
        ) && level@[v as i32] <= steps by {
            lemma_ureach_bound(g, level@, s as int, v, steps);
        }
        assert(bfs_post(g, s, level@, parent@));
    }
    (level, parent)
}

} // verus!
