use graph_algos::dijkstra::sssp;

#[test]
fn basics() {
    // empty adjacency list, start is not there, start has no edges
    assert!(sssp(&vec![], 0).is_none());
    assert!(sssp(&vec![vec![(0, 0)]], 1).is_none());
    assert!(sssp(&vec![vec![(1, 1)], vec![]], 1).is_none());
    // Simple valid case
    assert_eq!(sssp(&vec![vec![(0, 0)]], 0), Some((vec![0], vec![-1])));
    // Harder, with cycles
    let adj = vec![
        vec![(1, 3), (2, 1)],
        vec![(3, 10), (4, 2)],
        vec![(1, 1)],
        vec![(4, 2), (0, 3)],
        vec![(3, 2)],
        vec![(6, 1)],
        vec![(5, 1)],
    ];
    let want = (
        vec![0, 2, 1, 6, 4, i32::MAX, i32::MAX],
        vec![-1, 2, 0, 4, 1, -1, -1],
    );
    assert_eq!(sssp(&adj, 0), Some(want))
}

#[test]
fn start_vertex_entries() {
    // the start vertex always ends with distance 0 and no predecessor
    let adj = vec![vec![(1, 5)], vec![(0, 5)], vec![(0, 1)]];
    let (dist, par) = sssp(&adj, 1).unwrap();
    assert_eq!(dist[1], 0);
    assert_eq!(par[1], -1);
    // vertex 2 has an edge into the component but none reaches it
    assert_eq!(dist[2], i32::MAX);
    assert_eq!(par[2], -1);
}

#[test]
fn parent_edges_account_for_distances() {
    let adj = vec![
        vec![(1, 3), (2, 1)],
        vec![(3, 10), (4, 2)],
        vec![(1, 1)],
        vec![(4, 2), (0, 3)],
        vec![(3, 2)],
        vec![(6, 1)],
        vec![(5, 1)],
    ];
    let (dist, par) = sssp(&adj, 0).unwrap();
    for v in 0..adj.len() {
        if v != 0 && dist[v] != i32::MAX {
            let p = par[v] as usize;
            let w = adj[p]
                .iter()
                .filter(|e| e.0 as usize == v)
                .map(|e| e.1)
                .min()
                .unwrap();
            assert_eq!(dist[p] + w, dist[v]);
        }
    }
}

#[test]
fn parent_chains_reach_start() {
    // zero-weight edges both ways: parent entries must still chain back
    // to the start rather than pointing at each other
    let adj = vec![vec![(1, 0), (2, 0)], vec![(2, 0), (1, 0)], vec![(1, 0)]];
    let (dist, par) = sssp(&adj, 0).unwrap();
    for v in 0..adj.len() {
        if dist[v] != i32::MAX {
            let mut cur = v as i32;
            let mut steps = 0;
            while cur != 0 {
                cur = par[cur as usize];
                steps += 1;
                assert!(steps <= adj.len());
            }
        }
    }
}

#[test]
fn zero_weight_edges() {
    let adj = vec![vec![(1, 0)], vec![(2, 0)], vec![]];
    let (dist, par) = sssp(&adj, 0).unwrap();
    assert_eq!(dist, vec![0, 0, 0]);
    assert_eq!(par, vec![-1, 0, 1]);
}

#[test]
fn repeated_runs_are_identical() {
    let adj = vec![
        vec![(1, 3), (2, 1)],
        vec![(3, 10), (4, 2)],
        vec![(1, 1)],
        vec![(4, 2), (0, 3)],
        vec![(3, 2)],
        vec![(6, 1)],
        vec![(5, 1)],
    ];
    let first = sssp(&adj, 0);
    let second = sssp(&adj, 0);
    assert_eq!(first, second);
}

#[test]
fn degenerate_inputs_give_no_result() {
    // empty graph
    assert!(sssp(&vec![], 0).is_none());
    // start index beyond the vertex count
    assert!(sssp(&vec![vec![(0, 1)], vec![(0, 1)]], 2).is_none());
    // start vertex with zero outgoing edges
    assert!(sssp(&vec![vec![], vec![(0, 1)]], 0).is_none());
}
