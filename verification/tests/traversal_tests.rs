use graph_algos::{bfs_list, dfs_list, dfs_visit};
use std::collections::HashMap;

#[test]
fn test_dfs_visit() {
    let adj_list = vec![vec![0, 2], vec![1], vec![2]];
    let mut visited = vec![0; adj_list.len()];
    let mut res = Vec::new();
    dfs_visit(0, &adj_list, &mut visited, &mut res);
    assert_eq!(res, vec![2, 0]);
}

#[test]
fn test_dfs_list() {
    let adj_list = vec![vec![0, 2], vec![1], vec![2]];
    assert_eq!(dfs_list(&adj_list), vec![2, 0, 1])
}

#[test]
fn test_bfs_list() {
    let adj_list = vec![vec![5, 3], vec![3], vec![2, 0], vec![0, 1], vec![], vec![2]];
    let s = 0;
    let want_level = HashMap::from([(0, 0), (5, 1), (3, 1), (2, 2), (1, 2)]);
    let want_parent = HashMap::from([(0, -1), (5, 0), (3, 0), (2, 5), (1, 3)]);
    assert_eq!(bfs_list(&adj_list, s), (want_level, want_parent))
}

#[test]
fn dfs_list_each_vertex_once() {
    // a cycle plus an isolated vertex: every vertex appears exactly once
    let adj_list = vec![vec![1], vec![2], vec![0], vec![]];
    let mut res = dfs_list(&adj_list);
    assert_eq!(res.len(), adj_list.len());
    res.sort();
    assert_eq!(res, vec![0, 1, 2, 3]);
}

#[test]
fn dfs_visit_repeat_is_noop() {
    let adj_list = vec![vec![0, 2], vec![1], vec![2]];
    let mut visited = vec![0; adj_list.len()];
    let mut res = Vec::new();
    dfs_visit(0, &adj_list, &mut visited, &mut res);
    let visited_before = visited.clone();
    let res_before = res.clone();
    dfs_visit(0, &adj_list, &mut visited, &mut res);
    assert_eq!(visited, visited_before);
    assert_eq!(res, res_before);
}

#[test]
fn dfs_list_postorders_a_dag() {
    // a diamond: on an acyclic graph every edge target precedes its source
    let adj_list = vec![vec![1, 2], vec![3], vec![3], vec![]];
    let res = dfs_list(&adj_list);
    assert_eq!(res, vec![3, 1, 2, 0]);
    for (u, outs) in adj_list.iter().enumerate() {
        for v in outs {
            let pu = res.iter().position(|&a| a == u as i32).unwrap();
            let pv = res.iter().position(|&a| a == *v).unwrap();
            assert!(pv < pu);
        }
    }
}

#[test]
fn dfs_list_empty_graph() {
    let adj_list: Vec<Vec<i32>> = vec![];
    assert_eq!(dfs_list(&adj_list), Vec::<i32>::new());
}

#[test]
fn bfs_unreachable_vertices_absent() {
    let adj_list = vec![vec![1], vec![], vec![0]];
    let (level, parent) = bfs_list(&adj_list, 0);
    assert_eq!(level, HashMap::from([(0, 0), (1, 1)]));
    assert_eq!(parent, HashMap::from([(0, -1), (1, 0)]));
    assert!(!level.contains_key(&2));
    assert!(!parent.contains_key(&2));
}

#[test]
fn bfs_single_vertex() {
    let adj_list: Vec<Vec<i32>> = vec![vec![]];
    let (level, parent) = bfs_list(&adj_list, 0);
    assert_eq!(level, HashMap::from([(0, 0)]));
    assert_eq!(parent, HashMap::from([(0, -1)]));
}
