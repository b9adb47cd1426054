use two_sat::traversal::{dfs, reverse_dfs};

#[test]
fn dfs_appends_nodes_as_they_finish() {
    let adj = vec![vec![1, 2], vec![2], vec![0], vec![]];
    let mut visited = vec![false; 4];
    let mut order = Vec::new();
    dfs(0, &adj, &mut visited, &mut order);
    assert_eq!(order, vec![2, 1, 0]);
    assert_eq!(visited, vec![true, true, true, false]);
    dfs(3, &adj, &mut visited, &mut order);
    assert_eq!(order, vec![2, 1, 0, 3]);
    assert_eq!(visited, vec![true, true, true, true]);
}

#[test]
fn dfs_takes_successors_in_list_order() {
    let adj = vec![vec![2, 1], vec![], vec![1]];
    let mut visited = vec![false; 3];
    let mut order = vec![7];
    dfs(0, &adj, &mut visited, &mut order);
    assert_eq!(order, vec![7, 1, 2, 0]);
}

#[test]
fn dfs_passes_marked_nodes() {
    let adj = vec![vec![1, 0], vec![2], vec![]];
    let mut visited = vec![false, false, true];
    let mut order = Vec::new();
    dfs(0, &adj, &mut visited, &mut order);
    assert_eq!(order, vec![1, 0]);
    assert_eq!(visited, vec![true, true, true]);
}

#[test]
fn reverse_dfs_labels_what_it_enters() {
    let reverse_adj = vec![vec![2], vec![0], vec![1], vec![0]];
    let mut visited = vec![false, false, false, false];
    let mut component = vec![0; 4];
    reverse_dfs(0, &reverse_adj, &mut visited, &mut component, 5);
    assert_eq!(visited, vec![true, true, true, false]);
    assert_eq!(component, vec![5, 5, 5, 0]);
    reverse_dfs(3, &reverse_adj, &mut visited, &mut component, 6);
    assert_eq!(visited, vec![true, true, true, true]);
    assert_eq!(component, vec![5, 5, 5, 6]);
}
