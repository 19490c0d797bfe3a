use perspective_diff_sync::paths::{
    fast_forward_nodes, first_path_containing, fork_nodes, nodes_without, on_any_path, path_contains,
    reverse_nodes,
};

#[test]
fn fast_forward_nodes_single_path() {
    assert_eq!(fast_forward_nodes(&vec![vec![7, 6, 5]], 5, 8), vec![6, 7]);
}

#[test]
fn fast_forward_nodes_several_paths() {
    // nodes 5, 4, 3 lie on the paths besides the local node 2; each once, in order
    assert_eq!(fast_forward_nodes(&vec![vec![5, 4, 2], vec![5, 3, 2]], 2, 6), vec![3, 4, 5]);
}

#[test]
fn fast_forward_nodes_diamond() {
    // a diamond: 3 merges 1 and 2, both children of 0
    assert_eq!(fast_forward_nodes(&vec![vec![3, 1, 0], vec![3, 2, 0]], 0, 4), vec![1, 2, 3]);
}

#[test]
fn sequence_helpers() {
    assert_eq!(reverse_nodes(&vec![1, 2, 3]), vec![3, 2, 1]);
    assert_eq!(nodes_without(&vec![4, 1, 4, 2], 4), vec![1, 2]);
    assert!(path_contains(&vec![4, 1, 2], 1));
    assert!(!path_contains(&vec![4, 1, 2], 3));
    assert!(on_any_path(&vec![vec![1, 2], vec![3]], 3));
    assert!(!on_any_path(&vec![vec![1, 2], vec![3]], 4));
}

#[test]
fn first_path_containing_takes_the_first() {
    assert_eq!(first_path_containing(vec![vec![1, 2], vec![3, 4], vec![4, 5]], 4), Some(vec![3, 4]));
    assert_eq!(first_path_containing(vec![vec![1, 2]], 4), None);
}

#[test]
fn fork_nodes_reverse_the_first_path() {
    assert_eq!(fork_nodes(vec![vec![3, 2]], 3, 2), vec![3]);
    assert_eq!(fork_nodes(vec![vec![9, 8], vec![3, 4, 2]], 3, 2), vec![4, 3]);
    assert_eq!(fork_nodes(vec![], 3, 2), Vec::<usize>::new());
}
