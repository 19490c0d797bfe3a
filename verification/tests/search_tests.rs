use perspective_diff_sync::search::Search;

#[test]
fn ancestor_search_test() {
    let mut search = Search::new();
    let index = search.add_node(None, 0);
    let child_index = search.add_node(Some(vec![index]), 1);
    let fork_index = search.add_node(Some(vec![child_index]), 2);
    let fork_second_index = search.add_node(Some(vec![child_index]), 3);
    let fork_child = search.add_node(Some(vec![fork_index]), 4);
    let merge_entry = search.add_node(Some(vec![fork_child, fork_second_index]), 5);
    println!("{}", search.print());
    let is_ancestor = search.get_paths(merge_entry, child_index);
    assert_eq!(is_ancestor.len() > 0, true);

    let is_ancestor = search.get_paths(child_index, merge_entry);
    assert_eq!(is_ancestor.len() > 0, false);

    //Fork branch one; depth two
    let open_fork = search.add_node(Some(vec![merge_entry]), 6);
    let _open_fork_2 = search.add_node(Some(vec![open_fork]), 7);

    //Fork branch two; depth one
    let open_fork_3 = search.add_node(Some(vec![merge_entry]), 8);
    println!("{}", search.print());

    let common = search.find_common_ancestor(open_fork, open_fork_3);
    assert_eq!(common, Some(5));
}

#[test]
fn add_node_returns_consecutive_indices() {
    let mut search = Search::new();
    assert_eq!(search.add_node(None, 40), 0);
    assert_eq!(search.add_node(Some(vec![0]), 41), 1);
    assert_eq!(search.add_node(Some(vec![0, 1]), 42), 2);
    assert_eq!(search.get_node_index(&41), Some(&1));
    assert_eq!(search.get_node_index(&42), Some(&2));
    assert_eq!(search.get_node_index(&43), None);
}

#[test]
fn get_paths_lists_every_path_from_child_to_ancestor() {
    let mut search = Search::new();
    let a = search.add_node(None, 1);
    let b = search.add_node(Some(vec![a]), 2);
    let c = search.add_node(Some(vec![a]), 3);
    let d = search.add_node(Some(vec![b, c]), 4);
    let mut paths = search.get_paths(d, a);
    paths.sort();
    assert_eq!(paths, vec![vec![3, 1, 0], vec![3, 2, 0]]);
    assert_eq!(search.get_paths(a, d), Vec::<Vec<usize>>::new());
    assert_eq!(search.get_paths(b, c), Vec::<Vec<usize>>::new());
}

#[test]
fn find_common_ancestor_of_related_and_unconnected_nodes() {
    let mut search = Search::new();
    let a = search.add_node(None, 1);
    let b = search.add_node(Some(vec![a]), 2);
    let lone = search.add_node(None, 3);
    assert_eq!(search.find_common_ancestor(b, b), Some(b));
    assert_eq!(search.find_common_ancestor(b, lone), None);
    assert_eq!(search.find_common_ancestor(b, a), Some(a));
    assert_eq!(search.find_common_ancestor(a, b), Some(a));
}

#[test]
fn find_common_ancestor_in_a_diamond() {
    let mut search = Search::new();
    let n0 = search.add_node(None, 0);
    let n1 = search.add_node(Some(vec![n0]), 1);
    let n2 = search.add_node(Some(vec![n0]), 2);
    let n3 = search.add_node(Some(vec![n1, n2]), 3);
    assert_eq!(search.find_common_ancestor(n1, n2), Some(n0));
    assert_eq!(search.find_common_ancestor(n3, n2), Some(n2));
}

#[test]
fn print_shows_both_graphs() {
    let mut search = Search::new();
    let a = search.add_node(None, 10);
    let _b = search.add_node(Some(vec![a]), 11);
    let text = search.print();
    assert!(text.starts_with("Directed: digraph {"));
    assert!(text.contains("1 -> 0"));
    assert!(text.contains("\n\nUndirected: graph {"));
    assert!(text.contains("1 -- 0"));
    assert!(text.ends_with("}\n\n\n"));
}
