use perspective_diff_sync::methods::{
    collect_diffs, commit, current_revision, latest_revision, loadable, pull, render, try_pull,
    SyncState,
};
use perspective_diff_sync::search::Search;
use perspective_diff_sync::utils::populate_search;
use perspective_diff_sync::{ExpressionProof, Link, LinkExpression, PerspectiveDiff};

fn expression(author: &str) -> LinkExpression {
    LinkExpression {
        author: author.to_string(),
        timestamp: "now".to_string(),
        data: Link::default(),
        expression_proof: ExpressionProof::default(),
    }
}

fn addition(author: &str) -> PerspectiveDiff {
    PerspectiveDiff { additions: vec![expression(author)], removals: vec![] }
}

fn chain_keys(state: &SyncState) -> Vec<usize> {
    state.revisions()
}

#[test]
fn main_test() {
    let mut state = SyncState::new();
    commit(&mut state, PerspectiveDiff {
        additions: vec![LinkExpression {
            author: "did".to_string(),
            timestamp: "now".to_string(),
            data: Link::default(),
            expression_proof: ExpressionProof::default()
        }],
        removals: vec![],
    }, None);
    commit(&mut state, PerspectiveDiff {
        additions: vec![LinkExpression {
            author: "did2".to_string(),
            timestamp: "now".to_string(),
            data: Link::default(),
            expression_proof: ExpressionProof::default()
        }],
        removals: vec![],
    }, None);
    let diff3 = commit(&mut state, PerspectiveDiff {
        additions: vec![LinkExpression {
            author: "did3".to_string(),
            timestamp: "now".to_string(),
            data: Link::default(),
            expression_proof: ExpressionProof::default()
        }],
        removals: vec![],
    }, None);
    //Create forking entries
    let diff4 = commit(&mut state, PerspectiveDiff {
        additions: vec![LinkExpression {
            author: "did4".to_string(),
            timestamp: "now".to_string(),
            data: Link::default(),
            expression_proof: ExpressionProof::default()
        }],
        removals: vec![],
    }, None);
    commit(&mut state, PerspectiveDiff {
        additions: vec![LinkExpression {
            author: "did5".to_string(),
            timestamp: "now".to_string(),
            data: Link::default(),
            expression_proof: ExpressionProof::default()
        }],
        removals: vec![],
    }, Some(vec![diff3]));

    //Simulate local state as one tip of fork
    state.current_revision = diff4;
    println!("{}", render(&state));

    //Create a merge
    let merge_result = pull(&mut state);
    println!("Merge result: {:#?}", merge_result);
    println!("{}", render(&state));

    //Create a new entry and simulate being out of sync and pulling
    commit(&mut state, PerspectiveDiff {
        additions: vec![LinkExpression {
            author: "did6".to_string(),
            timestamp: "now".to_string(),
            data: Link::default(),
            expression_proof: ExpressionProof::default()
        }],
        removals: vec![],
    }, None);
    commit(&mut state, PerspectiveDiff {
        additions: vec![LinkExpression {
            author: "did7".to_string(),
            timestamp: "now".to_string(),
            data: Link::default(),
            expression_proof: ExpressionProof::default()
        }],
        removals: vec![],
    }, None);

    state.current_revision = 6;
    //Fetch the latest changes
    let fetch_result = pull(&mut state);
    assert_eq!(fetch_result, PerspectiveDiff {
        additions: vec![LinkExpression {
            author: "did6".to_string(),
            timestamp: "now".to_string(),
            data: Link::default(),
            expression_proof: ExpressionProof::default()
        },
        LinkExpression {
            author: "did7".to_string(),
            timestamp: "now".to_string(),
            data: Link::default(),
            expression_proof: ExpressionProof::default()
        }],
        removals: vec![],
    });
    println!("Passed first fetch");

    //Check another fetch does not return results
    let fetch_synced = pull(&mut state);
    assert_eq!(fetch_synced, PerspectiveDiff {
        additions: vec![],
        removals: vec![]
    })
}

#[test]
fn commit_numbers_revisions_and_links_them() {
    let mut state = SyncState::new();
    assert_eq!(latest_revision(&state), 0);
    assert_eq!(commit(&mut state, addition("a"), None), 1);
    assert_eq!(commit(&mut state, addition("b"), None), 2);
    assert_eq!(commit(&mut state, addition("c"), Some(vec![1])), 3);
    assert_eq!(latest_revision(&state), 3);
    assert_eq!(current_revision(&state), 3);
    assert_eq!(state.inc, 3);
    assert_eq!(chain_keys(&state), vec![1, 2, 3]);
    let first = state.entry_at(0).unwrap();
    assert_eq!(first.parents, vec![0]);
    let second = state.entry_at(1).unwrap();
    assert_eq!(second.parents, vec![1]);
    assert_eq!(second.diff, addition("b"));
    let third = state.entry_at(2).unwrap();
    assert!(state.entry_at(3).is_none());
    assert_eq!(third.parents, vec![1]);
}

#[test]
fn pull_in_sync_returns_nothing() {
    let mut state = SyncState::new();
    assert_eq!(pull(&mut state), PerspectiveDiff { additions: vec![], removals: vec![] });
    commit(&mut state, addition("a"), None);
    assert_eq!(pull(&mut state), PerspectiveDiff { additions: vec![], removals: vec![] });
    assert_eq!(chain_keys(&state), vec![1]);
    assert_eq!(current_revision(&state), 1);
}

#[test]
fn fast_forward_returns_later_diffs_and_syncs() {
    let mut state = SyncState::new();
    commit(&mut state, addition("a"), None);
    commit(&mut state, addition("b"), None);
    commit(&mut state, addition("c"), None);
    commit(&mut state, addition("d"), None);
    state.current_revision = 2;
    let pulled = pull(&mut state);
    assert_eq!(pulled, PerspectiveDiff { additions: vec![expression("c"), expression("d")], removals: vec![] });
    assert_eq!(current_revision(&state), 4);
    assert_eq!(latest_revision(&state), current_revision(&state));
    assert_eq!(chain_keys(&state), vec![1, 2, 3, 4]);
}

#[test]
fn fork_pull_merges_local_branch() {
    let mut state = SyncState::new();
    commit(&mut state, addition("a"), None);
    commit(&mut state, addition("b"), None);
    commit(&mut state, addition("c"), Some(vec![1]));
    state.current_revision = 2;
    let merged = pull(&mut state);
    assert_eq!(merged, PerspectiveDiff { additions: vec![expression("b")], removals: vec![] });
    assert_eq!(current_revision(&state), 4);
    assert_eq!(latest_revision(&state), 4);
    assert_eq!(state.inc, 4);
    assert_eq!(chain_keys(&state), vec![1, 2, 3, 4]);
    let merge = state.entry_at(3).unwrap();
    assert_eq!(merge.parents, vec![3, 2]);
    assert_eq!(merge.diff, merged);
}

#[test]
fn try_pull_without_fork_point_leaves_state() {
    let mut state = SyncState::new();
    commit(&mut state, addition("a"), None);
    commit(&mut state, addition("b"), Some(vec![0]));
    state.current_revision = 1;
    assert_eq!(try_pull(&mut state), None);
    assert_eq!(chain_keys(&state), vec![1, 2]);
    assert_eq!(current_revision(&state), 1);
    state.current_revision = 2;
    assert_eq!(try_pull(&mut state), Some(PerspectiveDiff { additions: vec![], removals: vec![] }));
}

#[test]
fn try_pull_matches_pull_when_ready() {
    let mut state = SyncState::new();
    commit(&mut state, addition("a"), None);
    commit(&mut state, addition("b"), None);
    state.current_revision = 1;
    assert_eq!(try_pull(&mut state), Some(PerspectiveDiff { additions: vec![expression("b")], removals: vec![] }));
    assert_eq!(current_revision(&state), 2);
}

#[test]
fn render_shows_the_chain_graph() {
    let mut state = SyncState::new();
    commit(&mut state, addition("a"), None);
    commit(&mut state, addition("b"), None);
    let text = render(&state);
    assert!(text.starts_with("Directed: digraph {"));
    assert!(text.contains("1 -> 0"));
    assert!(!text.contains("0 -> 1"));
}

#[test]
fn populate_search_links_children_to_parents() {
    let mut state = SyncState::new();
    commit(&mut state, addition("a"), None);
    commit(&mut state, addition("b"), None);
    commit(&mut state, addition("c"), Some(vec![1, 2]));
    let search = populate_search(&state.chain);
    assert_eq!(search.get_node_index(&3), Some(&2));
    let mut paths = search.get_paths(2, 0);
    paths.sort();
    assert_eq!(paths, vec![vec![2, 0], vec![2, 1, 0]]);
}

#[test]
fn collect_diffs_reads_without_changing_the_chain() {
    let mut state = SyncState::new();
    commit(&mut state, addition("a"), None);
    commit(&mut state, addition("b"), None);
    commit(&mut state, addition("c"), None);
    let search = populate_search(&state.chain);
    let out = collect_diffs(&state.chain, &search, &vec![2, 0]);
    assert_eq!(out, PerspectiveDiff { additions: vec![expression("c"), expression("a")], removals: vec![] });
    assert_eq!(chain_keys(&state), vec![1, 2, 3]);
}

#[test]
fn pull_twice_returns_nothing_the_second_time() {
    let mut state = SyncState::new();
    commit(&mut state, addition("a"), None);
    commit(&mut state, addition("b"), None);
    commit(&mut state, addition("c"), Some(vec![1]));
    state.current_revision = 2;
    let first = pull(&mut state);
    assert_eq!(first.additions.len(), 1);
    assert_eq!(pull(&mut state), PerspectiveDiff { additions: vec![], removals: vec![] });
}

#[test]
fn fast_forward_keeps_the_chain_order() {
    let mut state = SyncState::new();
    for author in ["a", "b", "c", "e"] {
        commit(&mut state, addition(author), None);
    }
    state.current_revision = 1;
    let pulled = pull(&mut state);
    assert_eq!(pulled, PerspectiveDiff { additions: vec![expression("b"), expression("c"), expression("e")], removals: vec![] });
    assert_eq!(chain_keys(&state), vec![1, 2, 3, 4]);
    assert_eq!(current_revision(&state), 4);
    assert!(loadable(&state));
    let _ = render(&state);
}

#[test]
fn fast_forward_over_a_merge_returns_each_diff_once() {
    let mut state = SyncState::new();
    commit(&mut state, addition("a"), None);
    commit(&mut state, addition("b"), None);
    commit(&mut state, addition("c"), Some(vec![1]));
    commit(&mut state, addition("m"), Some(vec![2, 3]));
    state.current_revision = 1;
    let pulled = pull(&mut state);
    assert_eq!(pulled, PerspectiveDiff {
        additions: vec![expression("b"), expression("c"), expression("m")],
        removals: vec![],
    });
    assert_eq!(current_revision(&state), 4);
    assert_eq!(chain_keys(&state), vec![1, 2, 3, 4]);
}

#[test]
fn counter_is_the_latest_revision() {
    let mut state = SyncState::new();
    assert_eq!(latest_revision(&state), state.inc);
    commit(&mut state, addition("a"), None);
    commit(&mut state, addition("b"), None);
    commit(&mut state, addition("c"), Some(vec![1]));
    state.current_revision = 2;
    pull(&mut state);
    assert_eq!(latest_revision(&state), state.inc);
    assert_eq!(state.inc, 4);
}

#[test]
fn loadable_rejects_unknown_and_missing_parents() {
    let mut state = SyncState::new();
    commit(&mut state, addition("a"), None);
    assert!(loadable(&state));
    commit(&mut state, addition("b"), Some(vec![9]));
    assert!(!loadable(&state));
    let mut state = SyncState::new();
    commit(&mut state, addition("a"), Some(vec![]));
    assert!(!loadable(&state));
}

#[test]
fn fork_merges_from_the_nearest_common_ancestor() {
    let mut state = SyncState::new();
    commit(&mut state, addition("a"), None);
    commit(&mut state, addition("b"), None);
    commit(&mut state, addition("c"), Some(vec![1]));
    commit(&mut state, addition("d"), Some(vec![2]));
    state.current_revision = 3;
    let merged = pull(&mut state);
    assert_eq!(merged, PerspectiveDiff { additions: vec![expression("c")], removals: vec![] });
    assert_eq!(chain_keys(&state), vec![1, 2, 3, 4, 5]);
    let merge = state.entry_at(4).unwrap();
    assert_eq!(merge.parents, vec![4, 3]);
    assert_eq!(current_revision(&state), 5);
}
