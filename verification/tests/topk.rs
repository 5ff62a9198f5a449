use bv_graph::algorithms::topk_set::{
    best_candidate, commit, topk_set, topk_set_default, TopKSetResult,
};
use bv_graph::graph::DiGraph;

fn make_graph(edges: &[(usize, usize)]) -> DiGraph {
    let mut g = DiGraph::new();
    let max_node = edges.iter().flat_map(|(a, b)| [*a, *b]).max().unwrap_or(0);
    for i in 0..=max_node {
        g.add_node(&format!("n{}", i));
    }
    for (from, to) in edges {
        g.add_edge(*from, *to);
    }
    g
}

fn nodes_of(result: &TopKSetResult) -> Vec<usize> {
    result.items.iter().map(|item| item.node).collect()
}

#[test]
fn test_empty_graph() {
    let g = DiGraph::new();
    let result = topk_set(&g, &[], 5);
    assert!(result.items.is_empty());
    assert_eq!(result.total_gain, 0);
}

#[test]
fn test_single_node() {
    let mut g = DiGraph::new();
    g.add_node("a");
    let result = topk_set(&g, &[false], 5);
    // Single node with no dependents has no gain
    assert!(result.items.is_empty());
    assert_eq!(result.total_gain, 0);
}

#[test]
fn test_simple_chain() {
    // 0 -> 1 -> 2 -> 3
    let g = make_graph(&[(0, 1), (1, 2), (2, 3)]);
    let result = topk_set(&g, &[false; 4], 5);

    assert!(!result.items.is_empty());
    // First selection should be 0 (highest impact)
    assert_eq!(result.items[0].node, 0);
    assert_eq!(result.items[0].marginal_gain, 3);
}

#[test]
fn test_fork_pattern() {
    // Hub -> A, B, C (hub unblocks 3)
    let g = make_graph(&[(0, 1), (0, 2), (0, 3)]);
    let result = topk_set(&g, &[false; 4], 5);

    assert_eq!(result.items.len(), 1);
    assert_eq!(result.items[0].node, 0); // Hub
    assert_eq!(result.items[0].marginal_gain, 3);
    assert_eq!(result.total_gain, 3);
}

#[test]
fn test_multiple_hubs() {
    // Hub1 -> {A, B}, Hub2 -> {X, Y, Z}
    // Hub2 should be picked first (3 > 2)
    let g = make_graph(&[(0, 1), (0, 2), (3, 4), (3, 5), (3, 6)]);
    let result = topk_set(&g, &[false; 7], 5);

    assert!(result.items.len() >= 2);
    // Node 3 (Hub2) has more impact (3) than Node 0 (Hub1, 2)
    assert_eq!(result.items[0].node, 3);
    assert_eq!(result.items[0].marginal_gain, 3);
    assert_eq!(result.items[1].node, 0);
    assert_eq!(result.items[1].marginal_gain, 2);
    assert_eq!(result.total_gain, 5);
}

#[test]
fn test_submodularity() {
    // Chain: 0 -> 1 -> 2 -> 3 -> 4
    // First selection: 0 (gain=4)
    // After that, no more nodes with positive gain (all unblocked)
    let g = make_graph(&[(0, 1), (1, 2), (2, 3), (3, 4)]);
    let result = topk_set(&g, &[false; 5], 5);

    assert_eq!(result.items.len(), 1);
    assert_eq!(result.items[0].marginal_gain, 4);
}

#[test]
fn test_partially_closed() {
    // 0 -> 2, 1 -> 2, 2 -> 3
    // If 0 is already closed, closing 1 unblocks 2 (then 3)
    let g = make_graph(&[(0, 2), (1, 2), (2, 3)]);
    let closed = vec![true, false, false, false];
    let result = topk_set(&g, &closed, 5);

    assert!(!result.items.is_empty());
    assert_eq!(result.items[0].node, 1);
    assert_eq!(result.items[0].marginal_gain, 2); // 2 and 3
}

#[test]
fn test_limit_respected() {
    // Many independent chains
    let g = make_graph(&[(0, 1), (2, 3), (4, 5), (6, 7), (8, 9)]);
    let result = topk_set(&g, &[false; 10], 2);

    assert_eq!(result.items.len(), 2);
}

#[test]
fn test_deterministic() {
    // Same gains - should pick by node index for determinism
    // 0 -> 1, 2 -> 3 (both have gain 1)
    let g = make_graph(&[(0, 1), (2, 3)]);

    // Run multiple times
    for _ in 0..5 {
        let result = topk_set(&g, &[false; 4], 5);
        // Should consistently pick 0 first (lower index)
        assert_eq!(result.items[0].node, 0);
    }
}

#[test]
fn test_monotonic_marginal_gains() {
    // Tree: 0 -> {1, 2, 3}, 1 -> {4, 5}
    let g = make_graph(&[(0, 1), (0, 2), (0, 3), (1, 4), (1, 5)]);
    let result = topk_set(&g, &[false; 6], 5);

    if result.items.len() >= 2 {
        for i in 1..result.items.len() {
            assert!(
                result.items[i].marginal_gain <= result.items[i - 1].marginal_gain,
                "Marginal gains should be monotonically non-increasing"
            );
        }
    }
}

#[test]
fn test_open_nodes_count() {
    let g = make_graph(&[(0, 1), (1, 2)]);
    let closed = vec![true, false, false];
    let result = topk_set(&g, &closed, 5);

    // 1 node closed, 2 open
    assert_eq!(result.open_nodes, 2);
}

#[test]
fn test_all_closed() {
    let g = make_graph(&[(0, 1), (1, 2)]);
    let closed = vec![true, true, true];
    let result = topk_set(&g, &closed, 5);

    assert!(result.items.is_empty());
    assert_eq!(result.open_nodes, 0);
}

#[test]
fn test_deep_cascade() {
    // Deep chain: 0 -> 1 -> 2 -> 3 -> 4 -> 5 -> 6 -> 7 -> 8 -> 9
    let mut edges = Vec::new();
    for i in 0..9 {
        edges.push((i, i + 1));
    }
    let g = make_graph(&edges);
    let result = topk_set(&g, &[false; 10], 5);

    assert_eq!(result.items.len(), 1);
    assert_eq!(result.items[0].node, 0);
    assert_eq!(result.items[0].marginal_gain, 9);
}

#[test]
fn empty_graph_has_no_open_nodes() {
    let g = DiGraph::new();
    let result = topk_set(&g, &[true, false], 5);
    assert!(result.items.is_empty());
    assert_eq!(result.total_gain, 0);
    assert_eq!(result.open_nodes, 0);
}

#[test]
fn zero_limit_still_counts_open_nodes() {
    let g = make_graph(&[(0, 1), (1, 2)]);
    let result = topk_set(&g, &[true, false, false], 0);
    assert!(result.items.is_empty());
    assert_eq!(result.total_gain, 0);
    assert_eq!(result.open_nodes, 2);
}

#[test]
fn chain_is_one_selection_with_its_cascade() {
    let g = make_graph(&[(0, 1), (1, 2), (2, 3)]);
    let result = topk_set(&g, &[false; 4], 5);
    assert_eq!(result.items.len(), 1);
    assert_eq!(result.items[0].node, 0);
    assert_eq!(result.items[0].marginal_gain, 3);
    assert_eq!(result.items[0].unblocked_ids, vec![1, 2, 3]);
    assert_eq!(result.total_gain, 3);
    assert_eq!(result.open_nodes, 4);
}

#[test]
fn two_hubs_larger_first() {
    let g = make_graph(&[(0, 1), (0, 2), (3, 4), (3, 5), (3, 6)]);
    let result = topk_set(&g, &[false; 7], 5);
    assert_eq!(nodes_of(&result), vec![3, 0]);
    assert_eq!(result.items[0].unblocked_ids, vec![4, 5, 6]);
    assert_eq!(result.items[1].unblocked_ids, vec![1, 2]);
    assert_eq!(result.total_gain, 5);
    assert_eq!(result.open_nodes, 7);
}

#[test]
fn partial_closure_unblocks_through_the_join() {
    let g = make_graph(&[(0, 2), (1, 2), (2, 3)]);
    let result = topk_set(&g, &[true, false, false, false], 5);
    assert_eq!(result.items.len(), 1);
    assert_eq!(result.items[0].node, 1);
    assert_eq!(result.items[0].marginal_gain, 2);
    assert_eq!(result.items[0].unblocked_ids, vec![2, 3]);
    assert_eq!(result.open_nodes, 3);
}

#[test]
fn join_with_both_blockers_open_unblocks_nothing() {
    // Node 2 waits for 0 and 1: closing either alone frees nothing.
    let g = make_graph(&[(0, 2), (1, 2)]);
    let result = topk_set(&g, &[false; 3], 5);
    assert!(result.items.is_empty());
    assert_eq!(result.total_gain, 0);
    assert_eq!(result.open_nodes, 3);
}

#[test]
fn five_chains_limit_two_takes_lowest_first() {
    let g = make_graph(&[(0, 1), (2, 3), (4, 5), (6, 7), (8, 9)]);
    let result = topk_set(&g, &[false; 10], 2);
    assert_eq!(nodes_of(&result), vec![0, 2]);
    assert_eq!(result.total_gain, 2);
    assert_eq!(result.open_nodes, 10);
}

#[test]
fn length_is_bounded_by_limit_and_open_nodes() {
    let g = make_graph(&[(0, 1), (2, 3), (4, 5), (6, 7), (8, 9)]);
    for k in 0..8 {
        let result = topk_set(&g, &[false, false, true, true], k);
        assert!(result.items.len() <= k);
        assert!(result.items.len() <= result.open_nodes);
        assert_eq!(result.open_nodes, 8);
        assert_eq!(result.items.len(), k.min(4));
    }
}

#[test]
fn total_gain_is_sum_of_gains() {
    let g = make_graph(&[(0, 1), (0, 2), (3, 4), (3, 5), (3, 6), (7, 8)]);
    let result = topk_set(&g, &[false; 9], 5);
    let sum: usize = result.items.iter().map(|item| item.marginal_gain).sum();
    assert_eq!(result.total_gain, sum);
    assert_eq!(result.total_gain, 6);
    assert_eq!(nodes_of(&result), vec![3, 0, 7]);
}

#[test]
fn gain_is_number_of_unblocked_ids() {
    let g = make_graph(&[(0, 1), (0, 2), (3, 4), (3, 5), (3, 6), (7, 8)]);
    let result = topk_set(&g, &[false; 9], 5);
    for item in &result.items {
        assert!(item.marginal_gain > 0);
        assert_eq!(item.marginal_gain, item.unblocked_ids.len());
    }
}

#[test]
fn no_node_is_selected_twice() {
    let g = make_graph(&[(0, 1), (2, 3), (4, 5), (6, 7), (8, 9)]);
    let result = topk_set(&g, &[false; 10], 10);
    let nodes = nodes_of(&result);
    assert_eq!(nodes, vec![0, 2, 4, 6, 8]);
}

#[test]
fn two_runs_agree() {
    let g = make_graph(&[(0, 1), (0, 2), (3, 4), (3, 5), (1, 6), (4, 6)]);
    let closed = vec![false, false, true];
    let a = topk_set(&g, &closed, 3);
    let b = topk_set(&g, &closed, 3);
    assert_eq!(a.items.len(), b.items.len());
    for i in 0..a.items.len() {
        assert_eq!(a.items[i].node, b.items[i].node);
        assert_eq!(a.items[i].marginal_gain, b.items[i].marginal_gain);
        assert_eq!(a.items[i].unblocked_ids, b.items[i].unblocked_ids);
    }
    assert_eq!(a.total_gain, b.total_gain);
    assert_eq!(a.open_nodes, b.open_nodes);
    assert_eq!(closed, vec![false, false, true]);
}

#[test]
fn short_snapshot_is_padded_with_open() {
    let g = make_graph(&[(0, 1), (1, 2)]);
    let result = topk_set(&g, &[true], 5);
    assert_eq!(result.open_nodes, 2);
    assert_eq!(result.items.len(), 1);
    assert_eq!(result.items[0].node, 1);
    assert_eq!(result.items[0].unblocked_ids, vec![2]);
}

#[test]
fn empty_snapshot_means_all_open() {
    let g = make_graph(&[(0, 1), (1, 2)]);
    let result = topk_set(&g, &[], 5);
    assert_eq!(result.open_nodes, 3);
    assert_eq!(result.items[0].node, 0);
    assert_eq!(result.total_gain, 2);
}

#[test]
fn long_snapshot_is_cut_to_the_graph() {
    let g = make_graph(&[(0, 1)]);
    let result = topk_set(&g, &[false, false, false, false, true], 5);
    assert_eq!(result.open_nodes, 2);
    assert_eq!(result.total_gain, 1);
}

#[test]
fn default_limit_is_five() {
    let g = make_graph(&[(0, 1), (2, 3), (4, 5), (6, 7), (8, 9), (10, 11)]);
    let result = topk_set_default(&g, &[false; 12]);
    assert_eq!(nodes_of(&result), vec![0, 2, 4, 6, 8]);
    assert_eq!(result.total_gain, 5);
    assert_eq!(result.open_nodes, 12);
}

#[test]
fn best_candidate_prefers_gain_then_lowest_index() {
    let g = make_graph(&[(0, 1), (2, 3), (2, 4), (5, 6), (5, 7)]);
    let best = best_candidate(&g, &vec![false; 8]).unwrap();
    assert_eq!(best.node, 2);
    assert_eq!(best.marginal_gain, 2);
    assert_eq!(best.unblocked_ids, vec![3, 4]);
}

#[test]
fn best_candidate_of_leaves_has_gain_zero() {
    let mut g = DiGraph::new();
    g.add_node("a");
    g.add_node("b");
    let best = best_candidate(&g, &vec![true, false]).unwrap();
    assert_eq!(best.node, 1);
    assert_eq!(best.marginal_gain, 0);
    assert!(best.unblocked_ids.is_empty());
}

#[test]
fn best_candidate_of_closed_graph_is_none() {
    let g = make_graph(&[(0, 1)]);
    assert!(best_candidate(&g, &vec![true, true]).is_none());
}

#[test]
fn commit_closes_node_and_ids_and_ignores_strays() {
    let mut closed = vec![false, true, false, false, false];
    commit(&mut closed, 0, &vec![3, 9, 3]);
    assert_eq!(closed, vec![true, true, false, true, false]);
}

#[test]
fn commit_twice_changes_nothing_more() {
    let mut closed = vec![false, false, false, false];
    commit(&mut closed, 1, &vec![2]);
    let once = closed.clone();
    commit(&mut closed, 1, &vec![2]);
    assert_eq!(closed, once);
    assert_eq!(closed, vec![false, true, true, false]);
}
