use ssa_core::graph::Graph;

// Diamond-with-loop graph: edges 0->{1,5}, 1->{2,3}, 2->4, 3->4, 4->5, 5->{}.
fn diamond() -> Graph {
    Graph {
        nodes: vec![
            /*0*/ vec![1, 5],
            /*1*/ vec![2, 3],
            /*2*/ vec![4],
            /*3*/ vec![4],
            /*4*/ vec![5],
            /*5*/ vec![],
        ],
    }
}

#[test]
fn cfg2_test() {
    let graph = diamond();
    let start_node = 0;

    let traversal = graph.reverse_postorder_traversal(start_node);
    println!("{:?}", traversal);

    let dominators = graph.compute_dominator_tree(start_node);
    println!("{:?}", dominators);

    let dom_frontiers = graph.dominance_frontier(start_node);
    println!("{:?}", dom_frontiers);
}

#[test]
fn diamond_with_loop_expected_results() {
    let graph = diamond();
    // Depth-first search follows each successor list in stored order and
    // backtracks before trying siblings, so block 3 is entered only after
    // block 2's whole subtree is finished: it precedes 2 in the reversed
    // postorder.
    let rpo = graph.reverse_postorder_traversal(0);
    assert_eq!(rpo, vec![0, 1, 3, 2, 4, 5]);

    let dominators = graph.compute_dominator_tree(0);
    assert_eq!(
        dominators,
        vec![Some(0), Some(0), Some(1), Some(1), Some(1), Some(0)]
    );

    // Block 1 dominates block 4, a predecessor of 5, without dominating 5
    // itself, so 5 sits in 1's frontier as well as 4's.
    let dom_frontiers = graph.dominance_frontier(0);
    assert_eq!(
        dom_frontiers,
        vec![vec![], vec![5], vec![4], vec![4], vec![5], vec![]]
    );
}

#[test]
fn rpo_skips_unreachable_blocks() {
    // Node 2 is unreachable from 0.
    let graph = Graph {
        nodes: vec![vec![1], vec![], vec![0]],
    };
    let rpo = graph.reverse_postorder_traversal(0);
    assert_eq!(rpo, vec![0, 1]);

    let dominators = graph.compute_dominator_tree(0);
    assert_eq!(dominators, vec![Some(0), Some(0), None]);
}

#[test]
fn branch_edge_order_drives_traversal() {
    // 0 -> {2, 1}: the first-listed successor is visited (and finished)
    // first, so it comes later in the reversed postorder; listing the
    // successors the other way round swaps the result.
    let graph = Graph {
        nodes: vec![vec![2, 1], vec![], vec![]],
    };
    let rpo = graph.reverse_postorder_traversal(0);
    assert_eq!(rpo, vec![0, 1, 2]);
    let flipped = Graph {
        nodes: vec![vec![1, 2], vec![], vec![]],
    };
    let rpo2 = flipped.reverse_postorder_traversal(0);
    assert_eq!(rpo2, vec![0, 2, 1]);
}

#[test]
fn predecessors_count_multiplicity() {
    // A self-branch 1 -> {1, 1} makes 1 its own predecessor twice.
    let graph = Graph {
        nodes: vec![vec![1], vec![1, 1]],
    };
    let preds = graph.get_predecessors(1);
    assert_eq!(preds, vec![0, 1, 1]);
}
