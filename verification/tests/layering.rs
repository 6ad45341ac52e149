use charts::errors::LayoutError;
use charts::layering::layers_from_order;

#[test]
fn layers_follow_the_longest_path() {
    let edges = vec![(0, 1), (0, 2), (0, 3), (2, 4)];
    assert_eq!(layers_from_order(5, &edges, &vec![0, 1, 2, 3, 4]), Ok(vec![0, 1, 1, 1, 2]));
    assert_eq!(layers_from_order(5, &edges, &vec![0, 2, 4, 3, 1]), Ok(vec![0, 1, 1, 1, 2]));
}

#[test]
fn entries_beyond_the_node_count_are_not_read() {
    let edges = vec![(0, 1)];
    assert_eq!(layers_from_order(2, &edges, &vec![0, 1, 7, 7]), Ok(vec![0, 1]));
}

#[test]
fn isolated_nodes_are_in_layer_zero() {
    assert_eq!(layers_from_order(3, &vec![], &vec![2, 0, 1]), Ok(vec![0, 0, 0]));
    assert_eq!(layers_from_order(0, &vec![], &vec![]), Ok(vec![]));
}

#[test]
fn parallel_edges_count_once() {
    let edges = vec![(0, 1), (0, 1), (1, 2), (0, 2)];
    assert_eq!(layers_from_order(3, &edges, &vec![0, 1, 2]), Ok(vec![0, 1, 2]));
}

#[test]
fn short_order_reports_the_node_left_over() {
    // 0 -> 1 -> 2, and the order stops after 0: node 1 is not placed but its
    // only predecessor is.
    let edges = vec![(0, 1), (1, 2)];
    assert_eq!(
        layers_from_order(3, &edges, &vec![0]),
        Err(LayoutError::GraphNotAcyclic { node: 1 })
    );
}

#[test]
fn cycle_reports_a_node_on_it() {
    // 0 -> 1 <-> 2: a walk that visits only 0 leaves the cycle of 1 and 2.
    let edges = vec![(0, 1), (1, 2), (2, 1)];
    match layers_from_order(3, &edges, &vec![0]) {
        Err(LayoutError::GraphNotAcyclic { node }) => assert!(node == 1 || node == 2),
        other => panic!("unexpected {:?}", other),
    }
}

#[test]
fn order_that_runs_ahead_of_a_predecessor_is_refused() {
    let edges = vec![(0, 1)];
    assert_eq!(
        layers_from_order(2, &edges, &vec![1, 0]),
        Err(LayoutError::GraphNotAcyclic { node: 0 })
    );
}
