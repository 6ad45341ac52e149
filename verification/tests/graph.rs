use charts::errors::LayoutError;
use charts::graph::FlowGraph;

#[test]
fn edges_add_to_the_counters_of_their_ends() {
    let mut graph = FlowGraph::<&str, &str>::new();
    let a = graph.add_node("a", None);
    let b = graph.add_node("b", None);
    let c = graph.add_node("c", Some(10));
    assert_eq!((a, b, c), (0, 1, 2));
    assert_eq!(graph.add_edge(a, b, 3, "ab"), Ok(0));
    assert_eq!(graph.add_edge(a, c, 1, "ac"), Ok(1));
    assert_eq!(graph.add_edge(b, c, 2, "bc"), Ok(2));
    assert_eq!(graph.node_count(), 3);
    assert_eq!(graph.edge_count(), 3);

    let na = graph.node(a).unwrap();
    assert_eq!((na.current_input, na.current_output), (0, 4));
    assert_eq!(na.flow(), 4);
    assert_eq!(na.required_input(), 4);
    assert_eq!(na.required_output(), 4);
    assert_eq!(na.remaining_input(), 4);
    assert_eq!(na.remaining_output(), 0);

    let nb = graph.node(b).unwrap();
    assert_eq!((nb.current_input, nb.current_output), (3, 2));
    assert_eq!(nb.flow(), 3);
    assert_eq!(nb.required_input(), 2);
    assert_eq!(nb.remaining_input(), -1);
    assert_eq!(nb.remaining_output(), 0);

    let nc = graph.node(c).unwrap();
    assert_eq!((nc.current_input, nc.current_output), (3, 0));
    assert_eq!(nc.flow(), 10);
    assert_eq!(nc.required_input(), 10);
    assert_eq!(nc.required_output(), 10);
    assert_eq!(nc.remaining_input(), 7);
    assert_eq!(nc.remaining_output(), 10);
    assert_eq!(nc.payload, "c");

    let e = graph.edge(1).unwrap();
    assert_eq!((e.source, e.target, e.value, e.payload), (0, 2, 1, "ac"));
    assert!(graph.edge(3).is_none());
    assert!(graph.node(3).is_none());
    assert_eq!(graph.endpoints(), vec![(0, 1), (0, 2), (1, 2)]);
    assert_eq!(graph.flow(b), Some(3));
    assert_eq!(graph.flow(9), None);
}

#[test]
fn node_without_edges_has_flow_zero() {
    let mut graph = FlowGraph::<(), ()>::new();
    let a = graph.add_node((), None);
    assert_eq!(graph.node(a).unwrap().flow(), 0);
    assert_eq!(graph.flow(a), Some(0));
}

#[test]
fn remaining_goes_below_zero_past_the_fixed_value() {
    let mut graph = FlowGraph::<(), ()>::new();
    let a = graph.add_node((), Some(2));
    let b = graph.add_node((), None);
    graph.add_edge(a, b, 5, ()).unwrap();
    assert_eq!(graph.node(a).unwrap().remaining_output(), -3);
    assert_eq!(graph.node(a).unwrap().remaining_input(), 2);
}

#[test]
fn flow_never_shrinks_as_edges_are_added() {
    let mut graph = FlowGraph::<(), ()>::new();
    for _ in 0..4 {
        graph.add_node((), None);
    }
    let mut before: Vec<u64> = (0..4).map(|v| graph.flow(v).unwrap()).collect();
    for (s, t, value) in [(0, 1, 5), (1, 2, 2), (0, 2, 1), (2, 3, 9), (1, 3, 4), (3, 3, 1)] {
        graph.add_edge(s, t, value, ()).unwrap();
        let after: Vec<u64> = (0..4).map(|v| graph.flow(v).unwrap()).collect();
        for v in 0..4 {
            assert!(after[v] >= before[v]);
            let node = graph.node(v).unwrap();
            assert_eq!(after[v], node.current_input.max(node.current_output));
        }
        before = after;
    }
    assert_eq!(before, vec![6, 6, 9, 14]);
}

#[test]
fn edge_to_a_missing_node_is_passed_over_and_counted() {
    let mut graph = FlowGraph::<(), ()>::new();
    let a = graph.add_node((), None);
    assert_eq!(
        graph.add_edge(a, 4, 1, ()),
        Err(LayoutError::UnresolvedEdgeEndpoint { source: 0, target: 4 })
    );
    assert_eq!(
        graph.add_edge(9, a, 1, ()),
        Err(LayoutError::UnresolvedEdgeEndpoint { source: 9, target: 0 })
    );
    assert_eq!(graph.edge_count(), 0);
    assert_eq!(graph.skipped_edges(), 2);
    assert_eq!(graph.node(a).unwrap().flow(), 0);
}

#[test]
fn edge_that_overflows_a_counter_is_passed_over() {
    let mut graph = FlowGraph::<(), ()>::new();
    let a = graph.add_node((), None);
    let b = graph.add_node((), None);
    let c = graph.add_node((), None);
    assert_eq!(graph.add_edge(a, b, u64::MAX, ()), Ok(0));
    assert_eq!(graph.add_edge(a, c, 1, ()), Err(LayoutError::FlowOverflow { node: a }));
    assert_eq!(graph.add_edge(c, b, 1, ()), Err(LayoutError::FlowOverflow { node: b }));
    assert_eq!(graph.edge_count(), 1);
    assert_eq!(graph.skipped_edges(), 0);
    assert_eq!(graph.node(c).unwrap().flow(), 0);
}
