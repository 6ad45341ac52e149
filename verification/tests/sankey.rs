use charts::errors::LayoutError;
use charts::graph::FlowGraph;
use charts::sankey::{LayerOrderingMethod, SankeyLayers};

//       0
//     / | \
//    1  2  3
//       |
//       4
fn fan_graph() -> (FlowGraph<&'static str, ()>, [usize; 5]) {
    let mut graph = FlowGraph::<&str, ()>::new();
    let n0 = graph.add_node("0", None);
    let n1 = graph.add_node("1", None);
    let n2 = graph.add_node("2", None);
    let n3 = graph.add_node("3", None);
    let n4 = graph.add_node("4", None);

    graph.add_edge(n0, n1, 1, ()).unwrap();
    graph.add_edge(n0, n2, 1, ()).unwrap();
    graph.add_edge(n0, n3, 1, ()).unwrap();
    graph.add_edge(n2, n4, 1, ()).unwrap();
    (graph, [n0, n1, n2, n3, n4])
}

#[test]
fn order_layers_barycenter() {
    let (graph, _) = fan_graph();
    let sankey = SankeyLayers::new(&graph);
    assert!(sankey.is_ok());
}

#[test]
fn order_layers_median() {
    let (graph, _) = fan_graph();
    let sankey = SankeyLayers::new(&graph);
    assert!(sankey.is_ok());
}

#[test]
fn collect_by_layer() {
    let mut graph = FlowGraph::<&str, ()>::new();
    let n0 = graph.add_node("0", None);
    let n1 = graph.add_node("1", None);
    let n2 = graph.add_node("2", None);

    graph.add_edge(n0, n1, 1, ()).unwrap();
    graph.add_edge(n0, n2, 1, ()).unwrap();

    let sankey = SankeyLayers::new(&graph).unwrap();
    let layers = sankey.collect_by_layer();

    assert_eq!(layers.get(&0).unwrap(), &vec![n0]);
    assert_eq!(layers.get(&1).unwrap(), &vec![n1, n2]);
}

#[test]
fn cycle_handling() {
    let mut graph = FlowGraph::<&str, ()>::new();
    let n0 = graph.add_node("0", None);
    let n1 = graph.add_node("1", None);
    let n2 = graph.add_node("2", None);

    graph.add_edge(n0, n1, 1, ()).unwrap();
    graph.add_edge(n1, n2, 1, ()).unwrap();
    graph.add_edge(n2, n0, 1, ()).unwrap();

    let sankey = SankeyLayers::new(&graph);
    match sankey {
        Err(LayoutError::GraphNotAcyclic { node }) => assert!(node < 3),
        _ => panic!("a cycle must be refused"),
    }
}

#[test]
fn fan_graph_layers() {
    let (graph, nodes) = fan_graph();
    let sankey = SankeyLayers::new(&graph).unwrap();
    assert_eq!(sankey.layer_ids(), &vec![0, 1, 1, 1, 2]);
    let layers = sankey.collect_by_layer();
    assert_eq!(layers.len(), 3);
    assert_eq!(layers.get(&0).unwrap(), &vec![nodes[0]]);
    assert_eq!(layers.get(&1).unwrap(), &vec![nodes[1], nodes[2], nodes[3]]);
    assert_eq!(layers.get(&2).unwrap(), &vec![nodes[4]]);
}

#[test]
fn fan_graph_barycenter_keeps_insertion_order() {
    let (graph, _) = fan_graph();
    let sankey = SankeyLayers::new(&graph).unwrap();
    assert_eq!(sankey.layers(), vec![vec![0], vec![1, 2, 3], vec![4]]);
    // All of layer 1 hangs on the one node of layer 0: every score is 0 and
    // the stable sort leaves the nodes as they were inserted.
    assert_eq!(
        sankey.order(LayerOrderingMethod::Barycenter),
        vec![vec![0], vec![1, 2, 3], vec![4]]
    );
    assert_eq!(
        sankey.order(LayerOrderingMethod::Median),
        vec![vec![0], vec![1, 2, 3], vec![4]]
    );
}

#[test]
fn layers_span_more_than_one_step() {
    // 0 -> 1 -> 2 and 0 -> 2: the long edge does not pull 2 down.
    let mut graph = FlowGraph::<(), ()>::new();
    let a = graph.add_node((), None);
    let b = graph.add_node((), None);
    let c = graph.add_node((), None);
    graph.add_edge(a, c, 1, ()).unwrap();
    graph.add_edge(a, b, 1, ()).unwrap();
    graph.add_edge(b, c, 1, ()).unwrap();
    let sankey = SankeyLayers::new(&graph).unwrap();
    assert_eq!(sankey.layer_ids(), &vec![0, 1, 2]);
    assert_eq!(sankey.layer_of(c), Some(2));
    assert_eq!(sankey.layer_of(7), None);
    assert_eq!(sankey.layer_count(), 3);
    assert_eq!(sankey.node_count(), 3);
    assert_eq!(sankey.edges(), &vec![(0, 2), (0, 1), (1, 2)]);
}

#[test]
fn every_predecessor_lies_in_a_lower_layer() {
    let mut graph = FlowGraph::<(), ()>::new();
    for _ in 0..7 {
        graph.add_node((), None);
    }
    let edges = [(3, 1), (1, 0), (3, 0), (5, 6), (6, 2), (0, 2), (4, 5)];
    for (s, t) in edges {
        graph.add_edge(s, t, 1, ()).unwrap();
    }
    let sankey = SankeyLayers::new(&graph).unwrap();
    let ids = sankey.layer_ids();
    for (s, t) in edges {
        assert!(ids[s] < ids[t]);
    }
    assert!(ids.iter().any(|&l| l == 0));
    assert_eq!(ids, &vec![2, 1, 3, 0, 0, 1, 2]);
}

#[test]
fn empty_graph_has_no_layers() {
    let graph = FlowGraph::<(), ()>::new();
    let sankey = SankeyLayers::new(&graph).unwrap();
    assert!(sankey.layer_ids().is_empty());
    assert!(sankey.collect_by_layer().is_empty());
    assert!(sankey.layers().is_empty());
}

#[test]
fn self_loop_is_a_cycle() {
    let mut graph = FlowGraph::<(), ()>::new();
    let a = graph.add_node((), None);
    let b = graph.add_node((), None);
    graph.add_edge(a, b, 1, ()).unwrap();
    graph.add_edge(b, b, 1, ()).unwrap();
    match SankeyLayers::new(&graph) {
        Err(e) => assert_eq!(e, LayoutError::GraphNotAcyclic { node: b }),
        Ok(_) => panic!("a self loop must be refused"),
    }
}

#[test]
fn cycle_behind_a_tail_reports_a_node_of_the_cycle() {
    // 0 -> 1 -> 2 -> 3 -> 1, and 3 -> 4: only 1, 2 and 3 lie on the cycle.
    let mut graph = FlowGraph::<(), ()>::new();
    for _ in 0..5 {
        graph.add_node((), None);
    }
    for (s, t) in [(0, 1), (1, 2), (2, 3), (3, 1), (3, 4)] {
        graph.add_edge(s, t, 1, ()).unwrap();
    }
    match SankeyLayers::new(&graph) {
        Err(LayoutError::GraphNotAcyclic { node }) => assert!((1..=3).contains(&node)),
        _ => panic!("a cycle must be refused"),
    }
}

#[test]
fn from_order_takes_any_topological_order() {
    let (graph, _) = fan_graph();
    let by_walk = SankeyLayers::new(&graph).unwrap();
    let by_hand = SankeyLayers::from_order(&graph, &vec![0, 3, 2, 4, 1]).unwrap();
    assert_eq!(by_walk.layer_ids(), by_hand.layer_ids());
}

#[test]
fn from_order_refuses_what_is_no_topological_order() {
    let (graph, _) = fan_graph();
    // 4 before its predecessor 2.
    assert!(SankeyLayers::from_order(&graph, &vec![0, 4, 2, 1, 3]).is_err());
    // too short
    assert!(SankeyLayers::from_order(&graph, &vec![0, 1, 2]).is_err());
    // a node twice
    assert!(SankeyLayers::from_order(&graph, &vec![0, 1, 1, 2, 3]).is_err());
    // a node that is none
    assert!(SankeyLayers::from_order(&graph, &vec![0, 1, 9, 2, 3]).is_err());
}

#[test]
fn default_layers_are_those_of_the_empty_graph() {
    let layers = SankeyLayers::default();
    assert_eq!(layers.node_count(), 0);
    assert!(layers.layer_ids().is_empty());
    assert!(layers.collect_by_layer().is_empty());
    assert_eq!(FlowGraph::<(), ()>::default().node_count(), 0);
}
