use charts::crossing::{CrossingScore, IVec2};
use charts::graph::FlowGraph;
use charts::sankey::{LayerOrderingMethod, SankeyLayers};
use charts::solver::{
    best_arrangement, count_crossings, is_arrangement_of, refine_layer, refine_layers,
    slot_segments, SankeySolver, MAX_EXACT_LAYER,
};

#[test]
fn crossed_pair_counts_one() {
    let edges = vec![(0, 3), (1, 2)];
    assert_eq!(count_crossings(4, &edges, &vec![0, 1], &vec![2, 3]), 1);
    assert_eq!(count_crossings(4, &edges, &vec![0, 1], &vec![3, 2]), 0);
}

#[test]
fn arrangement_holds_the_same_nodes() {
    assert!(is_arrangement_of(&vec![3, 1, 2], &vec![1, 2, 3]));
    assert!(is_arrangement_of(&vec![], &vec![]));
    assert!(!is_arrangement_of(&vec![1, 2], &vec![1, 2, 3]));
    assert!(!is_arrangement_of(&vec![1, 2, 2], &vec![1, 2, 3]));
    assert!(!is_arrangement_of(&vec![1, 1, 2], &vec![1, 2, 2]));
}

#[test]
fn best_arrangement_takes_the_first_with_the_fewest_crossings() {
    let edges = vec![(0, 3), (1, 2)];
    let previous = vec![0, 1];
    let layer = vec![2, 3];
    // what is no arrangement of the layer is passed over
    let candidates = vec![vec![2, 2], vec![3, 2], vec![2, 3], vec![3]];
    assert_eq!(best_arrangement(4, &edges, &previous, &layer, &candidates), vec![3, 2]);
    // nothing better on offer: the layer stays
    assert_eq!(best_arrangement(4, &edges, &previous, &layer, &vec![]), vec![2, 3]);
    assert_eq!(best_arrangement(4, &edges, &previous, &vec![3, 2], &candidates), vec![3, 2]);
}

#[test]
fn refine_layer_tries_every_arrangement() {
    let edges = vec![(0, 3), (1, 2)];
    assert_eq!(refine_layer(4, &edges, &vec![0, 1], &vec![2, 3]), vec![3, 2]);
    // three nodes fully crossed: 0 -> 5, 1 -> 4, 2 -> 3
    let edges = vec![(0, 5), (1, 4), (2, 3)];
    assert_eq!(refine_layer(6, &edges, &vec![0, 1, 2], &vec![3, 4, 5]), vec![5, 4, 3]);
}

#[test]
fn refine_layer_leaves_a_large_layer_alone() {
    let size = MAX_EXACT_LAYER + 1;
    let previous: Vec<usize> = (0..size).collect();
    let layer: Vec<usize> = (size..2 * size).collect();
    // every edge crosses every other
    let edges: Vec<(usize, usize)> = (0..size).map(|i| (i, 2 * size - 1 - i)).collect();
    assert_eq!(refine_layer(2 * size, &edges, &previous, &layer), layer);
}

#[test]
fn refine_layers_goes_from_layer_to_layer() {
    let edges = vec![(0, 3), (1, 2), (2, 4), (3, 5)];
    let layers = vec![vec![0, 1], vec![2, 3], vec![4, 5]];
    assert_eq!(refine_layers(6, &edges, &layers), vec![vec![0, 1], vec![3, 2], vec![5, 4]]);
}

#[test]
fn slot_segments_run_from_slot_to_slot() {
    let edges = vec![(0, 3), (1, 2), (0, 4)];
    let layer_ids = vec![0, 0, 1, 1, 2];
    let order = vec![vec![0, 1], vec![3, 2], vec![4]];
    assert_eq!(
        slot_segments(&edges, &layer_ids, &order),
        vec![
            Some((IVec2 { x: 0, y: 0 }, IVec2 { x: 1, y: 0 })),
            Some((IVec2 { x: 0, y: 1 }, IVec2 { x: 1, y: 1 })),
            Some((IVec2 { x: 0, y: 0 }, IVec2 { x: 2, y: 0 })),
        ]
    );
    // node 4 is in no layer of the order: its edge has no segment
    let order = vec![vec![0, 1], vec![3, 2]];
    assert_eq!(slot_segments(&edges, &layer_ids, &order)[2], None);
}

fn crossed_graph() -> FlowGraph<(), ()> {
    let mut graph = FlowGraph::<(), ()>::new();
    for _ in 0..4 {
        graph.add_node((), None);
    }
    graph.add_edge(0, 3, 1, ()).unwrap();
    graph.add_edge(1, 2, 1, ()).unwrap();
    graph
}

#[test]
fn solver_orders_and_scores() {
    let graph = crossed_graph();
    let mut solver = SankeySolver::new(&graph, LayerOrderingMethod::Barycenter).unwrap();
    assert_eq!(solver.order(), &vec![vec![0, 1], vec![3, 2]]);
    assert_eq!(solver.score(), CrossingScore { cost: -1, crossings: 0, unresolved: 0 });
    solver.permute();
    assert_eq!(solver.order(), &vec![vec![0, 1], vec![3, 2]]);
    assert_eq!(solver.slot_coordinates().len(), 2);
    assert_eq!(SankeySolver::layer_ids(&graph), Ok(vec![0, 0, 1, 1]));
}

#[test]
fn solver_refuses_a_cycle() {
    let mut graph = crossed_graph();
    graph.add_edge(3, 0, 1, ()).unwrap();
    assert!(SankeySolver::new(&graph, LayerOrderingMethod::Median).is_err());
    assert!(SankeySolver::layer_ids(&graph).is_err());
}

#[test]
fn permute_never_adds_a_crossing() {
    // ties leave the heuristic order as it was; the exact search may not do
    // worse
    let mut graph = FlowGraph::<(), ()>::new();
    for _ in 0..7 {
        graph.add_node((), None);
    }
    for (s, t) in [(0, 6), (1, 5), (2, 4), (0, 3), (2, 3), (1, 4), (2, 6)] {
        graph.add_edge(s, t, 1, ()).unwrap();
    }
    let layers = SankeyLayers::new(&graph).unwrap();
    let mut solver = SankeySolver::from_layers(layers, LayerOrderingMethod::Median);
    let before = solver.score().crossings;
    solver.permute();
    assert!(solver.score().crossings <= before);
    let mut nodes = solver.order()[1].clone();
    nodes.sort();
    assert_eq!(nodes, vec![3, 4, 5, 6]);
}
