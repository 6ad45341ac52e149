use charts::errors::LayoutError;
use charts::graph::FlowGraph;
use charts::ribbons::{paint_order, plan_layout, ribbons, stack_layer, NodeExtent, Painted, Ribbon};
use charts::sankey::{LayerOrderingMethod, SankeyLayers};

// A -> B of 3 and A -> C of 1
fn split_graph() -> FlowGraph<&'static str, ()> {
    let mut graph = FlowGraph::<&str, ()>::new();
    let a = graph.add_node("A", None);
    let b = graph.add_node("B", None);
    let c = graph.add_node("C", None);
    graph.add_edge(a, b, 3, ()).unwrap();
    graph.add_edge(a, c, 1, ()).unwrap();
    graph
}

#[test]
fn heights_are_as_the_flows() {
    let graph = split_graph();
    let (extents, total) = stack_layer(&graph, &vec![1, 2]);
    assert_eq!(
        extents,
        vec![
            NodeExtent { node: 1, offset: 0, height: 3 },
            NodeExtent { node: 2, offset: 3, height: 1 },
        ]
    );
    assert_eq!(total, 4);
    // three to one, and the one begins where the other ends
    assert_eq!(extents[0].height, 3 * extents[1].height);
    assert!(extents[0].offset + extents[0].height as u128 <= extents[1].offset);
}

#[test]
fn node_that_the_graph_does_not_hold_has_no_height() {
    let graph = split_graph();
    let (extents, total) = stack_layer(&graph, &vec![9, 0]);
    assert_eq!(
        extents,
        vec![
            NodeExtent { node: 9, offset: 0, height: 0 },
            NodeExtent { node: 0, offset: 0, height: 4 },
        ]
    );
    assert_eq!(total, 4);
}

#[test]
fn ribbons_stack_in_the_order_of_the_edges() {
    let mut graph = split_graph();
    graph.add_edge(1, 2, 2, ()).unwrap();
    graph.add_edge(0, 2, 5, ()).unwrap();
    assert_eq!(
        ribbons(&graph),
        vec![
            Ribbon { source: 0, target: 1, thickness: 3, source_offset: 0, target_offset: 0 },
            Ribbon { source: 0, target: 2, thickness: 1, source_offset: 3, target_offset: 0 },
            Ribbon { source: 1, target: 2, thickness: 2, source_offset: 0, target_offset: 1 },
            Ribbon { source: 0, target: 2, thickness: 5, source_offset: 4, target_offset: 3 },
        ]
    );
}

#[test]
fn largest_edge_is_painted_first() {
    let mut graph = split_graph();
    graph.add_edge(1, 2, 3, ()).unwrap();
    graph.add_edge(0, 2, 5, ()).unwrap();
    assert_eq!(
        paint_order(&graph),
        vec![
            Painted { edge: 3, value: 5 },
            Painted { edge: 0, value: 3 },
            Painted { edge: 2, value: 3 },
            Painted { edge: 1, value: 1 },
        ]
    );
}

#[test]
fn plan_needs_two_layers() {
    let mut graph = FlowGraph::<(), ()>::new();
    graph.add_node((), Some(1));
    let layers = SankeyLayers::new(&graph).unwrap();
    let order = layers.order(LayerOrderingMethod::Barycenter);
    assert_eq!(order.len(), 1);
    assert_eq!(
        plan_layout(&graph, &order).err(),
        Some(LayoutError::DegenerateLayoutGeometry)
    );
    assert_eq!(
        plan_layout(&graph, &vec![]).err(),
        Some(LayoutError::DegenerateLayoutGeometry)
    );
}

#[test]
fn plan_holds_stacks_totals_ribbons_and_painting() {
    let graph = split_graph();
    let layers = SankeyLayers::new(&graph).unwrap();
    let order = layers.order(LayerOrderingMethod::Barycenter);
    let plan = plan_layout(&graph, &order).unwrap();
    assert_eq!(plan.totals, vec![4, 4]);
    assert_eq!(plan.stacks[0], vec![NodeExtent { node: 0, offset: 0, height: 4 }]);
    assert_eq!(plan.stacks[1].len(), 2);
    assert_eq!(plan.ribbons.len(), 2);
    assert_eq!(plan.painting[0], Painted { edge: 0, value: 3 });
}

#[test]
fn layer_of_flow_zero_has_height_zero() {
    let mut graph = FlowGraph::<(), ()>::new();
    graph.add_node((), None);
    graph.add_node((), None);
    let (extents, total) = stack_layer(&graph, &vec![0, 1]);
    assert_eq!(total, 0);
    assert_eq!(extents[1], NodeExtent { node: 1, offset: 0, height: 0 });
}

#[test]
fn split_graph_on_a_square_surface() {
    // The plan scaled to a surface of 100 by 100 with the default border and
    // separation: B and C stand three to one and do not overlap.
    let graph = split_graph();
    let layers = SankeyLayers::new(&graph).unwrap();
    let order = layers.order(LayerOrderingMethod::Barycenter);
    let plan = plan_layout(&graph, &order).unwrap();

    let height = 100.0_f64;
    let border = height / 10.0;
    let separation = height / 30.0;
    let scale = order
        .iter()
        .zip(plan.totals.iter())
        .map(|(layer, total)| {
            (height - 2.0 * border - separation * (layer.len() as f64 - 1.0)) / *total as f64
        })
        .fold(f64::INFINITY, f64::min);
    assert!(scale.is_finite() && scale > 0.0);

    let stack = &plan.stacks[1];
    let tops: Vec<f64> = stack
        .iter()
        .enumerate()
        .map(|(place, extent)| extent.offset as f64 * scale + place as f64 * separation)
        .collect();
    let heights: Vec<f64> = stack.iter().map(|extent| extent.height as f64 * scale).collect();
    assert_eq!((stack[0].node, stack[1].node), (1, 2));
    assert!((heights[0] / heights[1] - 3.0).abs() < 1e-9);
    assert!(tops[0] + heights[0] <= tops[1]);
    assert!(heights.iter().chain(tops.iter()).all(|value| value.is_finite()));
    // the whole stack fits between the borders
    assert!(tops[1] + heights[1] <= height - 2.0 * border + 1e-9);
}
