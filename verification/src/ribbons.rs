//! Stacking nodes and ribbons, in units of flow.
//!
//! Within a layer the nodes are stacked from the top, each as high as its
//! flow. Within a node the ribbons of the edges that leave it are stacked
//! from the top in the order of the edges, each as thick as the value of its
//! edge, and so are the ribbons of the edges that enter it. Scaling the
//! units to a drawing surface is left to the caller.

use vstd::prelude::*;
use crate::errors::LayoutError;
use crate::graph::{flow_of, inflow, outflow, FlowGraph, FlowView, Link};
use crate::layering::repeated;
use crate::orderer::rows;
use crate::ranking::{stable_sort, stable_sorted, Ranked};

verus! {

/// The height of `node`: its flow, or 0 where the graph holds no such node.
pub open spec fn height_of(view: FlowView, node: usize) -> nat {
    if node < view.fixed.len() {
        flow_of(view, node as int)
    } else {
        0
    }
}

/// The height of the nodes of `layer` stacked on each other.
pub open spec fn stack_height(view: FlowView, layer: Seq<usize>) -> nat
    decreases layer.len(),
{
    if layer.len() == 0 {
        0
    } else {
        stack_height(view, layer.drop_last()) + height_of(view, layer.last())
    }
}

/// Where a node stands in the stack of its layer.
#[derive(Clone, Copy, Debug, PartialEq, Eq, Structural)]
pub struct NodeExtent {
    pub node: usize,
    /// Height of the nodes stacked above this one.
    pub offset: u128,
    /// Height of the node itself.
    pub height: u64,
}

/// The extent of the node at `place` of `layer`.
pub open spec fn extent_at(view: FlowView, layer: Seq<usize>, place: int) -> NodeExtent {
    NodeExtent {
        node: layer[place],
        offset: stack_height(view, layer.take(place)) as u128,
        height: height_of(view, layer[place]) as u64,
    }
}

/// The extents of the nodes of `layer`, from the top.
pub open spec fn stacked(view: FlowView, layer: Seq<usize>) -> Seq<NodeExtent> {
    Seq::new(layer.len(), |k: int| extent_at(view, layer, k))
}

/// A longer stack is no lower.
pub proof fn lemma_stack_grows(view: FlowView, layer: Seq<usize>, shorter: int, longer: int)
    requires
        0 <= shorter <= longer <= layer.len(),
    ensures
        stack_height(view, layer.take(shorter)) <= stack_height(view, layer.take(longer)),
    decreases longer - shorter,
{
    if shorter < longer {
        lemma_stack_grows(view, layer, shorter, longer - 1);
        assert(layer.take(longer).drop_last() =~= layer.take(longer - 1));
    }
}

/// No two nodes of a stack overlap: each ends where the next begins, and
/// a node of a stack begins no higher than any after it.
pub proof fn lemma_stacked_apart(view: FlowView, layer: Seq<usize>, upper: int, lower: int)
    requires
        0 <= upper < lower < layer.len(),
    ensures
        stack_height(view, layer.take(upper)) + height_of(view, layer[upper]) <= stack_height(
            view,
            layer.take(lower),
        ),
{
    assert(layer.take(upper + 1).drop_last() =~= layer.take(upper));
    assert(layer.take(upper + 1).last() == layer[upper]);
    lemma_stack_grows(view, layer, upper + 1, lower);
}

/// A stack of as many nodes as a vector holds has a height that fits an
/// `u128`.
proof fn lemma_stack_bound(view: FlowView, layer: Seq<usize>)
    requires
        layer.len() <= usize::MAX,
        forall|v: int| 0 <= v < view.fixed.len() ==> flow_of(view, v) <= u64::MAX,
    ensures
        stack_height(view, layer) <= layer.len() * 0xffff_ffff_ffff_ffff,
        stack_height(view, layer) <= 0xffff_ffff_ffff_ffff * 0xffff_ffff_ffff_ffff,
    decreases layer.len(),
{
    if layer.len() > 0 {
        lemma_stack_bound(view, layer.drop_last());
        assert((layer.len() - 1) * 0xffff_ffff_ffff_ffff + 0xffff_ffff_ffff_ffff == layer.len()
            * 0xffff_ffff_ffff_ffff) by (nonlinear_arith);
    }
    assert(layer.len() * 0xffff_ffff_ffff_ffff <= 0xffff_ffff_ffff_ffff * 0xffff_ffff_ffff_ffff)
        by (nonlinear_arith)
        requires
            layer.len() <= 0xffff_ffff_ffff_ffff,
    ;
}

/// The size of every node of a well-formed graph fits its counter.
proof fn lemma_flows_fit<N, E>(graph: &FlowGraph<N, E>)
    requires
        graph.wf(),
    ensures
        forall|v: int| 0 <= v < graph@.fixed.len() ==> flow_of(graph@, v) <= u64::MAX,
{
    graph.lemma_records();
    assert forall|v: int| 0 <= v < graph@.fixed.len() implies flow_of(graph@, v) <= u64::MAX by {
        assert(graph.node_spec(v).current_input == inflow(graph@.links, v));
    }
}

/// Stacks the nodes of `layer` from the top and returns their extents with
/// the height of the whole stack.
pub fn stack_layer<N, E>(graph: &FlowGraph<N, E>, layer: &Vec<usize>) -> (r: (Vec<NodeExtent>, u128))
    requires
        graph.wf(),
    ensures
        r.0@ == stacked(graph@, layer@),
        r.1 == stack_height(graph@, layer@),
{
    let mut extents: Vec<NodeExtent> = Vec::new();
    let mut total: u128 = 0;
    let mut k: usize = 0;
    proof {
        lemma_flows_fit(graph);
        assert(layer@.take(0) =~= Seq::<usize>::empty());
    }
    while k < layer.len()
        invariant
            k <= layer.len(),
            graph.wf(),
            forall|v: int| 0 <= v < graph@.fixed.len() ==> flow_of(graph@, v) <= u64::MAX,
            extents.len() == k,
            forall|m: int| 0 <= m < k ==> extents[m] == extent_at(graph@, layer@, m),
            total == stack_height(graph@, layer@.take(k as int)),
        decreases layer.len() - k,
    {
        let node = layer[k];
        let height: u64 = match graph.flow(node) {
            Some(size) => size,
            None => 0,
        };
        proof {
            assert(layer@.take(k + 1).drop_last() =~= layer@.take(k as int));
            assert(layer@.take(k + 1).last() == node);
            lemma_stack_bound(graph@, layer@.take(k + 1));
        }
        extents.push(NodeExtent { node, offset: total, height });
        total = total + height as u128;
        k = k + 1;
    }
    assert(layer@.take(layer.len() as int) =~= layer@);
    assert(extents@ =~= stacked(graph@, layer@));
    (extents, total)
}

/// The band that stands for an edge, in units of flow.
#[derive(Clone, Copy, Debug, PartialEq, Eq, Structural)]
pub struct Ribbon {
    pub source: usize,
    pub target: usize,
    /// Value of the edge.
    pub thickness: u64,
    /// Thickness of the ribbons that leave the source above this one.
    pub source_offset: u64,
    /// Thickness of the ribbons that enter the target above this one.
    pub target_offset: u64,
}

/// The ribbon of link `j`: it leaves below the ribbons of the earlier
/// links of its source and enters below those of its target.
pub open spec fn ribbon_at(links: Seq<Link>, j: int) -> Ribbon {
    Ribbon {
        source: links[j].source,
        target: links[j].target,
        thickness: links[j].value,
        source_offset: outflow(links.take(j), links[j].source as int) as u64,
        target_offset: inflow(links.take(j), links[j].target as int) as u64,
    }
}

/// The ribbon of every link.
pub open spec fn ribbons_of(links: Seq<Link>) -> Seq<Ribbon> {
    Seq::new(links.len(), |j: int| ribbon_at(links, j))
}

/// More links carry no less through a node.
pub proof fn lemma_flow_of_prefix(links: Seq<Link>, shorter: int, longer: int, node: int)
    requires
        0 <= shorter <= longer <= links.len(),
    ensures
        outflow(links.take(shorter), node) <= outflow(links.take(longer), node),
        inflow(links.take(shorter), node) <= inflow(links.take(longer), node),
    decreases longer - shorter,
{
    if shorter < longer {
        lemma_flow_of_prefix(links, shorter, longer - 1, node);
        assert(links.take(longer).drop_last() =~= links.take(longer - 1));
    }
}

/// The ribbons that leave a node do not overlap, nor do those that enter
/// it: an earlier ribbon ends no lower than a later one begins, and all of
/// them end within what leaves or enters the node.
pub proof fn lemma_ribbons_apart(links: Seq<Link>, earlier: int, later: int)
    requires
        0 <= earlier < later < links.len(),
    ensures
        links[earlier].source == links[later].source ==> outflow(
            links.take(earlier),
            links[earlier].source as int,
        ) + links[earlier].value <= outflow(links.take(later), links[later].source as int),
        links[earlier].target == links[later].target ==> inflow(
            links.take(earlier),
            links[earlier].target as int,
        ) + links[earlier].value <= inflow(links.take(later), links[later].target as int),
        outflow(links.take(later), links[later].source as int) + links[later].value <= outflow(
            links,
            links[later].source as int,
        ),
        inflow(links.take(later), links[later].target as int) + links[later].value <= inflow(
            links,
            links[later].target as int,
        ),
{
    assert(links.take(earlier + 1).drop_last() =~= links.take(earlier));
    assert(links.take(earlier + 1).last() == links[earlier]);
    lemma_flow_of_prefix(links, earlier + 1, later, links[earlier].source as int);
    lemma_flow_of_prefix(links, earlier + 1, later, links[earlier].target as int);
    assert(links.take(later + 1).drop_last() =~= links.take(later));
    assert(links.take(later + 1).last() == links[later]);
    lemma_flow_of_prefix(links, later + 1, links.len() as int, links[later].source as int);
    lemma_flow_of_prefix(links, later + 1, links.len() as int, links[later].target as int);
    assert(links.take(links.len() as int) =~= links);
}

/// Stacks the ribbons: one for every edge, in the order of the edges.
pub fn ribbons<N, E>(graph: &FlowGraph<N, E>) -> (out: Vec<Ribbon>)
    requires
        graph.wf(),
    ensures
        out@ == ribbons_of(graph@.links),
{
    let node_count = graph.node_count();
    let edge_count = graph.edge_count();
    let mut leaving: Vec<u64> = repeated(node_count, 0u64);
    let mut entering: Vec<u64> = repeated(node_count, 0u64);
    let mut out: Vec<Ribbon> = Vec::new();
    let mut j: usize = 0;
    proof {
        graph.lemma_records();
        assert(graph@.links.take(0) =~= Seq::<Link>::empty());
    }
    while j < edge_count
        invariant
            j <= edge_count,
            edge_count == graph@.links.len(),
            node_count == graph@.fixed.len(),
            graph.wf(),
            leaving.len() == node_count,
            entering.len() == node_count,
            forall|v: int|
                0 <= v < node_count ==> #[trigger] leaving[v] == outflow(
                    graph@.links.take(j as int),
                    v,
                ),
            forall|v: int|
                0 <= v < node_count ==> #[trigger] entering[v] == inflow(
                    graph@.links.take(j as int),
                    v,
                ),
            out.len() == j,
            forall|m: int| 0 <= m < j ==> out[m] == ribbon_at(graph@.links, m),
        decreases edge_count - j,
    {
        proof {
            graph.lemma_records();
        }
        let edge = graph.edge(j).unwrap();
        let source = edge.source;
        let target = edge.target;
        let value = edge.value;
        proof {
            let links = graph@.links;
            assert(graph.edge_spec(j as int).link() == links[j as int]);
            assert(links[j as int].source < node_count && links[j as int].target < node_count);
            assert(links.take(j + 1).drop_last() =~= links.take(j as int));
            assert(links.take(j + 1).last() == links[j as int]);
            lemma_flow_of_prefix(links, j + 1, links.len() as int, source as int);
            lemma_flow_of_prefix(links, j + 1, links.len() as int, target as int);
            assert(links.take(links.len() as int) =~= links);
            assert(graph.node_spec(source as int).current_output == outflow(links, source as int));
            assert(graph.node_spec(target as int).current_input == inflow(links, target as int));
        }
        out.push(
            Ribbon {
                source,
                target,
                thickness: value,
                source_offset: leaving[source],
                target_offset: entering[target],
            },
        );
        let left = leaving[source];
        leaving.set(source, left + value);
        let entered = entering[target];
        entering.set(target, entered + value);
        j = j + 1;
    }
    assert(out@ =~= ribbons_of(graph@.links));
    out
}

/// An edge with its value, for the order of painting.
#[derive(Clone, Copy, Debug, PartialEq, Eq, Structural)]
pub struct Painted {
    pub edge: usize,
    pub value: u64,
}

impl Ranked for Painted {
    /// The larger value is painted first.
    open spec fn rank_le(&self, other: &Self) -> bool {
        self.value >= other.value
    }

    proof fn rank_total(a: &Self, b: &Self) {
    }

    proof fn rank_transitive(a: &Self, b: &Self, c: &Self) {
    }

    fn le(&self, other: &Self) -> (r: bool) {
        self.value >= other.value
    }
}

/// Every link with its index.
pub open spec fn painted_of(links: Seq<Link>) -> Seq<Painted> {
    Seq::new(links.len(), |j: int| Painted { edge: j as usize, value: links[j].value })
}

/// The edges in the order in which they are painted: the largest value
/// first, edges of equal value in the order they were registered.
pub fn paint_order<N, E>(graph: &FlowGraph<N, E>) -> (out: Vec<Painted>)
    requires
        graph.wf(),
    ensures
        out@ == stable_sorted(painted_of(graph@.links)),
{
    let edge_count = graph.edge_count();
    let mut all: Vec<Painted> = Vec::new();
    let mut j: usize = 0;
    while j < edge_count
        invariant
            j <= edge_count,
            edge_count == graph@.links.len(),
            graph.wf(),
            all.len() == j,
            forall|m: int| 0 <= m < j ==> all[m] == painted_of(graph@.links)[m],
        decreases edge_count - j,
    {
        proof {
            graph.lemma_records();
        }
        let value = graph.edge(j).unwrap().value;
        assert(graph.edge_spec(j as int).link() == graph@.links[j as int]);
        all.push(Painted { edge: j, value });
        j = j + 1;
    }
    assert(all@ =~= painted_of(graph@.links));
    stable_sort(&all)
}

/// What a drawing of the graph is scaled from.
#[derive(Debug)]
pub struct LayoutPlan {
    /// For every layer, the extents of its nodes from the top.
    pub stacks: Vec<Vec<NodeExtent>>,
    /// For every layer, the height of its stack.
    pub totals: Vec<u128>,
    /// For every edge, its ribbon.
    pub ribbons: Vec<Ribbon>,
    /// The edges in the order in which they are painted.
    pub painting: Vec<Painted>,
}

/// The stack of every layer.
pub open spec fn stacks_of(view: FlowView, order: Seq<Seq<usize>>) -> Seq<Seq<NodeExtent>> {
    Seq::new(order.len(), |l: int| stacked(view, order[l]))
}

/// The extents in each vector.
pub open spec fn extents_in(stacks: Seq<Vec<NodeExtent>>) -> Seq<Seq<NodeExtent>> {
    Seq::new(stacks.len(), |l: int| stacks[l]@)
}

/// Plans the drawing of `graph` with its layers in `order`.
///
/// Ribbons run from layer to layer, so a drawing needs two layers at
/// least: with fewer the plan is refused.
pub fn plan_layout<N, E>(graph: &FlowGraph<N, E>, order: &Vec<Vec<usize>>) -> (r: Result<
    LayoutPlan,
    LayoutError,
>)
    requires
        graph.wf(),
    ensures
        order.len() < 2 ==> r == Err::<LayoutPlan, LayoutError>(
            LayoutError::DegenerateLayoutGeometry,
        ),
        order.len() >= 2 ==> (r matches Ok(plan) && {
            &&& extents_in(plan.stacks@) == stacks_of(graph@, rows(order@))
            &&& plan.totals@ == Seq::new(
                order.len() as nat,
                |l: int| stack_height(graph@, order[l]@) as u128,
            )
            &&& plan.ribbons@ == ribbons_of(graph@.links)
            &&& plan.painting@ == stable_sorted(painted_of(graph@.links))
        }),
{
    if order.len() < 2 {
        return Err(LayoutError::DegenerateLayoutGeometry);
    }
    let mut stacks: Vec<Vec<NodeExtent>> = Vec::new();
    let mut totals: Vec<u128> = Vec::new();
    let mut l: usize = 0;
    while l < order.len()
        invariant
            l <= order.len(),
            graph.wf(),
            stacks.len() == l,
            totals.len() == l,
            forall|i: int| 0 <= i < l ==> (#[trigger] stacks[i])@ == stacked(graph@, order[i]@),
            forall|i: int| 0 <= i < l ==> totals[i] == stack_height(graph@, order[i]@),
        decreases order.len() - l,
    {
        let (extents, total) = stack_layer(graph, &order[l]);
        stacks.push(extents);
        totals.push(total);
        l = l + 1;
    }
    assert(extents_in(stacks@) =~= stacks_of(graph@, rows(order@)));
    assert(totals@ =~= Seq::new(
        order.len() as nat,
        |l: int| stack_height(graph@, order[l]@) as u128,
    ));
    Ok(LayoutPlan { stacks, totals, ribbons: ribbons(graph), painting: paint_order(graph) })
}

} // verus!
