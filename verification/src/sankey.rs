//! Layers of a flow graph.

use std::collections::BTreeMap;
use petgraph::graph::{Graph, NodeIndex};
use petgraph::visit::{Topo, Walker};
use petgraph::Directed;
use vstd::prelude::*;
use crate::errors::LayoutError;
use crate::graph::{endpoints_of, FlowGraph};
use crate::layering::{
    covers_graph, edges_resolved, has_cycle, is_blocked, is_layering, is_topological_prefix,
    layers_from_order, lemma_blocked_after_walk, on_cycle, visits_all_ready,
};
use crate::orderer::{layers_resolved, order_layers, ordered_layers, rows};

verus! {

/// How the nodes of a layer are ordered against the layer before it.
#[derive(Clone, Copy, Debug, PartialEq, Eq, Structural)]
pub enum LayerOrderingMethod {
    /// By the average position of the neighbours in the previous layer.
    Barycenter,
    /// By the median position of the neighbours in the previous layer.
    Median,
}

/// Builds a `petgraph::Graph` with nodes `0..node_count` and the given
/// edges, walks it with `petgraph::visit::Topo` to the end and returns the
/// indices of the nodes in the order visited.
///
/// The contract claims of the walk what its source shows. It visits a node
/// once at most, and only when all the predecessors of the node have been
/// visited. And it goes on as long as it can: when it ends, every node
/// whose predecessors were all visited has been visited too. Nothing else
/// is taken on trust. `Graph::add_edge` panics on an endpoint that is not a
/// node, hence the `requires`; with `usize` indices the graph has no limit
/// of its own on nodes or edges.
#[verifier::external_body]
fn topo_walk(node_count: usize, edges: &Vec<(usize, usize)>) -> (order: Vec<usize>)
    requires
        edges_resolved(node_count as nat, edges@),
    ensures
        is_topological_prefix(node_count as nat, edges@, order@),
        visits_all_ready(node_count as nat, edges@, order@),
{
    let mut graph = Graph::<(), (), Directed, usize>::default();
    for _ in 0..node_count {
        graph.add_node(());
    }
    for edge in edges.iter() {
        graph.add_edge(NodeIndex::new(edge.0), NodeIndex::new(edge.1), ());
    }
    Topo::new(&graph).iter(&graph).map(|node| node.index()).collect()
}

/// The nodes of layer `layer`, in ascending order, where `layers` gives the
/// layer of each node.
pub open spec fn members_of_layer(layers: Seq<usize>, layer: usize) -> Seq<usize>
    decreases layers.len(),
{
    if layers.len() == 0 {
        Seq::empty()
    } else if layers.last() == layer {
        members_of_layer(layers.drop_last(), layer).push((layers.len() - 1) as usize)
    } else {
        members_of_layer(layers.drop_last(), layer)
    }
}

/// One more than the highest layer, or 0 where there is no node.
pub open spec fn layer_count(layers: Seq<usize>) -> nat
    decreases layers.len(),
{
    if layers.len() == 0 {
        0
    } else {
        let rest = layer_count(layers.drop_last());
        if layers.last() >= rest {
            (layers.last() + 1) as nat
        } else {
            rest
        }
    }
}

/// The layers from the first to the last, the nodes of each in ascending
/// order.
pub open spec fn layers_in_order(layers: Seq<usize>) -> Seq<Seq<usize>> {
    Seq::new(layer_count(layers), |l: int| members_of_layer(layers, l as usize))
}

/// Every layer in use is below the number of layers.
pub proof fn lemma_layer_count(layers: Seq<usize>, node: int)
    requires
        0 <= node < layers.len(),
    ensures
        layers[node] < layer_count(layers),
    decreases layers.len(),
{
    if node < layers.len() - 1 {
        lemma_layer_count(layers.drop_last(), node);
    }
}

/// The longest-path layering of a flow graph.
#[derive(Debug)]
pub struct SankeyLayers {
    node_count: usize,
    edges: Vec<(usize, usize)>,
    layer_ids: Vec<usize>,
}

impl Default for SankeyLayers {
    /// The layering of the empty graph.
    fn default() -> (layers: Self)
        ensures
            layers.wf(),
            layers.node_count_spec() == 0,
            layers.edges_spec().len() == 0,
            layers.layers_spec().len() == 0,
    {
        SankeyLayers { node_count: 0, edges: Vec::new(), layer_ids: Vec::new() }
    }
}

impl SankeyLayers {
    /// Number of nodes of the graph that was layered.
    pub closed spec fn node_count_spec(&self) -> nat {
        self.node_count as nat
    }

    /// Endpoints of the edges of the graph that was layered.
    pub closed spec fn edges_spec(&self) -> Seq<(usize, usize)> {
        self.edges@
    }

    /// The layer of each node.
    pub closed spec fn layers_spec(&self) -> Seq<usize> {
        self.layer_ids@
    }

    /// The layers are the layering of the graph.
    pub closed spec fn wf(&self) -> bool {
        &&& edges_resolved(self.node_count as nat, self.edges@)
        &&& is_layering(self.node_count as nat, self.edges@, self.layer_ids@)
        &&& forall|v: int| 0 <= v < self.node_count ==> self.layer_ids@[v] < self.node_count
    }

    /// A well-formed value holds the one layering of its graph.
    pub proof fn lemma_wf(&self)
        requires
            self.wf(),
        ensures
            edges_resolved(self.node_count_spec(), self.edges_spec()),
            is_layering(self.node_count_spec(), self.edges_spec(), self.layers_spec()),
            forall|v: int|
                0 <= v < self.node_count_spec() ==> self.layers_spec()[v] < self.node_count_spec(),
            self.node_count_spec() <= usize::MAX,
    {
    }

    /// Number of nodes of the graph that was layered.
    pub fn node_count(&self) -> (n: usize)
        ensures
            n == self.node_count_spec(),
    {
        self.node_count
    }

    /// Endpoints of the edges of the graph that was layered.
    pub fn edges(&self) -> (edges: &Vec<(usize, usize)>)
        ensures
            edges@ == self.edges_spec(),
    {
        &self.edges
    }

    /// The layers from the first to the last, the nodes of each in
    /// ascending order.
    pub fn layers(&self) -> (out: Vec<Vec<usize>>)
        requires
            self.wf(),
        ensures
            rows(out@) == layers_in_order(self.layers_spec()),
            layers_resolved(self.node_count_spec(), rows(out@)),
    {
        let count = self.layer_count();
        let mut out: Vec<Vec<usize>> = Vec::new();
        let mut layer: usize = 0;
        while layer < count
            invariant
                layer <= count,
                out.len() == layer,
                forall|l: int| 0 <= l < layer ==> (#[trigger] out[l])@ == Seq::<usize>::empty(),
            decreases count - layer,
        {
            out.push(Vec::new());
            layer = layer + 1;
        }
        let mut node: usize = 0;
        while node < self.layer_ids.len()
            invariant
                node <= self.layer_ids.len(),
                out.len() == count,
                count == layer_count(self.layer_ids@),
                forall|l: int|
                    0 <= l < count ==> (#[trigger] out[l])@ == members_of_layer(
                        self.layer_ids@.take(node as int),
                        l as usize,
                    ),
            decreases self.layer_ids.len() - node,
        {
            let layer = self.layer_ids[node];
            proof {
                lemma_layer_count(self.layer_ids@, node as int);
                assert(self.layer_ids@.take(node + 1).drop_last() =~= self.layer_ids@.take(
                    node as int,
                ));
                assert(self.layer_ids@.take(node + 1).last() == layer);
            }
            out[layer].push(node);
            node = node + 1;
        }
        proof {
            assert(self.layer_ids@.take(self.layer_ids.len() as int) =~= self.layer_ids@);
            assert(rows(out@) =~= layers_in_order(self.layer_ids@));
            assert forall|i: int, k: int|
                0 <= i < rows(out@).len() && 0 <= k < rows(out@)[i].len() implies (
            #[trigger] rows(out@)[i][k]) < self.node_count by {
                lemma_members_of_layer(self.layer_ids@, i as usize);
            }
        }
        out
    }

    /// Number of layers.
    pub fn layer_count(&self) -> (count: usize)
        requires
            self.wf(),
        ensures
            count == layer_count(self.layers_spec()),
    {
        let mut count: usize = 0;
        let mut node: usize = 0;
        while node < self.layer_ids.len()
            invariant
                node <= self.layer_ids.len(),
                self.layer_ids.len() == self.node_count,
                forall|v: int| 0 <= v < self.node_count ==> self.layer_ids@[v] < self.node_count,
                count == layer_count(self.layer_ids@.take(node as int)),
            decreases self.layer_ids.len() - node,
        {
            proof {
                assert(self.layer_ids@.take(node + 1).drop_last() =~= self.layer_ids@.take(
                    node as int,
                ));
                assert(self.layer_ids@.take(node + 1).last() == self.layer_ids[node as int]);
            }
            if self.layer_ids[node] >= count {
                count = self.layer_ids[node] + 1;
            }
            node = node + 1;
        }
        assert(self.layer_ids@.take(self.layer_ids.len() as int) =~= self.layer_ids@);
        count
    }

    /// The layers in the order that `method` gives them, from the first to
    /// the last.
    pub fn order(&self, method: LayerOrderingMethod) -> (out: Vec<Vec<usize>>)
        requires
            self.wf(),
        ensures
            rows(out@) == ordered_layers(
                method,
                self.edges_spec(),
                layers_in_order(self.layers_spec()),
            ),
    {
        let layers = self.layers();
        order_layers(method, self.node_count, &self.edges, &layers)
    }

    /// Layers `graph` along `order`.
    ///
    /// Succeeds exactly where the first entries of `order`, as many as the
    /// graph has nodes, are a topological order of it.
    pub fn from_order<N, E>(graph: &FlowGraph<N, E>, order: &Vec<usize>) -> (r: Result<
        SankeyLayers,
        LayoutError,
    >)
        requires
            graph.wf(),
        ensures
            r is Ok <==> covers_graph(graph@.fixed.len(), endpoints_of(graph@.links), order@),
            r matches Ok(layers) ==> {
                &&& layers.wf()
                &&& layers.node_count_spec() == graph@.fixed.len()
                &&& layers.edges_spec() == endpoints_of(graph@.links)
                &&& is_layering(
                    graph@.fixed.len(),
                    endpoints_of(graph@.links),
                    layers.layers_spec(),
                )
            },
            r matches Err(e) ==> e matches LayoutError::GraphNotAcyclic { node } && is_blocked(
                graph@.fixed.len(),
                endpoints_of(graph@.links),
                order@,
                node,
            ),
            has_cycle(endpoints_of(graph@.links)) ==> r is Err,
    {
        let node_count = graph.node_count();
        let edges = graph.endpoints();
        proof {
            graph.lemma_records();
        }
        match layers_from_order(node_count, &edges, order) {
            Ok(layer_ids) => Ok(SankeyLayers { node_count, edges, layer_ids }),
            Err(e) => Err(e),
        }
    }

    /// Layers `graph` along the order in which petgraph's topological walk
    /// visits it.
    ///
    /// Succeeds exactly where the graph has no cycle, and reports a node on
    /// a cycle where it has one.
    pub fn new<N, E>(graph: &FlowGraph<N, E>) -> (r: Result<SankeyLayers, LayoutError>)
        requires
            graph.wf(),
        ensures
            r is Ok <==> !has_cycle(endpoints_of(graph@.links)),
            r matches Ok(layers) ==> {
                &&& layers.wf()
                &&& layers.node_count_spec() == graph@.fixed.len()
                &&& layers.edges_spec() == endpoints_of(graph@.links)
                &&& is_layering(
                    graph@.fixed.len(),
                    endpoints_of(graph@.links),
                    layers.layers_spec(),
                )
            },
            r matches Err(e) ==> e matches LayoutError::GraphNotAcyclic { node } && node
                < graph@.fixed.len() && on_cycle(endpoints_of(graph@.links), node),
    {
        let node_count = graph.node_count();
        let edges = graph.endpoints();
        proof {
            graph.lemma_records();
        }
        let order = topo_walk(node_count, &edges);
        match layers_from_order(node_count, &edges, &order) {
            Ok(layer_ids) => Ok(SankeyLayers { node_count, edges, layer_ids }),
            Err(e) => {
                proof {
                    match e {
                        LayoutError::GraphNotAcyclic { node } => {
                            lemma_blocked_after_walk(node_count as nat, edges@, order@, node);
                        },
                        _ => {},
                    }
                }
                Err(e)
            },
        }
    }

    /// The layer of each node, by node index.
    pub fn layer_ids(&self) -> (ids: &Vec<usize>)
        ensures
            ids@ == self.layers_spec(),
    {
        &self.layer_ids
    }

    /// The layer of `node`, or `None` where the graph holds no such node.
    pub fn layer_of(&self, node: usize) -> (r: Option<usize>)
        ensures
            r == (if node < self.layers_spec().len() {
                Some(self.layers_spec()[node as int])
            } else {
                None
            }),
    {
        if node < self.layer_ids.len() {
            Some(self.layer_ids[node])
        } else {
            None
        }
    }

    /// The nodes of each layer that is not empty, in ascending order, keyed
    /// by layer.
    pub fn collect_by_layer(&self) -> (map: BTreeMap<usize, Vec<usize>>)
        ensures
            forall|layer: usize|
                map@.contains_key(layer) <==> members_of_layer(self.layers_spec(), layer).len()
                    > 0,
            forall|layer: usize| #[trigger]
                map@.contains_key(layer) ==> map@[layer]@ == members_of_layer(
                    self.layers_spec(),
                    layer,
                ),
    {
        let mut map: BTreeMap<usize, Vec<usize>> = BTreeMap::new();
        let mut node: usize = 0;
        while node < self.layer_ids.len()
            invariant
                node <= self.layer_ids.len(),
                forall|layer: usize|
                    map@.contains_key(layer) <==> members_of_layer(
                        self.layer_ids@.take(node as int),
                        layer,
                    ).len() > 0,
                forall|layer: usize| #[trigger]
                    map@.contains_key(layer) ==> map@[layer]@ == members_of_layer(
                        self.layer_ids@.take(node as int),
                        layer,
                    ),
            decreases self.layer_ids.len() - node,
        {
            let layer = self.layer_ids[node];
            let ghost before = map@;
            let mut bucket = match map.remove(&layer) {
                Some(bucket) => bucket,
                None => Vec::new(),
            };
            bucket.push(node);
            map.insert(layer, bucket);
            proof {
                let longer = self.layer_ids@.take(node + 1);
                assert(longer.drop_last() =~= self.layer_ids@.take(node as int));
                assert(longer.last() == layer);
                assert forall|other: usize| #[trigger]
                    map@.contains_key(other) implies map@[other]@ == members_of_layer(
                    longer,
                    other,
                ) by {
                    if other != layer {
                        assert(before.contains_key(other));
                    }
                }
            }
            node = node + 1;
        }
        assert(self.layer_ids@.take(self.layer_ids.len() as int) =~= self.layer_ids@);
        map
    }
}

/// A layer holds a node exactly where the node has that layer.
pub proof fn lemma_members_of_layer(layers: Seq<usize>, layer: usize)
    requires
        layers.len() <= usize::MAX,
    ensures
        forall|k: int|
            0 <= k < members_of_layer(layers, layer).len() ==> {
                &&& (#[trigger] members_of_layer(layers, layer)[k]) < layers.len()
                &&& layers[members_of_layer(layers, layer)[k] as int] == layer
            },
        forall|v: int|
            0 <= v < layers.len() && layers[v] == layer ==> members_of_layer(
                layers,
                layer,
            ).contains(v as usize),
        forall|k: int, m: int|
            0 <= k < m < members_of_layer(layers, layer).len() ==> members_of_layer(
                layers,
                layer,
            )[k] < members_of_layer(layers, layer)[m],
    decreases layers.len(),
{
    if layers.len() > 0 {
        let rest = layers.drop_last();
        lemma_members_of_layer(rest, layer);
        let here = members_of_layer(layers, layer);
        let there = members_of_layer(rest, layer);
        assert forall|v: int| 0 <= v < layers.len() && layers[v] == layer implies here.contains(
            v as usize,
        ) by {
            if v == layers.len() - 1 {
                assert(here[here.len() - 1] == v as usize);
            } else {
                assert(rest[v] == layer);
                let k = choose|k: int| 0 <= k < there.len() && there[k] == v as usize;
                assert(here[k] == v as usize);
            }
        }
        assert forall|k: int| 0 <= k < here.len() implies (#[trigger] here[k]) < layers.len()
            && layers[here[k] as int] == layer by {
            if k < there.len() {
                assert(there[k] == here[k]);
                assert(rest[there[k] as int] == layers[there[k] as int]);
            }
        }
        assert forall|k: int, m: int| 0 <= k < m < here.len() implies here[k] < here[m] by {
            if m < there.len() {
                assert(there[k] < there[m]);
            } else {
                assert(there[k] == here[k]);
            }
        }
    }
}

} // verus!
