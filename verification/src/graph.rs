//! The flow graph: an arena of node and edge records addressed by index.
//!
//! Registering an edge adds its value to the output counter of its source
//! and to the input counter of its target. The counters of a well-formed
//! graph always equal the sums over the edges it holds.

use vstd::prelude::*;
use crate::errors::LayoutError;

verus! {

/// What the layout reads of an edge: its endpoints and its value.
pub struct Link {
    pub source: usize,
    pub target: usize,
    pub value: u64,
}

/// What the layout reads of a graph: the fixed value of each node, if it
/// has one, and the links in the order they were registered.
pub struct FlowView {
    pub fixed: Seq<Option<u64>>,
    pub links: Seq<Link>,
}

/// Sum of the values of the links that enter `node`.
pub open spec fn inflow(links: Seq<Link>, node: int) -> nat
    decreases links.len(),
{
    if links.len() == 0 {
        0
    } else {
        let rest = inflow(links.drop_last(), node);
        if links.last().target == node {
            rest + links.last().value as nat
        } else {
            rest
        }
    }
}

/// Sum of the values of the links that leave `node`.
pub open spec fn outflow(links: Seq<Link>, node: int) -> nat
    decreases links.len(),
{
    if links.len() == 0 {
        0
    } else {
        let rest = outflow(links.drop_last(), node);
        if links.last().source == node {
            rest + links.last().value as nat
        } else {
            rest
        }
    }
}

/// The larger of two counters.
pub open spec fn larger(a: nat, b: nat) -> nat {
    if a >= b {
        a
    } else {
        b
    }
}

/// Size of `node`: its fixed value, or else the larger of what enters and
/// what leaves.
pub open spec fn flow_of(view: FlowView, node: int) -> nat {
    match view.fixed[node] {
        Some(v) => v as nat,
        None => larger(inflow(view.links, node), outflow(view.links, node)),
    }
}

/// Every link runs between two nodes below `node_count`.
pub open spec fn links_resolved(node_count: nat, links: Seq<Link>) -> bool {
    forall|j: int|
        0 <= j < links.len() ==> (#[trigger] links[j]).source < node_count && links[j].target
            < node_count
}

/// A further link never lowers what enters or leaves a node.
pub proof fn lemma_link_adds_flow(links: Seq<Link>, link: Link, node: int)
    ensures
        inflow(links.push(link), node) == inflow(links, node) + (if link.target == node {
            link.value as nat
        } else {
            0
        }),
        outflow(links.push(link), node) == outflow(links, node) + (if link.source == node {
            link.value as nat
        } else {
            0
        }),
{
    assert(links.push(link).drop_last() =~= links);
}

/// The size of a node never shrinks as links are added, and a node without
/// a fixed value is as large as the larger of its two counters.
pub proof fn lemma_flow_grows(view: FlowView, link: Link, node: int)
    requires
        0 <= node < view.fixed.len(),
    ensures
        flow_of(FlowView { fixed: view.fixed, links: view.links.push(link) }, node) >= flow_of(
            view,
            node,
        ),
        view.fixed[node] is None ==> flow_of(view, node) == larger(
            inflow(view.links, node),
            outflow(view.links, node),
        ),
{
    lemma_link_adds_flow(view.links, link, node);
}

/// A node of the arena.
#[derive(Debug)]
pub struct NodeRecord<N> {
    pub payload: N,
    /// Fixed size, or `None` where the size follows from the edges.
    pub value: Option<u64>,
    /// Sum of the values of the edges registered so far that enter the node.
    pub current_input: u64,
    /// Sum of the values of the edges registered so far that leave the node.
    pub current_output: u64,
}

impl<N> NodeRecord<N> {
    /// The input the node asks for: its fixed value, or else as much as has
    /// left it so far.
    pub fn required_input(&self) -> (r: u64)
        ensures
            r == (match self.value {
                Some(v) => v,
                None => self.current_output,
            }),
    {
        match self.value {
            Some(v) => v,
            None => self.current_output,
        }
    }

    /// The output the node asks for: its fixed value, or else what has
    /// left it so far.
    pub fn required_output(&self) -> (r: u64)
        ensures
            r == (match self.value {
                Some(v) => v,
                None => self.current_output,
            }),
    {
        match self.value {
            Some(v) => v,
            None => self.current_output,
        }
    }

    /// Required input less what has entered; negative where more has
    /// entered than is asked for.
    pub fn remaining_input(&self) -> (r: i128)
        ensures
            r == (match self.value {
                Some(v) => v as int - self.current_input as int,
                None => self.current_output as int - self.current_input as int,
            }),
    {
        let required: i128 = self.required_input() as i128;
        required - self.current_input as i128
    }

    /// Required output less what has left; negative where more has left
    /// than the fixed value allows.
    pub fn remaining_output(&self) -> (r: i128)
        ensures
            r == (match self.value {
                Some(v) => v as int - self.current_output as int,
                None => 0,
            }),
    {
        let required: i128 = self.required_output() as i128;
        required - self.current_output as i128
    }

    /// Size of the node: its fixed value, or else the larger counter.
    pub fn flow(&self) -> (r: u64)
        ensures
            r == (match self.value {
                Some(v) => v as nat,
                None => larger(self.current_input as nat, self.current_output as nat),
            }),
    {
        match self.value {
            Some(v) => v,
            None => if self.current_input >= self.current_output {
                self.current_input
            } else {
                self.current_output
            },
        }
    }
}

/// An edge of the arena.
#[derive(Debug)]
pub struct EdgeRecord<E> {
    pub source: usize,
    pub target: usize,
    pub value: u64,
    pub payload: E,
}

impl<E> EdgeRecord<E> {
    /// The edge without its payload.
    pub open spec fn link(&self) -> Link {
        Link { source: self.source, target: self.target, value: self.value }
    }
}

/// A directed graph whose nodes and edges carry a payload and a value.
#[derive(Debug)]
pub struct FlowGraph<N, E> {
    nodes: Vec<NodeRecord<N>>,
    edges: Vec<EdgeRecord<E>>,
    skipped: usize,
}

impl<N, E> View for FlowGraph<N, E> {
    type V = FlowView;

    closed spec fn view(&self) -> FlowView {
        FlowView {
            fixed: Seq::new(self.nodes@.len(), |i: int| self.nodes@[i].value),
            links: Seq::new(self.edges@.len(), |j: int| self.edges@[j].link()),
        }
    }
}

impl<N, E> Default for FlowGraph<N, E> {
    /// The empty graph.
    fn default() -> (g: Self)
        ensures
            g.wf(),
            g@.fixed.len() == 0,
            g@.links.len() == 0,
            g.skipped_spec() == 0,
    {
        FlowGraph::new()
    }
}

impl<N, E> FlowGraph<N, E> {
    /// The record of node `i`.
    pub closed spec fn node_spec(&self, i: int) -> NodeRecord<N> {
        self.nodes@[i]
    }

    /// The record of edge `j`.
    pub closed spec fn edge_spec(&self, j: int) -> EdgeRecord<E> {
        self.edges@[j]
    }

    /// How many edges were passed over for want of an endpoint.
    pub closed spec fn skipped_spec(&self) -> nat {
        self.skipped as nat
    }

    /// Every edge joins two nodes of the graph, and each counter equals the
    /// sum over the edges.
    pub closed spec fn wf(&self) -> bool {
        &&& links_resolved(self.nodes@.len(), self@.links)
        &&& forall|i: int|
            0 <= i < self.nodes@.len() ==> {
                &&& (#[trigger] self.nodes@[i]).current_input == inflow(self@.links, i)
                &&& self.nodes@[i].current_output == outflow(self@.links, i)
            }
    }

    /// In a well-formed graph the records agree with the view.
    pub proof fn lemma_records(&self)
        requires
            self.wf(),
        ensures
            links_resolved(self@.fixed.len(), self@.links),
            forall|i: int|
                0 <= i < self@.fixed.len() ==> {
                    &&& (#[trigger] self.node_spec(i)).value == self@.fixed[i]
                    &&& self.node_spec(i).current_input == inflow(self@.links, i)
                    &&& self.node_spec(i).current_output == outflow(self@.links, i)
                },
            forall|j: int|
                0 <= j < self@.links.len() ==> (#[trigger] self.edge_spec(j)).link()
                    == self@.links[j],
    {
    }

    /// The empty graph.
    pub fn new() -> (g: Self)
        ensures
            g.wf(),
            g@.fixed.len() == 0,
            g@.links.len() == 0,
            g.skipped_spec() == 0,
    {
        FlowGraph { nodes: Vec::new(), edges: Vec::new(), skipped: 0 }
    }

    /// Number of nodes.
    pub fn node_count(&self) -> (n: usize)
        ensures
            n == self@.fixed.len(),
    {
        self.nodes.len()
    }

    /// Number of edges.
    pub fn edge_count(&self) -> (n: usize)
        ensures
            n == self@.links.len(),
    {
        self.edges.len()
    }

    /// Number of edges passed over for want of an endpoint; it stops
    /// counting at `usize::MAX`.
    pub fn skipped_edges(&self) -> (n: usize)
        ensures
            n == self.skipped_spec(),
    {
        self.skipped
    }

    /// The record of node `i`, or `None` where the graph holds no such node.
    pub fn node(&self, i: usize) -> (r: Option<&NodeRecord<N>>)
        ensures
            r is Some <==> i < self@.fixed.len(),
            r matches Some(rec) ==> *rec == self.node_spec(i as int),
    {
        if i < self.nodes.len() {
            Some(&self.nodes[i])
        } else {
            None
        }
    }

    /// The record of edge `j`, or `None` where the graph holds no such edge.
    pub fn edge(&self, j: usize) -> (r: Option<&EdgeRecord<E>>)
        ensures
            r is Some <==> j < self@.links.len(),
            r matches Some(rec) ==> *rec == self.edge_spec(j as int),
    {
        if j < self.edges.len() {
            Some(&self.edges[j])
        } else {
            None
        }
    }

    /// Size of node `i`, or `None` where the graph holds no such node.
    pub fn flow(&self, i: usize) -> (r: Option<u64>)
        requires
            self.wf(),
        ensures
            r is Some <==> i < self@.fixed.len(),
            r matches Some(size) ==> size == flow_of(self@, i as int),
    {
        if i < self.nodes.len() {
            Some(self.nodes[i].flow())
        } else {
            None
        }
    }

    /// Adds a node with no edges and returns its index.
    pub fn add_node(&mut self, payload: N, value: Option<u64>) -> (id: usize)
        requires
            old(self).wf(),
        ensures
            final(self).wf(),
            id == old(self)@.fixed.len(),
            final(self)@.fixed == old(self)@.fixed.push(value),
            final(self)@.links == old(self)@.links,
            final(self).skipped_spec() == old(self).skipped_spec(),
            final(self).node_spec(id as int) == (NodeRecord {
                payload,
                value,
                current_input: 0,
                current_output: 0,
            }),
            forall|i: int|
                0 <= i < id ==> final(self).node_spec(i) == old(self).node_spec(i),
            forall|j: int|
                0 <= j < old(self)@.links.len() ==> final(self).edge_spec(j) == old(self).edge_spec(
                    j,
                ),
    {
        let id = self.nodes.len();
        proof {
            lemma_no_flow_beyond(self@.links, self.nodes@.len(), id as int);
        }
        self.nodes.push(NodeRecord { payload, value, current_input: 0, current_output: 0 });
        assert(self@.fixed =~= old(self)@.fixed.push(value));
        assert(self@.links =~= old(self)@.links);
        id
    }

    /// Registers an edge of `value` from `source` to `target` and returns
    /// its index.
    ///
    /// An edge with an endpoint that the graph does not hold is passed over
    /// and counted. So is, uncounted, an edge that would carry a counter of
    /// one of its endpoints beyond `u64::MAX`. The graph is otherwise left
    /// as it was.
    pub fn add_edge(&mut self, source: usize, target: usize, value: u64, payload: E) -> (r: Result<
        usize,
        LayoutError,
    >)
        requires
            old(self).wf(),
        ensures
            final(self).wf(),
            final(self)@.fixed == old(self)@.fixed,
            forall|i: int|
                0 <= i < old(self)@.fixed.len() ==> (#[trigger] final(self).node_spec(i)).payload
                    == old(self).node_spec(i).payload,
            forall|j: int|
                0 <= j < old(self)@.links.len() ==> final(self).edge_spec(j) == old(self).edge_spec(
                    j,
                ),
            r == add_edge_outcome(old(self)@, source, target, value),
            r matches Ok(id) ==> {
                &&& final(self)@.links == old(self)@.links.push(Link { source, target, value })
                &&& final(self).edge_spec(id as int) == (EdgeRecord {
                    source,
                    target,
                    value,
                    payload,
                })
                &&& final(self).skipped_spec() == old(self).skipped_spec()
            },
            r is Err ==> final(self)@.links == old(self)@.links,
            r matches Err(e) ==> final(self).skipped_spec() == (if e
                is UnresolvedEdgeEndpoint && old(self).skipped_spec() < usize::MAX {
                old(self).skipped_spec() + 1
            } else {
                old(self).skipped_spec()
            }),
            forall|i: int|
                0 <= i < old(self)@.fixed.len() ==> flow_of(final(self)@, i) >= flow_of(
                    old(self)@,
                    i,
                ),
    {
        let n = self.nodes.len();
        if source >= n || target >= n {
            if self.skipped < usize::MAX {
                self.skipped = self.skipped + 1;
            }
            return Err(LayoutError::UnresolvedEdgeEndpoint { source, target });
        }
        let out_now = self.nodes[source].current_output;
        let in_now = self.nodes[target].current_input;
        if value > u64::MAX - out_now {
            return Err(LayoutError::FlowOverflow { node: source });
        }
        if value > u64::MAX - in_now {
            return Err(LayoutError::FlowOverflow { node: target });
        }
        let id = self.edges.len();
        let ghost link = Link { source, target, value };
        let ghost before = self@;
        self.nodes[source].current_output = out_now + value;
        self.nodes[target].current_input = in_now + value;
        self.edges.push(EdgeRecord { source, target, value, payload });
        proof {
            assert(self@.links =~= before.links.push(link));
            assert(self@.fixed =~= before.fixed);
            assert forall|i: int| 0 <= i < self.nodes@.len() implies {
                &&& (#[trigger] self.nodes@[i]).current_input == inflow(self@.links, i)
                &&& self.nodes@[i].current_output == outflow(self@.links, i)
            } by {
                lemma_link_adds_flow(before.links, link, i);
                assert(old(self).nodes@[i].current_input == inflow(before.links, i));
            }
            assert forall|i: int| 0 <= i < before.fixed.len() implies flow_of(self@, i) >= flow_of(
                before,
                i,
            ) by {
                lemma_flow_grows(before, link, i);
            }
        }
        Ok(id)
    }

    /// The endpoints of every edge, in the order of registration.
    pub fn endpoints(&self) -> (pairs: Vec<(usize, usize)>)
        ensures
            pairs@ == endpoints_of(self@.links),
    {
        let mut pairs: Vec<(usize, usize)> = Vec::new();
        let mut j: usize = 0;
        while j < self.edges.len()
            invariant
                j <= self.edges.len(),
                pairs@ == endpoints_of(self@.links.take(j as int)),
            decreases self.edges.len() - j,
        {
            pairs.push((self.edges[j].source, self.edges[j].target));
            proof {
                assert(pairs@ =~= endpoints_of(self@.links.take(j + 1)));
            }
            j = j + 1;
        }
        assert(self@.links.take(self.edges.len() as int) =~= self@.links);
        pairs
    }
}

/// The endpoints of each link, in order.
pub open spec fn endpoints_of(links: Seq<Link>) -> Seq<(usize, usize)> {
    Seq::new(links.len(), |j: int| (links[j].source, links[j].target))
}

/// What registering an edge returns: the new index, or the reason why the
/// edge was passed over.
pub open spec fn add_edge_outcome(view: FlowView, source: usize, target: usize, value: u64) -> Result<
    usize,
    LayoutError,
> {
    if source >= view.fixed.len() || target >= view.fixed.len() {
        Err(LayoutError::UnresolvedEdgeEndpoint { source, target })
    } else if outflow(view.links, source as int) + value > u64::MAX {
        Err(LayoutError::FlowOverflow { node: source })
    } else if inflow(view.links, target as int) + value > u64::MAX {
        Err(LayoutError::FlowOverflow { node: target })
    } else {
        Ok(view.links.len() as usize)
    }
}

/// Links that stay below `node_count` carry nothing through a node at or
/// beyond it.
proof fn lemma_no_flow_beyond(links: Seq<Link>, node_count: nat, node: int)
    requires
        links_resolved(node_count, links),
        node >= node_count,
    ensures
        inflow(links, node) == 0,
        outflow(links, node) == 0,
    decreases links.len(),
{
    if links.len() > 0 {
        assert(links_resolved(node_count, links.drop_last())) by {
            assert forall|j: int| 0 <= j < links.drop_last().len() implies (
            #[trigger] links.drop_last()[j]).source < node_count && links.drop_last()[j].target
                < node_count by {
                assert(links.drop_last()[j] == links[j]);
            }
        }
        lemma_no_flow_beyond(links.drop_last(), node_count, node);
        assert(links.last() == links[links.len() - 1]);
    }
}

} // verus!
