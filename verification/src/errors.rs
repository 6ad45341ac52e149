//! Failures of a layout run.

use vstd::prelude::*;

verus! {

/// Why a layout step gave up or passed over an element.
#[derive(Clone, Copy, Debug, PartialEq, Eq, Structural)]
pub enum LayoutError {
    /// The graph cannot be layered: `node` lies on a cycle, or was never
    /// reached although all of its predecessors were.
    GraphNotAcyclic { node: usize },
    /// An edge names a node that the graph does not hold. The edge is
    /// passed over.
    UnresolvedEdgeEndpoint { source: usize, target: usize },
    /// The flow through `node` would no longer fit its counter. The edge is
    /// passed over.
    FlowOverflow { node: usize },
    /// Fewer than two layers: ribbons have nowhere to run.
    DegenerateLayoutGeometry,
}

} // verus!
