//! Layered layout of directed acyclic flow graphs.
//!
//! The crate assigns the nodes of a flow graph to layers, orders the nodes
//! inside each layer, scores edge crossings and stacks the ribbons that
//! leave and enter each node, all in whole numbers; scaling to a drawing
//! surface is left to the caller.
//!
//! - [`graph`]: the flow graph and the counters of its nodes.
//! - [`layering`]: longest-path layers along a topological order.
//! - [`sankey`]: the layers of a graph, by petgraph's topological walk.
//! - [`orderer`]: ordering each layer by barycenter or median.
//! - [`crossing`]: crossings between segments, and their score.
//! - [`solver`]: exact ordering of small layers, by itertools'
//!   permutations.
//! - [`ribbons`]: stacking nodes and ribbons in units of flow.
//! - [`ranking`]: the stable sort behind the orderings.
//! - [`crs`], [`models`]: the study graph and its records.
//!
//! Every function is proved against the contract in its header, but for the
//! two that call into petgraph and itertools: their contracts are taken on
//! trust, and say so.

pub mod crossing;
pub mod crs;
pub mod errors;
pub mod graph;
pub mod layering;
pub mod models;
pub mod orderer;
pub mod ranking;
pub mod ribbons;
pub mod sankey;
pub mod solver;

pub use crate::crs::create_crs_graph;
