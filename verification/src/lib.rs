//! # network-flow
//!
//! Maximum flow (Edmonds-Karp), minimum s-t cut, residual graphs, and multi-commodity flow
//! on networks with whole-number capacities, each with a machine-checked contract.
//!
//! - [`FlowNetwork`]: directed graph with edge capacities
//! - [`FordFulkerson`]: max flow via shortest augmenting paths (Edmonds-Karp)
//! - [`MinCut`]: minimum s-t cut from the max flow
//! - [`ResidualGraph`]: residual capacities of a flow, and a validity check
//! - [`MultiCommodityFlow`]: several source-sink pairs with demands, routed greedily
//!
//! The mathematical model is in [`model`] (flows, cuts, residual reachability); the
//! max-flow min-cut theorem and the other laws that the algorithms rest on are in [`theory`].

pub mod sums;
pub mod model;
pub mod theory;
pub mod matrix;
pub mod network;
mod search;
pub mod max_flow;
pub mod residual;
pub mod min_cut;
pub mod multi;
pub mod laws;

pub use network::FlowNetwork;
pub use max_flow::FordFulkerson;
pub use min_cut::MinCut;
pub use residual::ResidualGraph;
pub use multi::MultiCommodityFlow;
