//! A minimal runtime for node-based dataflow programs.
//!
//! The crate exposes
//!
//! * [`flows::Flow`], the graph of nodes and port-to-port connections, with
//!   the latched value of every output and an activation state per input;
//! * [`flows::executors::TopoWithLoops`], an executor that propagates data from
//!   a seed node in topological order and makes progress across cycles;
//! * the [`nodes::Node`] trait, which every node implements.
//!
//! The runtime is generic over the type of the values that travel on edges.
//! The graph invariants are stated over [`flows::FlowView`] and proved to hold
//! after every operation.
use vstd::prelude::*;

pub mod flows;
pub mod nodes;

verus! {

/// The errors reported by the runtime.
#[derive(Debug, Clone, Copy, PartialEq, Eq, Structural)]
pub enum RcErr {
    /// A generic failure; also what an executor reports when it gives up.
    Generic,
    /// The input of a connection already has a predecessor.
    InputAlreadyConnected,
    /// A port alias that does not name a port of the right direction, or,
    /// for `disconnect`, two ports that are not connected.
    InvalidPort,
    /// A list of input states whose length differs from the node's input count.
    PortsMissmatch,
    /// A node id that is not in the flow.
    NodeNotFound,
    /// The two ends of a connection carry different port kinds.
    PortTypesMismatch,
}

pub type RcRes<T> = Result<T, RcErr>;

} // verus!
