use crate::ports::PortRate;
use crate::runtime::NodeKey;
use vstd::prelude::*;

verus! {

/// One end of an edge: a node and a port on it, at a given rate.
#[derive(Clone, Copy, PartialEq, Eq, Debug, Hash, Structural)]
pub struct ConnectionEntry {
    pub node_key: NodeKey,
    pub port_index: usize,
    pub port_rate: PortRate,
}

/// An edge of the runtime graph.
#[derive(Clone, Copy, PartialEq, Eq, Debug, Hash, Structural)]
pub struct Connection {
    pub source: ConnectionEntry,
    pub sink: ConnectionEntry,
}

/// Errors of the runtime graph.
#[derive(Clone, Copy, PartialEq, Eq, Debug, Structural)]
pub enum GraphError {
    NodeNotFound,
}

} // verus!
