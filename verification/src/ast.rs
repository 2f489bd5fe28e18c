use vstd::prelude::*;

verus! {

/// How a connection names the ports on one of its ends.
#[derive(Debug, Clone, PartialEq, Default)]
pub enum PortConnectionType {
    Indexed { port: usize },
    Named { port: String },
    Slice { start: usize, end: usize },
    #[default]
    Auto,
}

/// A connection between two nodes, by alias, as written in the source.
#[derive(Debug, Clone, PartialEq, Default)]
pub struct AstNodeConnection {
    pub source_name: String,
    pub sink_name: String,
    pub source_port: PortConnectionType,
    pub sink_port: PortConnectionType,
}

/// The node named as the graph's sink or source.
#[derive(Debug, Clone, PartialEq, Default)]
pub struct NodeSinkSource {
    pub name: String,
}

/// Errors raised while turning a parse tree into an AST.
#[derive(Debug, Clone, PartialEq)]
pub enum BuildAstError {
    ConstructionError(String),
}

} // verus!
