//! A modular audio graph library: MIDI wire format and message store,
//! DSL endpoint resolution, kernel planning and code emission, and the
//! small pieces of node and builder state that carry no sample data.

pub mod ast;
pub mod builder;
pub mod config;
pub mod connection;
pub mod error;
pub mod expand;
pub mod harness;
pub mod ir;
pub mod ir_graph;
pub mod kernel_emit;
pub mod kernel_plan;
pub mod lower;
pub mod midi;
pub mod names;
pub mod node;
pub mod plan;
pub mod nodes;
pub mod ports;
pub mod resolve;
pub mod resources;
pub mod runtime;
pub mod text;
pub mod voice;
