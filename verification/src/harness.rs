//! Runtimes holding a single node as their sink, for exercising one node.
use crate::config::Config;
use crate::node::{DynNode, LegatoNode};
use crate::ports::{audio_ports, positional_layout};
use crate::runtime::{build_runtime, NodeKey, Runtime};
use crate::text::push_str;
use vstd::prelude::*;

verus! {

/// `rt` holds exactly `node`, named `test node` of kind `test`, under the
/// first key, as its sink, with no edges, the given config and two
/// exterior audio outputs.
pub open spec fn single_node_runtime(rt: Runtime, node: DynNode, config: Config) -> bool {
    &&& rt.wf()
    &&& rt.config() == config
    &&& positional_layout(rt.graph_ports(), 0, 2)
    &&& rt.key_bound() == 1
    &&& rt.contains(NodeKey(0))
    &&& rt.node(NodeKey(0)).name_view()@ == "test node"@
    &&& rt.node(NodeKey(0)).kind_view()@ == "test"@
    &&& rt.node(NodeKey(0)).inner() == node
    &&& rt.sink() == Some(NodeKey(0))
    &&& rt.edges().len() == 0
}

/// A stereo runtime at `sr` with blocks of `block_size` samples, holding
/// `node` as its sink.
pub fn get_node_test_harness_stereo(node: DynNode, sr: usize, block_size: usize) -> (rt: Runtime)
    ensures
        single_node_runtime(
            rt,
            node,
            Config { sample_rate: sr, block_size, channels: 2, initial_graph_capacity: 0 },
        ),
{
    let config = Config { sample_rate: sr, block_size, channels: 2, initial_graph_capacity: 0 };
    let ports = audio_ports(0, 2);
    let mut runtime = build_runtime(config, ports);
    let mut name = String::new();
    push_str(&mut name, "test node");
    let mut kind = String::new();
    push_str(&mut kind, "test");
    assert(name@ =~= "test node"@);
    assert(kind@ =~= "test"@);
    let id = runtime.add_node(LegatoNode::new(name, kind, node));
    assert(id == NodeKey(0));
    let _ = runtime.set_sink_key(id);
    runtime
}

/// A stereo runtime at 48 kHz with blocks of 4096 samples, holding `node`
/// as its sink.
pub fn get_node_test_harness_stereo_4096(node: DynNode) -> (rt: Runtime)
    ensures
        single_node_runtime(
            rt,
            node,
            Config { sample_rate: 48_000, block_size: 4096, channels: 2, initial_graph_capacity: 0 },
        ),
{
    get_node_test_harness_stereo(node, 48_000, 4096)
}

} // verus!
