//! The node and edge store that the builder fills: nodes under stable keys,
//! directed edges between ports of stored nodes, and the sink node.
use crate::config::Config;
use crate::connection::{Connection, GraphError};
use crate::node::LegatoNode;
use crate::ports::Ports;
use vstd::prelude::*;

verus! {

/// Identifies a node in the runtime. Keys are never reused.
#[derive(Clone, Copy, PartialEq, Eq, Debug, Hash, Structural)]
pub struct NodeKey(pub usize);

/// The runtime graph as built.
pub struct Runtime {
    config: Config,
    ports: Ports,
    nodes: Vec<Option<LegatoNode>>,
    edges: Vec<Connection>,
    sink_key: Option<NodeKey>,
}

/// `key` names a stored node of `nodes`.
pub open spec fn stored(nodes: Seq<Option<LegatoNode>>, key: NodeKey) -> bool {
    key.0 < nodes.len() && nodes[key.0 as int] is Some
}

impl Runtime {
    /// `key` names a stored node.
    pub closed spec fn contains(&self, key: NodeKey) -> bool {
        stored(self.nodes@, key)
    }

    /// The node stored under `key`.
    pub closed spec fn node(&self, key: NodeKey) -> LegatoNode {
        self.nodes@[key.0 as int]->Some_0
    }

    /// Every key handed out so far is below this bound.
    pub closed spec fn key_bound(&self) -> nat {
        self.nodes@.len()
    }

    /// The edges, in insertion order.
    pub closed spec fn edges(&self) -> Seq<Connection> {
        self.edges@
    }

    /// The sink node, once set.
    pub closed spec fn sink(&self) -> Option<NodeKey> {
        self.sink_key
    }

    pub closed spec fn config(&self) -> Config {
        self.config
    }

    /// The graph's own exterior ports.
    pub closed spec fn graph_ports(&self) -> Ports {
        self.ports
    }

    /// Every edge joins two stored nodes.
    pub closed spec fn wf(&self) -> bool {
        forall|i: int|
            0 <= i < self.edges@.len() ==> stored(self.nodes@, (#[trigger] self.edges@[i]).source.node_key)
                && stored(self.nodes@, self.edges@[i].sink.node_key)
    }

    /// The nodes other than `key` are as they were in `old`.
    pub open spec fn others_unchanged(&self, old: &Runtime, key: NodeKey) -> bool {
        forall|k: NodeKey|
            k != key ==> (#[trigger] self.contains(k) == old.contains(k)) && (old.contains(k)
                ==> self.node(k) == old.node(k))
    }

    fn has(&self, key: NodeKey) -> (r: bool)
        ensures
            r == self.contains(key),
    {
        key.0 < self.nodes.len() && self.nodes[key.0].is_some()
    }

    /// Store a node under a fresh key.
    pub fn add_node(&mut self, node: LegatoNode) -> (key: NodeKey)
        requires
            old(self).wf(),
        ensures
            final(self).wf(),
            !old(self).contains(key),
            key.0 == old(self).key_bound(),
            final(self).key_bound() == old(self).key_bound() + 1,
            final(self).contains(key),
            final(self).node(key) == node,
            final(self).others_unchanged(old(self), key),
            final(self).edges() == old(self).edges(),
            final(self).sink() == old(self).sink(),
            final(self).config() == old(self).config(),
            final(self).graph_ports() == old(self).graph_ports(),
    {
        let key = NodeKey(self.nodes.len());
        self.nodes.push(Some(node));
        proof {
            assert forall|i: int| 0 <= i < self.edges@.len() implies stored(
                self.nodes@,
                (#[trigger] self.edges@[i]).source.node_key,
            ) && stored(self.nodes@, self.edges@[i].sink.node_key) by {
                assert(stored(old(self).nodes@, self.edges@[i].source.node_key));
                assert(stored(old(self).nodes@, self.edges@[i].sink.node_key));
            }
        }
        key
    }

    /// Add an edge between two stored nodes.
    pub fn add_edge(&mut self, connection: Connection) -> (r: Result<(), GraphError>)
        requires
            old(self).wf(),
        ensures
            final(self).wf(),
            r is Ok <==> old(self).contains(connection.source.node_key) && old(self).contains(
                connection.sink.node_key,
            ),
            r is Ok ==> final(self).edges() == old(self).edges().push(connection),
            r is Err ==> final(self).edges() == old(self).edges() && r == Err::<(), GraphError>(
                GraphError::NodeNotFound,
            ),
            final(self).key_bound() == old(self).key_bound(),
            forall|k: NodeKey| #[trigger] final(self).contains(k) == old(self).contains(k),
            forall|k: NodeKey| old(self).contains(k) ==> #[trigger] final(self).node(k) == old(self).node(k),
            final(self).sink() == old(self).sink(),
            final(self).config() == old(self).config(),
            final(self).graph_ports() == old(self).graph_ports(),
    {
        if self.has(connection.source.node_key) && self.has(connection.sink.node_key) {
            self.edges.push(connection);
            Ok(())
        } else {
            Err(GraphError::NodeNotFound)
        }
    }

    /// The port layout of a stored node.
    pub fn get_node_ports(&self, key: &NodeKey) -> (r: &Ports)
        requires
            self.contains(*key),
        ensures
            *r == self.node(*key).layout(),
    {
        self.nodes[key.0].as_ref().unwrap().ports()
    }

    /// Make a stored node the graph's sink.
    pub fn set_sink_key(&mut self, key: NodeKey) -> (r: Result<(), GraphError>)
        requires
            old(self).wf(),
        ensures
            final(self).wf(),
            r is Ok <==> old(self).contains(key),
            r is Ok ==> final(self).sink() == Some(key),
            r is Err ==> final(self).sink() == old(self).sink(),
            final(self).key_bound() == old(self).key_bound(),
            forall|k: NodeKey| #[trigger] final(self).contains(k) == old(self).contains(k),
            forall|k: NodeKey| old(self).contains(k) ==> #[trigger] final(self).node(k) == old(self).node(k),
            final(self).edges() == old(self).edges(),
            final(self).config() == old(self).config(),
            final(self).graph_ports() == old(self).graph_ports(),
    {
        if self.has(key) {
            self.sink_key = Some(key);
            Ok(())
        } else {
            Err(GraphError::NodeNotFound)
        }
    }

    pub fn get_config(&self) -> (c: Config)
        ensures
            c == self.config(),
    {
        self.config
    }

    /// Put `node` in place of the node stored under `key`, if there is one.
    pub fn replace_node(&mut self, key: NodeKey, node: LegatoNode)
        requires
            old(self).wf(),
        ensures
            final(self).wf(),
            old(self).contains(key) ==> final(self).contains(key) && final(self).node(key) == node,
            !old(self).contains(key) ==> !final(self).contains(key),
            final(self).others_unchanged(old(self), key),
            final(self).key_bound() == old(self).key_bound(),
            final(self).edges() == old(self).edges(),
            final(self).sink() == old(self).sink(),
            final(self).config() == old(self).config(),
            final(self).graph_ports() == old(self).graph_ports(),
    {
        if self.has(key) {
            self.nodes.set(key.0, Some(node));
            proof {
                assert forall|i: int| 0 <= i < self.edges@.len() implies stored(
                    self.nodes@,
                    (#[trigger] self.edges@[i]).source.node_key,
                ) && stored(self.nodes@, self.edges@[i].sink.node_key) by {
                    assert(stored(old(self).nodes@, self.edges@[i].source.node_key));
                    assert(stored(old(self).nodes@, self.edges@[i].sink.node_key));
                }
            }
        }
    }

    pub fn get_node(&self, key: &NodeKey) -> (r: Option<&LegatoNode>)
        ensures
            r is Some <==> self.contains(*key),
            r is Some ==> *r->Some_0 == self.node(*key),
    {
        if self.has(*key) {
            self.nodes[key.0].as_ref()
        } else {
            None
        }
    }

    pub fn get_node_mut(&mut self, key: &NodeKey) -> (r: Option<&mut LegatoNode>)
        ensures
            r is Some <==> old(self).contains(*key),
            match r {
                Some(n) => {
                    &&& *n == old(self).node(*key)
                    &&& final(self).contains(*key)
                    &&& final(self).node(*key) == *final(n)
                },
                None => *final(self) == *old(self),
            },
            final(self).others_unchanged(old(self), *key),
            final(self).key_bound() == old(self).key_bound(),
            final(self).edges() == old(self).edges(),
            final(self).sink() == old(self).sink(),
            final(self).config() == old(self).config(),
            final(self).graph_ports() == old(self).graph_ports(),
            final(self).wf() == old(self).wf(),
    {
        if self.has(*key) {
            match &mut self.nodes[key.0] {
                Some(n) => Some(n),
                None => None,
            }
        } else {
            None
        }
    }

    /// Remove a stored node and every edge touching it.
    pub fn remove_node(&mut self, key: NodeKey)
        requires
            old(self).wf(),
        ensures
            final(self).wf(),
            !final(self).contains(key),
            final(self).others_unchanged(old(self), key),
            final(self).key_bound() == old(self).key_bound(),
            final(self).edges() == old(self).edges().filter(
                |c: Connection| c.source.node_key != key && c.sink.node_key != key,
            ),
            final(self).sink() == old(self).sink(),
            final(self).config() == old(self).config(),
            final(self).graph_ports() == old(self).graph_ports(),
    {
        if key.0 < self.nodes.len() {
            self.nodes.set(key.0, None);
        }
        let ghost old_edges = self.edges@;
        let ghost keep = |c: Connection| c.source.node_key != key && c.sink.node_key != key;
        let mut kept: Vec<Connection> = Vec::new();
        let mut i: usize = 0;
        while i < self.edges.len()
            invariant
                self.edges@ == old_edges,
                i <= old_edges.len(),
                kept@ == old_edges.take(i as int).filter(keep),
                keep == (|c: Connection| c.source.node_key != key && c.sink.node_key != key),
            decreases old_edges.len() - i,
        {
            let c = self.edges[i];
            proof {
                reveal_with_fuel(Seq::<_>::filter, 1);
                assert(old_edges.take(i + 1).drop_last() =~= old_edges.take(i as int));
            }
            if c.source.node_key != key && c.sink.node_key != key {
                kept.push(c);
            }
            i = i + 1;
        }
        assert(old_edges.take(i as int) =~= old_edges);
        self.edges = kept;
        proof {
            let s = self.edges@;
            assert forall|j: int| 0 <= j < s.len() implies stored(
                self.nodes@,
                (#[trigger] s[j]).source.node_key,
            ) && stored(self.nodes@, s[j].sink.node_key) by {
                assert(old_edges.filter(keep).contains(s[j]));
                old_edges.lemma_filter_contains_rev(keep, s[j]);
                let m = choose|m: int| 0 <= m < old_edges.len() && old_edges[m] == s[j];
                assert(stored(old(self).nodes@, old_edges[m].source.node_key));
                assert(stored(old(self).nodes@, old_edges[m].sink.node_key));
            }
        }
    }
}

/// A runtime with no nodes, no edges and no sink yet.
pub fn build_runtime(config: Config, ports: Ports) -> (r: Runtime)
    ensures
        r.wf(),
        r.config() == config,
        r.graph_ports() == ports,
        r.key_bound() == 0,
        r.edges().len() == 0,
        r.sink() is None,
        forall|k: NodeKey| !(#[trigger] r.contains(k)),
{
    Runtime { config, ports, nodes: Vec::new(), edges: Vec::new(), sink_key: None }
}

} // verus!
