//! The node handle the runtime stores. Sample processing is not part of this
//! library; a node here is what the graph reads of it: its kind, its
//! identifying state and its port layout.
use crate::nodes::{
    DelayRead, DelayWrite, ExternalInput, HouseholderMixer, MonoFanOut, Noise, Sampler, TrackMixer,
};
use crate::ports::Ports;
use vstd::prelude::*;

verus! {

/// The node a [`LegatoNode`] wraps: one of the library's nodes, or a node
/// implemented elsewhere, known here by its port layout.
pub enum DynNode {
    Noise(Noise),
    MonoFanOut(MonoFanOut),
    TrackMixer(TrackMixer),
    HouseholderMixer(HouseholderMixer),
    ExternalInput(ExternalInput),
    DelayWrite(DelayWrite),
    DelayRead(DelayRead),
    Sampler(Sampler),
    External(Ports),
}

impl DynNode {
    /// The node's port layout.
    pub open spec fn layout(&self) -> Ports {
        match self {
            DynNode::Noise(n) => n.layout(),
            DynNode::MonoFanOut(n) => n.layout(),
            DynNode::TrackMixer(n) => n.layout(),
            DynNode::HouseholderMixer(n) => n.layout(),
            DynNode::ExternalInput(n) => n.layout(),
            DynNode::DelayWrite(n) => n.layout(),
            DynNode::DelayRead(n) => n.layout(),
            DynNode::Sampler(n) => n.layout(),
            DynNode::External(p) => *p,
        }
    }

    /// The same node with the same identifying state and port layout.
    pub open spec fn equivalent(&self, other: &DynNode) -> bool {
        &&& self.layout()@ == other.layout()@
        &&& match (self, other) {
            (DynNode::Noise(a), DynNode::Noise(b)) => a.state() == b.state(),
            (DynNode::MonoFanOut(_), DynNode::MonoFanOut(_)) => true,
            (DynNode::TrackMixer(a), DynNode::TrackMixer(b)) => a.chans_per_track()
                == b.chans_per_track() && a.tracks() == b.tracks(),
            (DynNode::HouseholderMixer(a), DynNode::HouseholderMixer(b)) => a.chans() == b.chans(),
            (DynNode::ExternalInput(a), DynNode::ExternalInput(b)) => a.key() == b.key(),
            (DynNode::DelayWrite(a), DynNode::DelayWrite(b)) => a.delay_line_keys()
                == b.delay_line_keys(),
            (DynNode::DelayRead(a), DynNode::DelayRead(b)) => a.delay_line_keys()
                == b.delay_line_keys() && a.len() == b.len() && a.quality() == b.quality(),
            (DynNode::Sampler(a), DynNode::Sampler(b)) => a.sample_key() == b.sample_key()
                && a.read_pos() == b.read_pos() && a.is_looping() == b.is_looping(),
            (DynNode::External(_), DynNode::External(_)) => true,
            _ => false,
        }
    }

    /// A copy of this node.
    pub fn duplicate(&self) -> (r: DynNode)
        ensures
            r.equivalent(self),
    {
        match self {
            DynNode::Noise(n) => DynNode::Noise(n.duplicate()),
            DynNode::MonoFanOut(n) => DynNode::MonoFanOut(n.duplicate()),
            DynNode::TrackMixer(n) => DynNode::TrackMixer(n.duplicate()),
            DynNode::HouseholderMixer(n) => DynNode::HouseholderMixer(n.duplicate()),
            DynNode::ExternalInput(n) => DynNode::ExternalInput(n.duplicate()),
            DynNode::DelayWrite(n) => DynNode::DelayWrite(n.duplicate()),
            DynNode::DelayRead(n) => DynNode::DelayRead(n.duplicate()),
            DynNode::Sampler(n) => DynNode::Sampler(n.duplicate()),
            DynNode::External(p) => DynNode::External(p.duplicate()),
        }
    }

    /// The node's port layout. It does not change after construction.
    pub fn ports(&self) -> (r: &Ports)
        ensures
            *r == self.layout(),
    {
        match self {
            DynNode::Noise(n) => n.ports(),
            DynNode::MonoFanOut(n) => n.ports(),
            DynNode::TrackMixer(n) => n.ports(),
            DynNode::HouseholderMixer(n) => n.ports(),
            DynNode::ExternalInput(n) => n.ports(),
            DynNode::DelayWrite(n) => n.ports(),
            DynNode::DelayRead(n) => n.ports(),
            DynNode::Sampler(n) => n.ports(),
            DynNode::External(p) => p,
        }
    }
}

/// A small wrapper type for debugging nodes at runtime: a node with the
/// name it is known by and the kind it was created as.
pub struct LegatoNode {
    pub name: String,
    pub node_kind: String,
    node: DynNode,
}

impl LegatoNode {
    /// The node's name.
    pub closed spec fn name_view(&self) -> String {
        self.name
    }

    /// The node's kind.
    pub closed spec fn kind_view(&self) -> String {
        self.node_kind
    }

    /// The wrapped node.
    pub closed spec fn inner(&self) -> DynNode {
        self.node
    }

    /// The wrapped node's port layout.
    pub open spec fn layout(&self) -> Ports {
        self.inner().layout()
    }

    pub fn new(name: String, node_kind: String, node: DynNode) -> (r: Self)
        ensures
            r.name_view() == name,
            r.kind_view() == node_kind,
            r.inner() == node,
    {
        Self { name, node_kind, node }
    }

    /// The node's name.
    pub fn name(&self) -> (r: &String)
        ensures
            *r == self.name_view(),
    {
        &self.name
    }

    /// A copy of this node.
    pub fn duplicate(&self) -> (r: LegatoNode)
        ensures
            r.name_view() == self.name_view(),
            r.kind_view() == self.kind_view(),
            r.inner().equivalent(&self.inner()),
    {
        LegatoNode {
            name: self.name.clone(),
            node_kind: self.node_kind.clone(),
            node: self.node.duplicate(),
        }
    }

    /// The wrapped node's port layout.
    pub fn ports(&self) -> (r: &Ports)
        ensures
            *r == self.layout(),
    {
        self.node.ports()
    }

    pub fn get_node(&self) -> (r: &DynNode)
        ensures
            *r == self.inner(),
    {
        &self.node
    }

    pub fn get_node_mut(&mut self) -> (r: &mut DynNode)
        ensures
            *r == old(self).inner(),
            final(self).inner() == *final(r),
            final(self).name_view() == old(self).name_view(),
            final(self).kind_view() == old(self).kind_view(),
    {
        &mut self.node
    }
}

} // verus!
