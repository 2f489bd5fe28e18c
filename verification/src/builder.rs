//! The graph builder. Its states are types, so that each step is only
//! available once the steps it needs have been taken: configure, add nodes,
//! connect them, set the sink.
use crate::ast::PortConnectionType;
use crate::config::Config;
use crate::error::ValidationError;
use crate::names::NameMap;
use crate::node::LegatoNode;
use crate::connection::{Connection, ConnectionEntry};
use crate::kernel_plan::first_named;
use crate::node::DynNode;
use crate::nodes::{MonoFanOut, TrackMixer};
use crate::ports::{positional_layout, PortMeta, PortRate, Ports};
use crate::text::{decimal, push_decimal, str_eq};
use crate::resources::{DelayLineKey, SampleKey};
use crate::runtime::{build_runtime, NodeKey, Runtime};
use crate::text::push_str;
use std::marker::PhantomData;
use vstd::prelude::*;

verus! {

// Typestates for the builder
pub struct Unconfigured;

pub struct Configured;

pub struct ContainsNodes;

pub struct Connected;

pub struct ReadyToBuild;

/// Building from DSL source, where every step is available.
pub struct DslBuilding;

// Which steps each state allows
pub trait CanRegister {}

pub trait CanAddNode {}

pub trait CanConnect {}

pub trait CanApplyPipe {}

pub trait CanSetSink {}

pub trait CanBuild {}

impl CanRegister for Unconfigured {}

impl CanRegister for Configured {}

impl CanRegister for ContainsNodes {}

impl CanAddNode for Configured {}

impl CanAddNode for ContainsNodes {}

impl CanApplyPipe for ContainsNodes {}

impl CanConnect for ContainsNodes {}

impl CanConnect for Connected {}

impl CanSetSink for ContainsNodes {}

impl CanSetSink for Connected {}

impl CanBuild for ReadyToBuild {}

impl CanRegister for DslBuilding {}

impl CanAddNode for DslBuilding {}

impl CanConnect for DslBuilding {}

impl CanApplyPipe for DslBuilding {}

impl CanSetSink for DslBuilding {}

impl CanBuild for DslBuilding {}

/// The nodes a selection covers, taken out of the runtime.
pub enum NodeViewKind {
    Single(LegatoNode),
    Multiple(Vec<LegatoNode>),
}

/// The nodes last added or piped, which the next pipe applies to.
#[derive(Clone, PartialEq, Debug)]
pub enum SelectionKind {
    Single(NodeKey),
    Multiple(Vec<NodeKey>),
}

/// The keys a selection covers, in order.
pub open spec fn selected_keys(s: SelectionKind) -> Seq<NodeKey> {
    match s {
        SelectionKind::Single(k) => seq![k],
        SelectionKind::Multiple(v) => v@,
    }
}

/// A request to connect ports of two nodes.
pub struct AddConnectionProps {
    pub source: NodeKey,
    pub source_kind: PortConnectionType,
    pub sink: NodeKey,
    pub sink_kind: PortConnectionType,
    /// Whether audio or control ports are matched.
    pub rate: PortRate,
}

/// A port named by index, by name, or left to the builder.
pub enum AddConnectionKind {
    Index(usize),
    Named(&'static str),
    Auto,
}

/// The graph builder, in state `State`.
pub struct LegatoBuilder<State> {
    runtime: Runtime,
    // Lookup from alias to NodeKey
    working_name_lookup: NameMap<NodeKey>,
    // When adding a node or piping, this tracks the node keys for pipes
    last_selection: Option<SelectionKind>,
    _state: PhantomData<State>,
}

impl<S> LegatoBuilder<S> {
    /// The graph built so far.
    pub closed spec fn runtime(&self) -> Runtime {
        self.runtime
    }

    /// The node an alias names.
    pub closed spec fn lookup(&self, alias: Seq<char>) -> Option<NodeKey> {
        self.working_name_lookup.lookup(alias)
    }

    /// The nodes the next pipe applies to.
    pub closed spec fn last_selection(&self) -> Option<SelectionKind> {
        self.last_selection
    }

    /// The builder's graph and alias lookup are consistent.
    pub closed spec fn wf(&self) -> bool {
        self.runtime.wf() && self.working_name_lookup.wf()
    }

    /// The same builder in another state.
    fn into_state<T>(self) -> (b: LegatoBuilder<T>)
        ensures
            b.runtime() == self.runtime(),
            b.wf() == self.wf(),
            forall|n: Seq<char>| #[trigger] b.lookup(n) == self.lookup(n),
            b.last_selection() == self.last_selection(),
    {
        LegatoBuilder {
            runtime: self.runtime,
            working_name_lookup: self.working_name_lookup,
            last_selection: self.last_selection,
            _state: PhantomData,
        }
    }
}

impl LegatoBuilder<Unconfigured> {
    /// A configured builder over an empty graph with the exterior `ports`.
    pub fn new(config: Config, ports: Ports) -> (b: LegatoBuilder<Configured>)
        ensures
            b.wf(),
            b.runtime().config() == config,
            b.runtime().graph_ports() == ports,
            b.runtime().key_bound() == 0,
            b.runtime().edges().len() == 0,
            b.runtime().sink() is None,
            forall|k: NodeKey| !(#[trigger] b.runtime().contains(k)),
            forall|n: Seq<char>| #[trigger] b.lookup(n) is None,
            b.last_selection() is None,
    {
        let runtime = build_runtime(config, ports);
        LegatoBuilder::<Configured> {
            runtime,
            working_name_lookup: NameMap::new(),
            last_selection: None,
            _state: PhantomData,
        }
    }
}

impl<S: CanAddNode> LegatoBuilder<S> {
    /// Add a node as it is, known by `alias` for connections and debugging.
    pub fn add_node_raw(self, node: LegatoNode, alias: &String) -> (b: LegatoBuilder<ContainsNodes>)
        requires
            self.wf(),
        ensures
            b.wf(),
            ({
                let key = NodeKey(self.runtime().key_bound() as usize);
                &&& !self.runtime().contains(key)
                &&& b.runtime().contains(key)
                &&& b.runtime().node(key) == node
                &&& b.runtime().key_bound() == self.runtime().key_bound() + 1
                &&& b.runtime().others_unchanged(&self.runtime(), key)
                &&& b.lookup(alias@) == Some(key)
                &&& b.last_selection() == Some(SelectionKind::Single(key))
            }),
            forall|n: Seq<char>| n != alias@ ==> #[trigger] b.lookup(n) == self.lookup(n),
            b.runtime().edges() == self.runtime().edges(),
            b.runtime().sink() == self.runtime().sink(),
            b.runtime().config() == self.runtime().config(),
    {
        let mut this = self;
        let key = this.runtime.add_node(node);
        this.last_selection = Some(SelectionKind::Single(key));
        this.working_name_lookup.insert(alias.clone(), key);
        this.into_state()
    }
}

fn push_key(s: &mut String, k: NodeKey)
    ensures
        final(s)@ == old(s)@ + key_text(k),
{
    push_str(s, "NodeKey(");
    push_decimal(s, k.0);
    push_str(s, ")");
}

/// The name of a mixer node inserted between `source` and `sink`.
fn mixer_name(prefix: &str, source: NodeKey, sink: NodeKey) -> (r: String)
    ensures
        r@ == prefix@ + key_text(source) + key_text(sink),
{
    let mut s = String::new();
    push_str(&mut s, prefix);
    push_key(&mut s, source);
    push_key(&mut s, sink);
    s
}

fn range_indices(start: usize, end: usize) -> (r: Vec<usize>)
    requires
        start <= end,
    ensures
        r@ == Seq::new((end - start) as nat, |i: int| (start + i) as usize),
{
    let mut r: Vec<usize> = Vec::new();
    let mut k = start;
    while k < end
        invariant
            start <= k <= end,
            r@ == Seq::new((k - start) as nat, |i: int| (start + i) as usize),
        decreases end - k,
    {
        r.push(k);
        k = k + 1;
        assert(r@ =~= Seq::new((k - start) as nat, |i: int| (start + i) as usize));
    }
    r
}

fn named_index(ports: &Vec<PortMeta>, name: &String) -> (r: usize)
    requires
        first_named(ports@, name@) is Some,
    ensures
        r == ports@[first_named(ports@, name@)->Some_0].index,
{
    let mut k: usize = 0;
    while k < ports.len()
        invariant
            first_named(ports@, name@) is Some,
            k <= ports@.len(),
            forall|j: int| 0 <= j < k ==> (#[trigger] ports@[j]).name@ != name@,
        decreases ports@.len() - k,
    {
        if str_eq(ports[k].name.as_str(), name.as_str()) {
            proof {
                let w = first_named(ports@, name@)->Some_0;
                if w > k {
                    assert(ports@[k as int].name@ != name@);
                }
            }
            return ports[k].index;
        }
        k = k + 1;
    }
    proof {
        let w = first_named(ports@, name@)->Some_0;
        assert(ports@[w].name@ == name@);
    }
    0
}

fn port_indices(kind: &PortConnectionType, ports: &Vec<PortMeta>) -> (r: Vec<usize>)
    requires
        port_kind_resolvable(*kind, ports@),
    ensures
        r@ == spec_port_indices(*kind, ports@),
{
    match kind {
        PortConnectionType::Auto => range_indices(0, ports.len()),
        PortConnectionType::Indexed { port } => {
            let mut v: Vec<usize> = Vec::new();
            v.push(*port);
            assert(v@ =~= seq![*port]);
            v
        },
        PortConnectionType::Named { port } => {
            let mut v: Vec<usize> = Vec::new();
            v.push(named_index(ports, port));
            assert(v@ =~= spec_port_indices(*kind, ports@));
            v
        },
        PortConnectionType::Slice { start, end } => range_indices(*start, *end),
    }
}

fn one_to_one(runtime: &mut Runtime, props: AddConnectionProps, source_index: usize, sink_index: usize)
    requires
        old(runtime).wf(),
        old(runtime).contains(props.source),
        old(runtime).contains(props.sink),
    ensures
        final(runtime).wf(),
        final(runtime).edges() == old(runtime).edges().push(
            edge(props.source, source_index, props.sink, sink_index, props.rate),
        ),
        final(runtime).key_bound() == old(runtime).key_bound(),
        forall|k: NodeKey| #[trigger] final(runtime).contains(k) == old(runtime).contains(k),
        forall|k: NodeKey| old(runtime).contains(k) ==> #[trigger] final(runtime).node(k) == old(runtime).node(k),
        final(runtime).sink() == old(runtime).sink(),
        final(runtime).config() == old(runtime).config(),
{
    let c = Connection {
        source: ConnectionEntry { node_key: props.source, port_index: source_index, port_rate: props.rate },
        sink: ConnectionEntry { node_key: props.sink, port_index: sink_index, port_rate: props.rate },
    };
    let _ = runtime.add_edge(c);
}

/// Fan one source port out to `sink_indicies` through a unity-gain mixer.
fn one_to_n(runtime: &mut Runtime, props: AddConnectionProps, source_index: usize, sink_indicies: &[usize])
    requires
        old(runtime).wf(),
        old(runtime).contains(props.source),
        old(runtime).contains(props.sink),
    ensures
        final(runtime).wf(),
        ({
            let mixer = NodeKey(old(runtime).key_bound() as usize);
            &&& final(runtime).edges() == old(runtime).edges() + seq![
                edge(props.source, source_index, mixer, 0, props.rate),
            ] + Seq::new(
                sink_indicies@.len(),
                |i: int| edge(mixer, 0, props.sink, sink_indicies@[i], props.rate),
            )
            &&& final(runtime).contains(mixer)
            &&& !old(runtime).contains(mixer)
            &&& final(runtime).others_unchanged(old(runtime), mixer)
            &&& final(runtime).node(mixer).name_view()@ == "MonoFanOut"@ + key_text(props.source)
                + key_text(props.sink)
            &&& final(runtime).node(mixer).kind_view()@ == "MonoFanOut"@
            &&& final(runtime).node(mixer).inner() is MonoFanOut
            &&& positional_layout(final(runtime).node(mixer).layout(), 1, sink_indicies@.len())
        }),
        final(runtime).key_bound() == old(runtime).key_bound() + 1,
        final(runtime).sink() == old(runtime).sink(),
        final(runtime).config() == old(runtime).config(),
{
    let n = sink_indicies.len();
    let mut kind = String::new();
    push_str(&mut kind, "MonoFanOut");
    let node = LegatoNode::new(
        mixer_name("MonoFanOut", props.source, props.sink),
        kind,
        DynNode::MonoFanOut(MonoFanOut::new(n)),
    );
    let mixer = runtime.add_node(node);
    let ghost base = runtime.edges();
    assert(base == old(runtime).edges());
    let _ = runtime.add_edge(
        Connection {
            source: ConnectionEntry { node_key: props.source, port_index: source_index, port_rate: props.rate },
            sink: ConnectionEntry { node_key: mixer, port_index: 0, port_rate: props.rate },
        },
    );
    let ghost first = runtime.edges();
    let ghost after = *runtime;
    let mut i: usize = 0;
    while i < n
        invariant
            runtime.key_bound() == after.key_bound(),
            forall|k: NodeKey| #[trigger] runtime.contains(k) == after.contains(k),
            forall|k: NodeKey| after.contains(k) ==> #[trigger] runtime.node(k) == after.node(k),
            runtime.sink() == after.sink(),
            runtime.config() == after.config(),
            n == sink_indicies@.len(),
            i <= n,
            runtime.wf(),
            runtime.contains(props.sink),
            runtime.contains(mixer),
            runtime.edges() == first + Seq::new(
                i as nat,
                |j: int| edge(mixer, 0, props.sink, sink_indicies@[j], props.rate),
            ),
        decreases n - i,
    {
        let _ = runtime.add_edge(
            Connection {
                source: ConnectionEntry { node_key: mixer, port_index: 0, port_rate: props.rate },
                sink: ConnectionEntry { node_key: props.sink, port_index: sink_indicies[i], port_rate: props.rate },
            },
        );
        i = i + 1;
        assert(runtime.edges() =~= first + Seq::new(
            i as nat,
            |j: int| edge(mixer, 0, props.sink, sink_indicies@[j], props.rate),
        ));
    }
}

/// Sum `source_indicies` into one sink port through a track mixer.
fn n_to_one(runtime: &mut Runtime, props: AddConnectionProps, source_indicies: &[usize], sink_index: usize)
    requires
        old(runtime).wf(),
        old(runtime).contains(props.source),
        old(runtime).contains(props.sink),
    ensures
        final(runtime).wf(),
        ({
            let mixer = NodeKey(old(runtime).key_bound() as usize);
            &&& final(runtime).edges() == old(runtime).edges() + Seq::new(
                source_indicies@.len(),
                |i: int| edge(props.source, source_indicies@[i], mixer, i as usize, props.rate),
            ) + seq![edge(mixer, 0, props.sink, sink_index, props.rate)]
            &&& final(runtime).contains(mixer)
            &&& !old(runtime).contains(mixer)
            &&& final(runtime).others_unchanged(old(runtime), mixer)
            &&& final(runtime).node(mixer).name_view()@ == "TrackMixer"@ + key_text(props.source)
                + key_text(props.sink)
            &&& final(runtime).node(mixer).kind_view()@ == "TrackMixer"@
            &&& final(runtime).node(mixer).inner() is TrackMixer
            &&& positional_layout(final(runtime).node(mixer).layout(), source_indicies@.len(), 1)
        }),
        final(runtime).key_bound() == old(runtime).key_bound() + 1,
        final(runtime).sink() == old(runtime).sink(),
        final(runtime).config() == old(runtime).config(),
{
    let n = source_indicies.len();
    let mut kind = String::new();
    push_str(&mut kind, "TrackMixer");
    let node = LegatoNode::new(
        mixer_name("TrackMixer", props.source, props.sink),
        kind,
        DynNode::TrackMixer(TrackMixer::new(1, n)),
    );
    let mixer = runtime.add_node(node);
    let ghost base = runtime.edges();
    let ghost after = *runtime;
    let mut i: usize = 0;
    while i < n
        invariant
            runtime.key_bound() == after.key_bound(),
            forall|k: NodeKey| #[trigger] runtime.contains(k) == after.contains(k),
            forall|k: NodeKey| after.contains(k) ==> #[trigger] runtime.node(k) == after.node(k),
            runtime.sink() == after.sink(),
            runtime.config() == after.config(),
            n == source_indicies@.len(),
            i <= n,
            runtime.wf(),
            runtime.contains(props.source),
            runtime.contains(props.sink),
            runtime.contains(mixer),
            runtime.edges() == base + Seq::new(
                i as nat,
                |j: int| edge(props.source, source_indicies@[j], mixer, j as usize, props.rate),
            ),
        decreases n - i,
    {
        let _ = runtime.add_edge(
            Connection {
                source: ConnectionEntry { node_key: props.source, port_index: source_indicies[i], port_rate: props.rate },
                sink: ConnectionEntry { node_key: mixer, port_index: i, port_rate: props.rate },
            },
        );
        i = i + 1;
        assert(runtime.edges() =~= base + Seq::new(
            i as nat,
            |j: int| edge(props.source, source_indicies@[j], mixer, j as usize, props.rate),
        ));
    }
    let _ = runtime.add_edge(
        Connection {
            source: ConnectionEntry { node_key: mixer, port_index: 0, port_rate: props.rate },
            sink: ConnectionEntry { node_key: props.sink, port_index: sink_index, port_rate: props.rate },
        },
    );
}

/// Wire equal numbers of source and sink ports pairwise.
fn n_to_n(runtime: &mut Runtime, props: AddConnectionProps, source_indicies: &[usize], sink_indicies: &[usize])
    requires
        old(runtime).wf(),
        old(runtime).contains(props.source),
        old(runtime).contains(props.sink),
        source_indicies@.len() == sink_indicies@.len(),
    ensures
        final(runtime).wf(),
        final(runtime).edges() == old(runtime).edges() + Seq::new(
            source_indicies@.len(),
            |i: int| edge(props.source, source_indicies@[i], props.sink, sink_indicies@[i], props.rate),
        ),
        final(runtime).key_bound() == old(runtime).key_bound(),
        forall|k: NodeKey| #[trigger] final(runtime).contains(k) == old(runtime).contains(k),
        forall|k: NodeKey| old(runtime).contains(k) ==> #[trigger] final(runtime).node(k) == old(runtime).node(k),
        final(runtime).sink() == old(runtime).sink(),
        final(runtime).config() == old(runtime).config(),
{
    let n = source_indicies.len();
    let ghost base = runtime.edges();
    let mut i: usize = 0;
    while i < n
        invariant
            n == source_indicies@.len(),
            n == sink_indicies@.len(),
            i <= n,
            runtime.wf(),
            runtime.contains(props.source),
            runtime.contains(props.sink),
            runtime.key_bound() == old(runtime).key_bound(),
            forall|k: NodeKey| #[trigger] runtime.contains(k) == old(runtime).contains(k),
            forall|k: NodeKey| old(runtime).contains(k) ==> #[trigger] runtime.node(k) == old(runtime).node(k),
            runtime.sink() == old(runtime).sink(),
            runtime.config() == old(runtime).config(),
            base == old(runtime).edges(),
            runtime.edges() == base + Seq::new(
                i as nat,
                |j: int| edge(props.source, source_indicies@[j], props.sink, sink_indicies@[j], props.rate),
            ),
        decreases n - i,
    {
        let _ = runtime.add_edge(
            Connection {
                source: ConnectionEntry { node_key: props.source, port_index: source_indicies[i], port_rate: props.rate },
                sink: ConnectionEntry { node_key: props.sink, port_index: sink_indicies[i], port_rate: props.rate },
            },
        );
        i = i + 1;
        assert(runtime.edges() =~= base + Seq::new(
            i as nat,
            |j: int| edge(props.source, source_indicies@[j], props.sink, sink_indicies@[j], props.rate),
        ));
    }
}

/// Wiring these arities inserts a mixer node.
pub open spec fn adds_mixer(n: nat, m: nat) -> bool {
    (n == 1 && m > 1) || (m == 1 && n > 1)
}

/// A connection request the builder can carry out on `rt`: both nodes are
/// stored, both ends resolve, and the arities can be wired.
pub open spec fn connectable(rt: Runtime, props: AddConnectionProps) -> bool {
    &&& rt.contains(props.source)
    &&& rt.contains(props.sink)
    &&& port_kind_resolvable(props.source_kind, source_side_ports(rt, props))
    &&& port_kind_resolvable(props.sink_kind, sink_side_ports(rt, props))
    &&& arity_wireable(source_indices(rt, props).len(), sink_indices(rt, props).len())
}

/// `after` is `before` with the connection `props` wired: the planned edges
/// appended and, for a fan-out or fan-in, the mixer node added under the
/// next key.
pub open spec fn wired(before: Runtime, after: Runtime, props: AddConnectionProps) -> bool {
    let srcs = source_indices(before, props);
    let snks = sink_indices(before, props);
    let mixer = NodeKey(before.key_bound() as usize);
    &&& after.wf()
    &&& after.edges() == before.edges() + planned_edges(
        props.source,
        props.sink,
        props.rate,
        srcs,
        snks,
        mixer,
    )
    &&& after.sink() == before.sink()
    &&& after.config() == before.config()
    &&& if adds_mixer(srcs.len(), snks.len()) {
        &&& after.key_bound() == before.key_bound() + 1
        &&& !before.contains(mixer)
        &&& after.contains(mixer)
        &&& after.others_unchanged(&before, mixer)
        &&& if srcs.len() == 1 {
            &&& after.node(mixer).name_view()@ == "MonoFanOut"@ + key_text(props.source) + key_text(
                props.sink,
            )
            &&& after.node(mixer).kind_view()@ == "MonoFanOut"@
            &&& after.node(mixer).inner() is MonoFanOut
            &&& positional_layout(after.node(mixer).layout(), 1, snks.len())
        } else {
            &&& after.node(mixer).name_view()@ == "TrackMixer"@ + key_text(props.source) + key_text(
                props.sink,
            )
            &&& after.node(mixer).kind_view()@ == "TrackMixer"@
            &&& after.node(mixer).inner() is TrackMixer
            &&& positional_layout(after.node(mixer).layout(), srcs.len(), 1)
        }
    } else {
        &&& after.key_bound() == before.key_bound()
        &&& forall|k: NodeKey| #[trigger] after.contains(k) == before.contains(k)
        &&& forall|k: NodeKey| before.contains(k) ==> #[trigger] after.node(k) == before.node(k)
    }
}

/// Connection `c` runs from port `a` of `src` to port `b` of `snk`, both
/// ends at `rate`.
pub open spec fn joins(c: Connection, src: NodeKey, a: int, snk: NodeKey, b: int, rate: PortRate) -> bool {
    &&& c.source.node_key == src
    &&& c.source.port_index == a
    &&& c.source.port_rate == rate
    &&& c.sink.node_key == snk
    &&& c.sink.port_index == b
    &&& c.sink.port_rate == rate
}

/// What connecting `props` appends to the edges, stated edge by edge over
/// the ports the request names: earlier edges stay; one-to-one adds the
/// single edge from the named source port to the named sink port; equal
/// counts pair the k-th source port with the k-th sink port; a fan-out feeds
/// the mixer's input from the source port and each named sink port from the
/// mixer; a fan-in feeds mixer input k from the k-th source port and the sink
/// port from the mixer.
pub open spec fn wires_named_ports(before: Runtime, after: Runtime, props: AddConnectionProps) -> bool {
    let srcs = source_indices(before, props);
    let snks = sink_indices(before, props);
    let n = srcs.len() as int;
    let m = snks.len() as int;
    let base = before.edges().len() as int;
    let mixer = NodeKey(before.key_bound() as usize);
    let added = after.edges().skip(base);
    &&& after.edges().len() >= base
    &&& after.edges().take(base) == before.edges()
    &&& n == 1 && m == 1 ==> added.len() == 1 && joins(added[0], props.source, srcs[0] as int, props.sink, snks[0] as int, props.rate)
    &&& n == 1 && m > 1 ==> {
        &&& added.len() == m + 1
        &&& joins(added[0], props.source, srcs[0] as int, mixer, 0, props.rate)
        &&& forall|k: int| 0 <= k < m ==> joins(#[trigger] added[k + 1], mixer, 0, props.sink, snks[k] as int, props.rate)
    }
    &&& n > 1 && m == 1 ==> {
        &&& added.len() == n + 1
        &&& forall|k: int| 0 <= k < n ==> joins(#[trigger] added[k], props.source, srcs[k] as int, mixer, k, props.rate)
        &&& joins(added[n], mixer, 0, props.sink, snks[0] as int, props.rate)
    }
    &&& n > 1 && m > 1 ==> {
        &&& added.len() == n
        &&& forall|k: int| 0 <= k < n ==> joins(#[trigger] added[k], props.source, srcs[k] as int, props.sink, snks[k] as int, props.rate)
    }
}

/// Wiring a connection appends exactly the edges between the ports the
/// request names, in the shape `wires_named_ports` states.
pub proof fn lemma_wired_names_ports(before: Runtime, after: Runtime, props: AddConnectionProps)
    requires
        arity_wireable(source_indices(before, props).len(), sink_indices(before, props).len()),
        source_indices(before, props).len() <= usize::MAX,
        wired(before, after, props),
    ensures
        wires_named_ports(before, after, props),
{
    let srcs = source_indices(before, props);
    let snks = sink_indices(before, props);
    let base = before.edges().len() as int;
    let mixer = NodeKey(before.key_bound() as usize);
    let planned = planned_edges(props.source, props.sink, props.rate, srcs, snks, mixer);
    let added = after.edges().skip(base);
    let n = srcs.len() as int;
    let m = snks.len() as int;
    assert(after.edges().take(base) =~= before.edges());
    assert(added =~= planned);
    if n == 1 && m == 1 {
        assert(added[0] == edge(props.source, srcs[0], props.sink, snks[0], props.rate));
    } else if n == 1 {
        let rest = Seq::new(snks.len(), |i: int| edge(mixer, 0, props.sink, snks[i], props.rate));
        assert(planned == seq![edge(props.source, srcs[0], mixer, 0, props.rate)] + rest);
        assert forall|k: int| 0 <= k < m implies joins(#[trigger] added[k + 1], mixer, 0, props.sink, snks[k] as int, props.rate) by {
            assert(added[k + 1] == rest[k]);
        }
    } else if m == 1 {
        let front = Seq::new(srcs.len(), |i: int| edge(props.source, srcs[i], mixer, i as usize, props.rate));
        assert(planned == front + seq![edge(mixer, 0, props.sink, snks[0], props.rate)]);
        assert forall|k: int| 0 <= k < n implies joins(#[trigger] added[k], props.source, srcs[k] as int, mixer, k, props.rate) by {
            assert(added[k] == front[k]);
        }
        assert(added[n] == edge(mixer, 0, props.sink, snks[0], props.rate));
    } else {
        assert forall|k: int| 0 <= k < n implies joins(#[trigger] added[k], props.source, srcs[k] as int, props.sink, snks[k] as int, props.rate) by {
            assert(added[k] == edge(props.source, srcs[k], props.sink, snks[k], props.rate));
        }
    }
}

impl<S: CanConnect> LegatoBuilder<S> {
    fn connect_ref_self(&mut self, connection: AddConnectionProps)
        requires
            old(self).wf(),
            connectable(old(self).runtime(), connection),
        ensures
            final(self).wf(),
            wired(old(self).runtime(), final(self).runtime(), connection),
            wires_named_ports(old(self).runtime(), final(self).runtime(), connection),
            forall|n: Seq<char>| #[trigger] final(self).lookup(n) == old(self).lookup(n),
            final(self).last_selection() == old(self).last_selection(),
    {
        let ghost before = self.runtime;
        let source_indicies: Vec<usize> = match &connection.source_kind {
            PortConnectionType::Indexed { port } => {
                let mut v: Vec<usize> = Vec::new();
                v.push(*port);
                assert(v@ =~= seq![*port]);
                v
            },
            PortConnectionType::Slice { start, end } => range_indices(*start, *end),
            _ => {
                let ports = self.runtime.get_node_ports(&connection.source);
                match connection.rate {
                    PortRate::Audio => port_indices(&connection.source_kind, &ports.audio_out),
                    PortRate::Control => port_indices(&connection.source_kind, &ports.control_out),
                }
            },
        };
        let sink_indicies: Vec<usize> = match &connection.sink_kind {
            PortConnectionType::Indexed { port } => {
                let mut v: Vec<usize> = Vec::new();
                v.push(*port);
                assert(v@ =~= seq![*port]);
                v
            },
            PortConnectionType::Slice { start, end } => range_indices(*start, *end),
            _ => {
                let ports = self.runtime.get_node_ports(&connection.sink);
                match connection.rate {
                    PortRate::Audio => port_indices(&connection.sink_kind, &ports.audio_in),
                    PortRate::Control => port_indices(&connection.sink_kind, &ports.control_in),
                }
            },
        };
        assert(source_indicies@ == source_indices(before, connection));
        assert(sink_indicies@ == sink_indices(before, connection));
        let source_arity = source_indicies.len();
        let sink_arity = sink_indicies.len();
        let ghost mixer = NodeKey(before.key_bound() as usize);
        if source_arity == 1 && sink_arity == 1 {
            let a = source_indicies[0];
            let b = sink_indicies[0];
            let ghost e = edge(connection.source, a, connection.sink, b, connection.rate);
            one_to_one(&mut self.runtime, connection, a, b);
            assert(before.edges().push(e) =~= before.edges() + seq![e]);
        } else if source_arity == 1 {
            let a = source_indicies[0];
            let ghost e = edge(connection.source, a, mixer, 0, connection.rate);
            let ghost rest = Seq::new(
                sink_indicies@.len(),
                |i: int| edge(mixer, 0, connection.sink, sink_indicies@[i], connection.rate),
            );
            one_to_n(&mut self.runtime, connection, a, sink_indicies.as_slice());
            assert(before.edges() + seq![e] + rest =~= before.edges() + (seq![e] + rest));
        } else if sink_arity == 1 {
            let b = sink_indicies[0];
            let ghost e = edge(mixer, 0, connection.sink, b, connection.rate);
            let ghost front = Seq::new(
                source_indicies@.len(),
                |i: int| edge(connection.source, source_indicies@[i], mixer, i as usize, connection.rate),
            );
            n_to_one(&mut self.runtime, connection, source_indicies.as_slice(), b);
            assert(before.edges() + front + seq![e] =~= before.edges() + (front + seq![e]));
        } else {
            n_to_n(&mut self.runtime, connection, source_indicies.as_slice(), sink_indicies.as_slice());
        }
        proof {
            lemma_wired_names_ports(before, self.runtime, connection);
        }
    }

    /// Connect ports of two stored nodes. A one-to-many connection fans out
    /// through an inserted `MonoFanOut`, a many-to-one connection sums
    /// through an inserted `TrackMixer`, equal counts are wired pairwise.
    pub fn connect(self, connection: AddConnectionProps) -> (b: LegatoBuilder<Connected>)
        requires
            self.wf(),
            connectable(self.runtime(), connection),
        ensures
            b.wf(),
            wired(self.runtime(), b.runtime(), connection),
            wires_named_ports(self.runtime(), b.runtime(), connection),
            forall|n: Seq<char>| #[trigger] b.lookup(n) == self.lookup(n),
            b.last_selection() == self.last_selection(),
    {
        let mut this = self;
        this.connect_ref_self(connection);
        this.into_state()
    }
}

impl<S: CanSetSink> LegatoBuilder<S> {
    /// Make a stored node the graph's sink.
    pub fn set_sink(self, key: NodeKey) -> (b: LegatoBuilder<ReadyToBuild>)
        requires
            self.wf(),
            self.runtime().contains(key),
        ensures
            b.wf(),
            b.runtime().sink() == Some(key),
            b.runtime().key_bound() == self.runtime().key_bound(),
            forall|k: NodeKey| #[trigger] b.runtime().contains(k) == self.runtime().contains(k),
            forall|k: NodeKey|
                self.runtime().contains(k) ==> #[trigger] b.runtime().node(k) == self.runtime().node(k),
            b.runtime().edges() == self.runtime().edges(),
            forall|n: Seq<char>| #[trigger] b.lookup(n) == self.lookup(n),
            b.last_selection() == self.last_selection(),
    {
        let mut this = self;
        let r = this.runtime.set_sink_key(key);
        this.into_state()
    }
}

/// The port indices one end of a connection names in the list `ports`.
pub open spec fn spec_port_indices(kind: PortConnectionType, ports: Seq<PortMeta>) -> Seq<usize> {
    match kind {
        PortConnectionType::Auto => Seq::new(ports.len(), |i: int| i as usize),
        PortConnectionType::Indexed { port } => seq![port],
        PortConnectionType::Named { port } => seq![ports[first_named(ports, port@)->Some_0].index],
        PortConnectionType::Slice { start, end } => Seq::new(
            (end - start) as nat,
            |i: int| (start + i) as usize,
        ),
    }
}

/// One end of a connection can be resolved: a named port exists, and a
/// slice does not end before it starts.
pub open spec fn port_kind_resolvable(kind: PortConnectionType, ports: Seq<PortMeta>) -> bool {
    match kind {
        PortConnectionType::Named { port } => first_named(ports, port@) is Some,
        PortConnectionType::Slice { start, end } => start <= end,
        _ => true,
    }
}

/// The output ports of the source node at the connection's rate.
pub open spec fn source_side_ports(rt: Runtime, props: AddConnectionProps) -> Seq<PortMeta> {
    let layout = rt.node(props.source).layout();
    match props.rate {
        PortRate::Audio => layout.audio_out@,
        PortRate::Control => layout.control_out@,
    }
}

/// The input ports of the sink node at the connection's rate.
pub open spec fn sink_side_ports(rt: Runtime, props: AddConnectionProps) -> Seq<PortMeta> {
    let layout = rt.node(props.sink).layout();
    match props.rate {
        PortRate::Audio => layout.audio_in@,
        PortRate::Control => layout.control_in@,
    }
}

/// The source port indices a connection request names.
pub open spec fn source_indices(rt: Runtime, props: AddConnectionProps) -> Seq<usize> {
    spec_port_indices(props.source_kind, source_side_ports(rt, props))
}

/// The sink port indices a connection request names.
pub open spec fn sink_indices(rt: Runtime, props: AddConnectionProps) -> Seq<usize> {
    spec_port_indices(props.sink_kind, sink_side_ports(rt, props))
}

/// Arities the builder can wire: one-to-one, one-to-many, many-to-one, or
/// equal counts.
pub open spec fn arity_wireable(n: nat, m: nat) -> bool {
    (n == 1 && m >= 1) || (m == 1 && n >= 1) || n == m
}

/// An edge from port `a` of `src` to port `b` of `snk` at `rate`.
pub open spec fn edge(src: NodeKey, a: usize, snk: NodeKey, b: usize, rate: PortRate) -> Connection {
    Connection {
        source: ConnectionEntry { node_key: src, port_index: a, port_rate: rate },
        sink: ConnectionEntry { node_key: snk, port_index: b, port_rate: rate },
    }
}

/// The edges wiring source ports `srcs` to sink ports `snks`; a fan-out or
/// fan-in goes through the mixer node `mixer`.
pub open spec fn planned_edges(
    source: NodeKey,
    sink: NodeKey,
    rate: PortRate,
    srcs: Seq<usize>,
    snks: Seq<usize>,
    mixer: NodeKey,
) -> Seq<Connection> {
    let n = srcs.len();
    let m = snks.len();
    if n == 1 && m == 1 {
        seq![edge(source, srcs[0], sink, snks[0], rate)]
    } else if n == 1 {
        seq![edge(source, srcs[0], mixer, 0, rate)] + Seq::new(
            m,
            |i: int| edge(mixer, 0, sink, snks[i], rate),
        )
    } else if m == 1 {
        Seq::new(n, |i: int| edge(source, srcs[i], mixer, i as usize, rate)) + seq![
            edge(mixer, 0, sink, snks[0], rate),
        ]
    } else {
        Seq::new(n, |i: int| edge(source, srcs[i], sink, snks[i], rate))
    }
}

/// How a node key prints: `NodeKey(<index>)`.
pub open spec fn key_text(k: NodeKey) -> Seq<char> {
    "NodeKey("@ + decimal(k.0 as nat) + ")"@
}

/// A view of the runtime handed to pipes, so that they can transform the
/// nodes of a selection before connections are formed.
pub struct SelectionView<'a> {
    pub runtime: &'a mut Runtime,
    pub working_name_lookup: &'a mut NameMap<NodeKey>,
    pub selection: SelectionKind,
}

impl<'a> SelectionView<'a> {
    /// The graph seen through the view.
    pub closed spec fn runtime(&self) -> Runtime {
        *self.runtime
    }

    /// The node an alias names.
    pub closed spec fn lookup(&self, alias: Seq<char>) -> Option<NodeKey> {
        self.working_name_lookup.lookup(alias)
    }

    /// The selection as it stands.
    pub closed spec fn current(&self) -> SelectionKind {
        self.selection
    }

    /// The graph and alias lookup are consistent.
    pub closed spec fn wf(&self) -> bool {
        self.runtime.wf() && self.working_name_lookup.wf()
    }

    pub fn new(
        runtime: &'a mut Runtime,
        working_name_lookup: &'a mut NameMap<NodeKey>,
        selection: SelectionKind,
    ) -> (v: Self)
        ensures
            v.runtime() == *old(runtime),
            forall|n: Seq<char>| #[trigger] v.lookup(n) == old(working_name_lookup).lookup(n),
            v.wf() == (old(runtime).wf() && old(working_name_lookup).wf()),
            v.current() == selection,
            *final(runtime) == *final(v.runtime),
            *final(working_name_lookup) == *final(v.working_name_lookup),
    {
        Self { runtime, working_name_lookup, selection }
    }

    /// Add a node under its own name, and add it to the selection.
    pub fn insert(&mut self, node: LegatoNode)
        requires
            old(self).wf(),
        ensures
            final(self).wf(),
            ({
                let key = NodeKey(old(self).runtime().key_bound() as usize);
                &&& !old(self).runtime().contains(key)
                &&& final(self).runtime().contains(key)
                &&& final(self).runtime().node(key) == node
                &&& final(self).runtime().others_unchanged(&old(self).runtime(), key)
                &&& final(self).lookup(node.name_view()@) == Some(key)
                &&& selected_keys(final(self).current()) == selected_keys(old(self).current()).push(key)
                &&& final(self).current() is Multiple
            }),
            forall|n: Seq<char>| n != node.name_view()@ ==> #[trigger] final(self).lookup(n) == old(self).lookup(n),
            final(self).runtime().key_bound() == old(self).runtime().key_bound() + 1,
            final(self).runtime().edges() == old(self).runtime().edges(),
            final(self).runtime().sink() == old(self).runtime().sink(),
    {
        let working_name = node.name().clone();
        let key = self.runtime.add_node(node);
        self.working_name_lookup.insert(working_name, key);
        match &mut self.selection {
            SelectionKind::Single(old_node) => {
                let first = *old_node;
                let mut v: Vec<NodeKey> = Vec::new();
                v.push(first);
                v.push(key);
                self.selection = SelectionKind::Multiple(v);
                proof {
                    assert(selected_keys(self.selection) =~= seq![first].push(key));
                }
            },
            SelectionKind::Multiple(nodes) => {
                nodes.push(key);
            },
        }
    }

    pub fn selection(&self) -> (r: &SelectionKind)
        ensures
            *r == self.current(),
    {
        &self.selection
    }

    pub fn config(&self) -> (c: Config)
        ensures
            c == self.runtime().config(),
    {
        self.runtime.get_config()
    }

    /// Put `node` in place of the node under `key`; the alias that named the
    /// replaced node now names `key` under the new node's name.
    pub fn replace(&mut self, key: NodeKey, node: LegatoNode)
        requires
            old(self).wf(),
        ensures
            final(self).wf(),
            old(self).runtime().contains(key) ==> final(self).runtime().contains(key)
                && final(self).runtime().node(key) == node,
            !old(self).runtime().contains(key) ==> !final(self).runtime().contains(key),
            final(self).runtime().others_unchanged(&old(self).runtime(), key),
            final(self).runtime().edges() == old(self).runtime().edges(),
            final(self).current() == old(self).current(),
            (forall|n: Seq<char>| old(self).lookup(n) != Some(key)) ==> forall|n: Seq<char>|
                #[trigger] final(self).lookup(n) == old(self).lookup(n),
            (exists|n: Seq<char>| old(self).lookup(n) == Some(key)) ==> {
                &&& final(self).lookup(node.name_view()@) == Some(key)
                &&& exists|gone: Seq<char>|
                    #![trigger old(self).lookup(gone)]
                    old(self).lookup(gone) == Some(key) && (gone != node.name_view()@
                        ==> final(self).lookup(gone) is None) && forall|n: Seq<char>|
                        n != gone && n != node.name_view()@ ==> #[trigger] final(self).lookup(n)
                            == old(self).lookup(n)
            },
    {
        let working_name = node.name().clone();
        self.runtime.replace_node(key, node);
        let ghost old_names = *self.working_name_lookup;
        let removed = self.working_name_lookup.remove_name_of(key);
        proof {
            if removed {
                let w = choose|n: Seq<char>| old_names.lookup(n) == Some(key);
                assert(old(self).lookup(w) == Some(key));
            }
        }
        let ghost after_remove = *self.working_name_lookup;
        if removed {
            self.working_name_lookup.insert(working_name, key);
            proof {
                let gone = choose|gone: Seq<char>|
                    #![trigger old_names.lookup(gone)]
                    old_names.lookup(gone) == Some(key) && after_remove.lookup(gone) is None
                        && forall|n: Seq<char>|
                        n != gone ==> #[trigger] after_remove.lookup(n) == old_names.lookup(n);
                assert(old(self).lookup(gone) == Some(key));
                assert(gone != node.name_view()@ ==> self.lookup(gone) is None);
            }
        }
    }

    pub fn get_node_mut(&mut self, key: &NodeKey) -> (r: Option<&mut LegatoNode>)
        ensures
            r is Some <==> old(self).runtime().contains(*key),
            match r {
                Some(n) => {
                    &&& *n == old(self).runtime().node(*key)
                    &&& final(self).runtime().contains(*key)
                    &&& final(self).runtime().node(*key) == *final(n)
                },
                None => final(self).runtime() == old(self).runtime(),
            },
            final(self).runtime().others_unchanged(&old(self).runtime(), *key),
            final(self).runtime().key_bound() == old(self).runtime().key_bound(),
            final(self).runtime().edges() == old(self).runtime().edges(),
            final(self).runtime().sink() == old(self).runtime().sink(),
            final(self).wf() == old(self).wf(),
            forall|n: Seq<char>| #[trigger] final(self).lookup(n) == old(self).lookup(n),
            final(self).current() == old(self).current(),
    {
        self.runtime.get_node_mut(key)
    }

    pub fn get_node(&self, key: &NodeKey) -> (r: Option<&LegatoNode>)
        ensures
            r is Some <==> self.runtime().contains(*key),
            r is Some ==> *r->Some_0 == self.runtime().node(*key),
    {
        self.runtime.get_node(key)
    }

    /// The node an alias names.
    pub fn get_key(&mut self, name: &'static str) -> (r: Option<NodeKey>)
        requires
            old(self).wf(),
        ensures
            r == old(self).lookup(name@),
            *final(self) == *old(self),
    {
        self.working_name_lookup.get(name)
    }

    /// Remove a node, the edges touching it and the alias naming it.
    pub fn delete(&mut self, key: NodeKey)
        requires
            old(self).wf(),
        ensures
            final(self).wf(),
            !final(self).runtime().contains(key),
            final(self).runtime().others_unchanged(&old(self).runtime(), key),
            final(self).runtime().edges() == old(self).runtime().edges().filter(
                |c: crate::connection::Connection| c.source.node_key != key && c.sink.node_key != key,
            ),
            final(self).current() == old(self).current(),
            (forall|n: Seq<char>| old(self).lookup(n) != Some(key)) ==> forall|n: Seq<char>|
                #[trigger] final(self).lookup(n) == old(self).lookup(n),
            (exists|n: Seq<char>| old(self).lookup(n) == Some(key)) ==> exists|gone: Seq<char>|
                #![trigger old(self).lookup(gone)]
                old(self).lookup(gone) == Some(key) && final(self).lookup(gone) is None && forall|
                    n: Seq<char>,
                | n != gone ==> #[trigger] final(self).lookup(n) == old(self).lookup(n),
    {
        self.runtime.remove_node(key);
        let ghost old_names = *self.working_name_lookup;
        let removed = self.working_name_lookup.remove_name_of(key);
        proof {
            if removed {
                let w = choose|n: Seq<char>| old_names.lookup(n) == Some(key);
                assert(old(self).lookup(w) == Some(key));
                let gone = choose|gone: Seq<char>|
                    #![trigger old_names.lookup(gone)]
                    old_names.lookup(gone) == Some(key) && self.working_name_lookup.lookup(gone) is None
                        && forall|n: Seq<char>|
                        n != gone ==> #[trigger] self.working_name_lookup.lookup(n) == old_names.lookup(n);
                assert(old(self).lookup(gone) == Some(key));
            } else {
                assert forall|n: Seq<char>| #[trigger] self.lookup(n) == old(self).lookup(n) by {
                    assert(self.working_name_lookup.lookup(n) == old_names.lookup(n));
                }
            }
        }
    }

    /// A copy of the node under `key`.
    pub fn clone_node(&mut self, key: NodeKey) -> (r: Option<LegatoNode>)
        ensures
            *final(self) == *old(self),
            r is Some <==> old(self).runtime().contains(key),
            r matches Some(n) ==> n.name_view() == old(self).runtime().node(key).name_view()
                && n.kind_view() == old(self).runtime().node(key).kind_view()
                && n.inner().equivalent(&old(self).runtime().node(key).inner()),
    {
        match self.runtime.get_node(&key) {
            Some(n) => Some(n.duplicate()),
            None => None,
        }
    }

    /// The selection, once the view is done with.
    pub fn get_selection_owned(self) -> (r: SelectionKind)
        ensures
            r == self.current(),
            *final(self.runtime) == *old(self.runtime),
            *final(self.working_name_lookup) == *old(self.working_name_lookup),
    {
        self.selection
    }
}

/// A small slice of the builder exposed to node factories: the config and
/// the named shared resources.
pub struct ResourceBuilderView<'a> {
    pub config: &'a Config,
    pub sample_keys: &'a mut NameMap<SampleKey>,
    pub delay_keys: &'a mut NameMap<DelayLineKey>,
}

/// The message for a delay line no name maps to.
pub open spec fn missing_delay_text(name: Seq<char>) -> Seq<char> {
    "Could not find delay key "@ + name
}

/// The message for a sample no name maps to.
pub open spec fn missing_sample_text(name: Seq<char>) -> Seq<char> {
    "Could not find sample key "@ + name
}

impl<'a> ResourceBuilderView<'a> {
    /// The delay line a name maps to.
    pub closed spec fn delay_lookup(&self, name: Seq<char>) -> Option<DelayLineKey> {
        self.delay_keys.lookup(name)
    }

    /// The sample a name maps to.
    pub closed spec fn sample_lookup(&self, name: Seq<char>) -> Option<SampleKey> {
        self.sample_keys.lookup(name)
    }

    /// The name lookups are consistent.
    pub closed spec fn wf(&self) -> bool {
        self.delay_keys.wf() && self.sample_keys.wf()
    }

    /// The delay line a name maps to.
    pub fn get_delay_line_key(&self, name: &String) -> (r: Result<DelayLineKey, ValidationError>)
        requires
            self.wf(),
        ensures
            match self.delay_lookup(name@) {
                Some(k) => r == Ok::<DelayLineKey, ValidationError>(k),
                None => r matches Err(ValidationError::ResourceNotFound(m)) && m@
                    == missing_delay_text(name@),
            },
    {
        match self.delay_keys.get(name.as_str()) {
            Some(k) => Ok(k),
            None => {
                let mut m = String::new();
                push_str(&mut m, "Could not find delay key ");
                push_str(&mut m, name.as_str());
                Err(ValidationError::ResourceNotFound(m))
            },
        }
    }

    /// The sample a name maps to.
    pub fn get_sampler_key(&self, name: &String) -> (r: Result<SampleKey, ValidationError>)
        requires
            self.wf(),
        ensures
            match self.sample_lookup(name@) {
                Some(k) => r == Ok::<SampleKey, ValidationError>(k),
                None => r matches Err(ValidationError::ResourceNotFound(m)) && m@
                    == missing_sample_text(name@),
            },
    {
        match self.sample_keys.get(name.as_str()) {
            Some(k) => Ok(k),
            None => {
                let mut m = String::new();
                push_str(&mut m, "Could not find sample key ");
                push_str(&mut m, name.as_str());
                Err(ValidationError::ResourceNotFound(m))
            },
        }
    }

    pub fn get_config(&self) -> (c: &Config)
        ensures
            *c == *self.config,
    {
        &self.config
    }
}

} // verus!
