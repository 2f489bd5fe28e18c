use legato::ast::PortConnectionType;
use legato::builder::{AddConnectionProps, LegatoBuilder, ResourceBuilderView, SelectionKind, SelectionView, Unconfigured};
use legato::config::{BlockSize, Config};
use legato::connection::{Connection, ConnectionEntry, GraphError};
use legato::error::ValidationError;
use legato::names::NameMap;
use legato::node::{DynNode, LegatoNode};
use legato::nodes::{HouseholderMixer, Noise};
use legato::ports::{audio_ports, PortBuilder, PortRate};
use legato::resources::{DelayLineKey, SampleKey};
use legato::runtime::{build_runtime, NodeKey};

fn config() -> Config {
    Config::new(48_000, BlockSize::Block256, 2, 8)
}

fn node(name: &str, n: DynNode) -> LegatoNode {
    LegatoNode::new(name.to_string(), "test".to_string(), n)
}

fn entry(k: usize, port: usize) -> ConnectionEntry {
    ConnectionEntry { node_key: NodeKey(k), port_index: port, port_rate: PortRate::Audio }
}

#[test]
fn runtime_hands_out_fresh_keys_and_checks_edges() {
    let mut rt = build_runtime(config(), audio_ports(0, 2));
    let a = rt.add_node(node("a", DynNode::Noise(Noise::new())));
    let b = rt.add_node(node("b", DynNode::HouseholderMixer(HouseholderMixer::new(2))));
    assert_eq!(a, NodeKey(0));
    assert_eq!(b, NodeKey(1));
    assert_eq!(rt.get_node(&a).unwrap().name(), "a");
    assert_eq!(rt.get_node_ports(&b).audio_in.len(), 2);

    let ok = Connection { source: entry(0, 0), sink: entry(1, 1) };
    assert_eq!(rt.add_edge(ok), Ok(()));
    let dangling = Connection { source: entry(0, 0), sink: entry(7, 0) };
    assert_eq!(rt.add_edge(dangling), Err(GraphError::NodeNotFound));

    assert_eq!(rt.set_sink_key(NodeKey(9)), Err(GraphError::NodeNotFound));
    assert_eq!(rt.set_sink_key(b), Ok(()));
    assert_eq!(rt.get_config().block_size, 256);
}

#[test]
fn removing_a_node_never_reuses_its_key() {
    let mut rt = build_runtime(config(), audio_ports(0, 2));
    let a = rt.add_node(node("a", DynNode::Noise(Noise::new())));
    let b = rt.add_node(node("b", DynNode::Noise(Noise::new())));
    rt.add_edge(Connection { source: entry(0, 0), sink: entry(1, 0) }).unwrap();
    rt.remove_node(a);
    assert!(rt.get_node(&a).is_none());
    assert!(rt.get_node(&b).is_some());
    // The edge went with the node: a new edge to the removed key is refused.
    assert_eq!(rt.add_edge(Connection { source: entry(0, 0), sink: entry(1, 0) }), Err(GraphError::NodeNotFound));
    let c = rt.add_node(node("c", DynNode::Noise(Noise::new())));
    assert_eq!(c, NodeKey(2));

    rt.replace_node(b, node("b2", DynNode::Noise(Noise::new())));
    assert_eq!(rt.get_node(&b).unwrap().name(), "b2");
    rt.replace_node(a, node("ghost", DynNode::Noise(Noise::new())));
    assert!(rt.get_node(&a).is_none());
}

#[test]
fn name_map_insert_get_remove() {
    let mut m: NameMap<NodeKey> = NameMap::new();
    assert_eq!(m.get("osc"), None);
    m.insert("osc".to_string(), NodeKey(3));
    m.insert("lfo".to_string(), NodeKey(4));
    assert_eq!(m.get("osc"), Some(NodeKey(3)));
    m.insert("osc".to_string(), NodeKey(5));
    assert_eq!(m.get("osc"), Some(NodeKey(5)));
    assert_eq!(m.get("lfo"), Some(NodeKey(4)));
    m.remove("osc");
    assert_eq!(m.get("osc"), None);
    assert_eq!(m.get("lfo"), Some(NodeKey(4)));
    assert!(m.remove_name_of(NodeKey(4)));
    assert!(!m.remove_name_of(NodeKey(4)));
    assert_eq!(m.get("lfo"), None);
}

#[test]
fn builder_wires_fan_out_fan_in_and_pairs() {
    let b = LegatoBuilder::<Unconfigured>::new(config(), audio_ports(0, 2));
    let b = b.add_node_raw(node("noise", DynNode::Noise(Noise::new())), &"noise".to_string());
    let b = b.add_node_raw(
        node("mix", DynNode::HouseholderMixer(HouseholderMixer::new(4))),
        &"mix".to_string(),
    );
    // One source port onto four sink ports: fans out through a mixer node.
    let b = b.connect(AddConnectionProps {
        source: NodeKey(0),
        source_kind: PortConnectionType::Indexed { port: 0 },
        sink: NodeKey(1),
        sink_kind: PortConnectionType::Slice { start: 0, end: 4 },
        rate: PortRate::Audio,
    });
    // Two to two: wired pairwise.
    let b = b.connect(AddConnectionProps {
        source: NodeKey(1),
        source_kind: PortConnectionType::Slice { start: 0, end: 2 },
        sink: NodeKey(1),
        sink_kind: PortConnectionType::Slice { start: 2, end: 4 },
        rate: PortRate::Audio,
    });
    // Auto on both ends of the mixer: four outputs onto its four inputs.
    let b = b.connect(AddConnectionProps {
        source: NodeKey(1),
        source_kind: PortConnectionType::Auto,
        sink: NodeKey(1),
        sink_kind: PortConnectionType::Named { port: "0".to_string() },
        rate: PortRate::Audio,
    });
    let _ready = b.set_sink(NodeKey(1));
}

#[test]
fn selection_view_inserts_replaces_and_deletes() {
    let mut rt = build_runtime(config(), audio_ports(0, 2));
    let mut names: NameMap<NodeKey> = NameMap::new();
    let first = rt.add_node(node("osc", DynNode::Noise(Noise::new())));
    names.insert("osc".to_string(), first);

    let mut view = SelectionView::new(&mut rt, &mut names, SelectionKind::Single(first));
    assert_eq!(view.config().sample_rate, 48_000);
    view.insert(node("osc2", DynNode::Noise(Noise::new())));
    assert_eq!(view.selection(), &SelectionKind::Multiple(vec![NodeKey(0), NodeKey(1)]));
    assert_eq!(view.get_key("osc2"), Some(NodeKey(1)));

    view.replace(NodeKey(0), node("osc_b", DynNode::Noise(Noise::new())));
    assert_eq!(view.get_key("osc"), None);
    assert_eq!(view.get_key("osc_b"), Some(NodeKey(0)));
    assert_eq!(view.get_node(&NodeKey(0)).unwrap().name(), "osc_b");

    let copy = view.clone_node(NodeKey(1)).unwrap();
    assert_eq!(copy.name(), "osc2");
    assert!(view.clone_node(NodeKey(5)).is_none());

    view.delete(NodeKey(1));
    assert!(view.get_node(&NodeKey(1)).is_none());
    assert_eq!(view.get_key("osc2"), None);
    assert!(view.get_node_mut(&NodeKey(0)).is_some());
    assert_eq!(view.get_selection_owned(), SelectionKind::Multiple(vec![NodeKey(0), NodeKey(1)]));
}

#[test]
fn resource_view_reports_missing_names() {
    let cfg = config();
    let mut samples: NameMap<SampleKey> = NameMap::new();
    let mut delays: NameMap<DelayLineKey> = NameMap::new();
    delays.insert("fb".to_string(), DelayLineKey(2));
    samples.insert("kick".to_string(), SampleKey(0));
    let view = ResourceBuilderView { config: &cfg, sample_keys: &mut samples, delay_keys: &mut delays };
    assert_eq!(view.get_delay_line_key(&"fb".to_string()), Ok(DelayLineKey(2)));
    assert_eq!(
        view.get_delay_line_key(&"tape".to_string()),
        Err(ValidationError::ResourceNotFound("Could not find delay key tape".to_string()))
    );
    assert_eq!(view.get_sampler_key(&"kick".to_string()), Ok(SampleKey(0)));
    assert_eq!(
        view.get_sampler_key(&"snare".to_string()),
        Err(ValidationError::ResourceNotFound("Could not find sample key snare".to_string()))
    );
    assert_eq!(view.get_config().channels, 2);
}

#[test]
fn port_builder_names_positional_and_named_ports() {
    let p = PortBuilder::new().audio_in(2).audio_out_named(&["l", "r"]).control_in(1).build();
    assert_eq!(p.audio_in.len(), 2);
    assert_eq!(p.audio_in[1].name, "1");
    assert_eq!(p.audio_in[1].index, 1);
    assert_eq!(p.audio_out[0].name, "l");
    assert_eq!(p.audio_out[1].index, 1);
    assert_eq!(p.control_in[0].name, "0");
    assert!(p.control_out.is_empty());
    let q = PortBuilder::new().audio_in_named(&["x"]).audio_in(1).control_out(2).build();
    assert_eq!(q.audio_in[1].name, "1");
    assert_eq!(q.audio_in[1].index, 1);
    assert_eq!(q.control_out.len(), 2);
    assert_eq!(p.duplicate(), p);
}

#[test]
fn auto_sink_end_resolves_against_the_sink_node() {
    // Noise has one output and no inputs; the mixer has one input. Auto on
    // both ends wires the noise output to the mixer input one to one.
    let b = LegatoBuilder::<Unconfigured>::new(config(), audio_ports(0, 2));
    let b = b.add_node_raw(node("noise", DynNode::Noise(Noise::new())), &"noise".to_string());
    let b = b.add_node_raw(
        node("mix", DynNode::HouseholderMixer(HouseholderMixer::new(1))),
        &"mix".to_string(),
    );
    let b = b.connect(AddConnectionProps {
        source: NodeKey(0),
        source_kind: PortConnectionType::Auto,
        sink: NodeKey(1),
        sink_kind: PortConnectionType::Auto,
        rate: PortRate::Audio,
    });
    let _ready = b.set_sink(NodeKey(1));
}
