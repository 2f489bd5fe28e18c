use legato::error::ValidationError;
use legato::expand::MacroExpansionPass;
use legato::ir::{IRNodeKind, NodeId, Object, Port, Value};
use legato::ir_graph::IRGraph;
use legato::plan::IRMacro;

fn f(x: f32) -> Value {
    Value::F32Bits(x.to_bits())
}

fn obj(entries: Vec<(&str, Value)>) -> Object {
    let mut o = Object::new();
    for (k, v) in entries {
        o.insert(k.to_string(), v);
    }
    o
}

fn add(g: &mut IRGraph, kind: IRNodeKind, ns: &str, node_type: &str, alias: &str, params: Object) -> NodeId {
    g.add_node(kind, ns.to_string(), node_type.to_string(), alias.to_string(), params, Vec::new())
}

/// `voice`: osc (sine, freq from `$freq`) feeding env (adsr) at port 1; the
/// virtual inputs `gate` and `freq_in` reach env.gate and osc.freq.
fn voice() -> IRMacro {
    let mut body = IRGraph::new();
    let osc = add(&mut body, IRNodeKind::Leaf, "audio", "sine", "osc", obj(vec![("freq", Value::Template("$freq".to_string()))]));
    let env = add(
        &mut body,
        IRNodeKind::Leaf,
        "audio",
        "adsr",
        "env",
        obj(vec![("attack", Value::Template("$attack".to_string())), ("release", Value::Template("$release".to_string()))]),
    );
    body.connect(osc, Port::Omitted, env, Port::Index(1));
    IRMacro {
        name: "voice".to_string(),
        default_params: Some(obj(vec![("freq", f(440.0)), ("attack", f(100.0)), ("release", f(500.0))])),
        virtual_input_map: vec![
            ("gate".to_string(), vec![(env, Port::Named("gate".to_string()))]),
            ("freq_in".to_string(), vec![(osc, Port::Named("freq".to_string()))]),
        ],
        body,
        sink: env,
    }
}

fn node_by_alias<'a>(g: &'a IRGraph, alias: &str) -> Option<&'a legato::ir_graph::IRNode> {
    g.resolve_alias(alias).and_then(|id| g.get_node(id))
}

#[test]
fn expansion_replaces_reference_with_body_nodes() {
    let mut g = IRGraph::new();
    let v1 = add(&mut g, IRNodeKind::MacroRef, "audio", "voice", "v1", obj(vec![("freq", f(420.0))]));
    g.sink = Some(v1);
    let registry = vec![voice()];
    MacroExpansionPass.expand_macro(&mut g, &registry, v1).unwrap();

    assert!(!g.has_unresolved_macros());
    assert_eq!(g.node_count(), 2);
    let osc = node_by_alias(&g, "v1.osc").expect("v1.osc missing");
    assert_eq!(osc.params.get("freq"), Some(&f(420.0)));
    let env = node_by_alias(&g, "v1.env").expect("v1.env missing");
    assert_eq!(env.params.get("attack"), Some(&f(100.0)));
    assert_eq!(g.edge_count(), 1);
    let edges = g.find_edges_between("v1.osc", "v1.env");
    assert_eq!(edges[0].sink_port, Port::Index(1));
    assert_eq!(g.sink, Some(env.id));
}

#[test]
fn edges_reach_body_ports_through_virtual_inputs() {
    let mut g = IRGraph::new();
    let v1 = add(&mut g, IRNodeKind::MacroRef, "audio", "voice", "v1", Object::new());
    let poly = add(&mut g, IRNodeKind::Leaf, "midi", "poly_voice", "poly", Object::new());
    g.connect(poly, Port::Named("freq".to_string()), v1, Port::Named("freq_in".to_string()));
    g.connect(poly, Port::Named("gate".to_string()), v1, Port::Named("gate".to_string()));
    g.sink = Some(v1);
    MacroExpansionPass.expand_macro(&mut g, &vec![voice()], v1).unwrap();

    assert_eq!(g.edge_count(), 3);
    let osc = node_by_alias(&g, "v1.osc").unwrap();
    let env = node_by_alias(&g, "v1.env").unwrap();
    let poly_edges = g.find_edges_from("poly");
    let freq_edge = poly_edges
        .iter()
        .find(|e| e.source_port == Port::Named("freq".to_string()))
        .expect("poly.freq edge missing");
    assert_eq!(freq_edge.sink, osc.id);
    assert_eq!(freq_edge.sink_port, Port::Named("freq".to_string()));
    let gate_edge = poly_edges
        .iter()
        .find(|e| e.source_port == Port::Named("gate".to_string()))
        .expect("poly.gate edge missing");
    assert_eq!(gate_edge.sink, env.id);
    assert_eq!(gate_edge.sink_port, Port::Named("gate".to_string()));
    // Defaults fill the templates the reference does not set.
    assert_eq!(osc.params.get("freq"), Some(&f(440.0)));
}

#[test]
fn references_expand_under_their_own_aliases() {
    let mut g = IRGraph::new();
    let v1 = add(&mut g, IRNodeKind::MacroRef, "audio", "voice", "v1", obj(vec![("freq", f(440.0))]));
    let v2 = add(&mut g, IRNodeKind::MacroRef, "audio", "voice", "v2", obj(vec![("freq", f(880.0))]));
    let registry = vec![voice()];
    MacroExpansionPass.expand_macro(&mut g, &registry, v1).unwrap();
    MacroExpansionPass.expand_macro(&mut g, &registry, v2).unwrap();
    assert_eq!(g.node_count(), 4);
    for alias in ["v1.osc", "v1.env", "v2.osc", "v2.env"] {
        assert!(node_by_alias(&g, alias).is_some(), "missing {}", alias);
    }
    let v2_osc = node_by_alias(&g, "v2.osc").unwrap();
    assert_eq!(v2_osc.params.get("freq"), Some(&f(880.0)));
}

#[test]
fn outgoing_edges_leave_the_body_sink() {
    let mut g = IRGraph::new();
    let v1 = add(&mut g, IRNodeKind::MacroRef, "audio", "voice", "v1", Object::new());
    let mixer = add(&mut g, IRNodeKind::Leaf, "audio", "track_mixer", "mixer", Object::new());
    g.connect(v1, Port::Omitted, mixer, Port::Omitted);
    g.sink = Some(mixer);
    MacroExpansionPass.expand_macro(&mut g, &vec![voice()], v1).unwrap();
    let edges_to_mixer = g.find_edges_to("mixer");
    assert_eq!(edges_to_mixer.len(), 1);
    let env = node_by_alias(&g, "v1.env").unwrap();
    assert_eq!(edges_to_mixer[0].source, env.id, "passthrough should originate from v1.env (the voice sink leaf)");
    assert_eq!(g.sink, Some(mixer));
}

#[test]
fn omitted_port_feeds_first_virtual_input() {
    let mut g = IRGraph::new();
    let lfo = add(&mut g, IRNodeKind::Leaf, "audio", "lfo", "lfo", Object::new());
    let v1 = add(&mut g, IRNodeKind::MacroRef, "audio", "voice", "v1", Object::new());
    g.connect(lfo, Port::Omitted, v1, Port::Omitted);
    g.connect(lfo, Port::Index(0), v1, Port::Index(1));
    g.connect(lfo, Port::Index(2), v1, Port::Named("detune".to_string()));
    g.source = Some(v1);
    MacroExpansionPass.expand_macro(&mut g, &vec![voice()], v1).unwrap();
    let env = node_by_alias(&g, "v1.env").unwrap().id;
    let osc = node_by_alias(&g, "v1.osc").unwrap().id;
    let from_lfo = g.find_edges_from("lfo");
    assert_eq!(from_lfo.len(), 3);
    assert_eq!((from_lfo[0].sink, from_lfo[0].sink_port.clone()), (env, Port::Named("gate".to_string())));
    assert_eq!((from_lfo[1].sink, from_lfo[1].sink_port.clone()), (osc, Port::Named("freq".to_string())));
    // No virtual input of that name: the edge goes to the new sink unchanged.
    assert_eq!((from_lfo[2].sink, from_lfo[2].sink_port.clone()), (env, Port::Named("detune".to_string())));
    assert_eq!(g.source, Some(env));
}

#[test]
fn unregistered_macro_is_reported_and_graph_unchanged() {
    let mut g = IRGraph::new();
    let v1 = add(&mut g, IRNodeKind::MacroRef, "audio", "chorus", "v1", Object::new());
    let r = MacroExpansionPass.expand_macro(&mut g, &vec![voice()], v1);
    assert_eq!(r, Err(ValidationError::NodeNotFound("macro 'chorus' is not in the registry".to_string())));
    assert_eq!(g.node_count(), 1);
    assert!(g.has_unresolved_macros());
}

#[test]
fn sliced_virtual_port_is_refused() {
    let mut g = IRGraph::new();
    let a = add(&mut g, IRNodeKind::Leaf, "audio", "sine", "a", Object::new());
    let v1 = add(&mut g, IRNodeKind::MacroRef, "audio", "voice", "v1", Object::new());
    g.connect(a, Port::Omitted, v1, Port::Slice(0, 2));
    let r = MacroExpansionPass.expand_macro(&mut g, &vec![voice()], v1);
    assert_eq!(
        r,
        Err(ValidationError::Expansion(
            "slice and stride ports are not supported on the virtual ports of patch 'voice'".to_string()
        ))
    );
}
