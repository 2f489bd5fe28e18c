use legato::expand::MacroExpansionPass;
use legato::ir::{Connection, DeclarationScope, Endpoint, IRNodeKind, Macro, NodeDeclaration, NodeId, Object, Port, Value};
use legato::ir_graph::IRGraph;
use legato::lower::{ast_to_graph, convert_macro};
use legato::ir::Ast;
use legato::plan::IRMacro;

fn f(x: f32) -> Value {
    Value::F32Bits(x.to_bits())
}

fn obj(entries: Vec<(&str, Value)>) -> Object {
    let mut o = Object::new();
    for (k, v) in entries {
        o.insert(k.to_string(), v);
    }
    o
}

fn decl(node_type: &str, alias: Option<&str>, params: Option<Object>) -> NodeDeclaration {
    NodeDeclaration { node_type: node_type.to_string(), alias: alias.map(|a| a.to_string()), params, pipes: Vec::new() }
}

fn conn(src: &str, src_port: Port, snk: &str, snk_port: Port) -> Connection {
    Connection {
        source: Endpoint { node: src.to_string(), port: src_port },
        sink: Endpoint { node: snk.to_string(), port: snk_port },
    }
}

fn make_voice_macro() -> Macro {
    Macro {
        name: "voice".to_string(),
        default_params: Some(obj(vec![("freq", f(440.0)), ("attack", f(100.0)), ("release", f(500.0))])),
        virtual_ports_in: vec!["gate".to_string(), "freq_in".to_string()],
        declarations: vec![DeclarationScope {
            namespace: "audio".to_string(),
            declarations: vec![
                decl("sine", Some("osc"), Some(obj(vec![("freq", Value::Template("$freq".to_string()))]))),
                decl(
                    "adsr",
                    Some("env"),
                    Some(obj(vec![
                        ("attack", Value::Template("$attack".to_string())),
                        ("release", Value::Template("$release".to_string())),
                    ])),
                ),
            ],
        }],
        connections: vec![
            conn("freq_in", Port::Omitted, "osc", Port::Named("freq".to_string())),
            conn("gate", Port::Omitted, "env", Port::Named("gate".to_string())),
            conn("osc", Port::Omitted, "env", Port::Index(1)),
        ],
        sink: "env".to_string(),
    }
}

#[test]
fn convert_macro_builds_body_edges_and_virtual_inputs() {
    let m = convert_macro(make_voice_macro(), &Vec::new());
    assert_eq!(m.name, "voice");
    assert_eq!(m.body.node_count(), 2);
    let osc = m.body.get_node(NodeId(0)).unwrap();
    let env = m.body.get_node(NodeId(1)).unwrap();
    assert_eq!((osc.alias.as_str(), osc.node_type.as_str(), osc.namespace.as_str()), ("osc", "sine", "audio"));
    assert_eq!(osc.kind, IRNodeKind::Leaf);
    assert_eq!(osc.params.get("freq"), Some(&Value::Template("$freq".to_string())));
    assert_eq!(env.alias, "env");
    // Only the interior edge becomes a body edge.
    assert_eq!(m.body.edge_count(), 1);
    let e = &m.body.edges()[0];
    assert_eq!((e.source, e.sink, e.sink_port.clone()), (NodeId(0), NodeId(1), Port::Index(1)));
    assert_eq!(m.virtual_input_map.len(), 2);
    assert_eq!(m.virtual_input_map[0].0, "freq_in");
    assert_eq!(m.virtual_input_map[0].1, vec![(NodeId(0), Port::Named("freq".to_string()))]);
    assert_eq!(m.virtual_input_map[1].0, "gate");
    assert_eq!(m.virtual_input_map[1].1, vec![(NodeId(1), Port::Named("gate".to_string()))]);
    assert_eq!(m.sink, NodeId(1));
    assert_eq!(m.body.sink, Some(NodeId(1)));
    assert_eq!(m.default_params.as_ref().unwrap().get("attack"), Some(&f(100.0)));
}

#[test]
fn declaration_without_alias_goes_by_its_type_and_known_macros_are_references() {
    let known = vec![convert_macro(make_voice_macro(), &Vec::new())];
    let outer = Macro {
        name: "lead".to_string(),
        default_params: None,
        virtual_ports_in: vec!["in".to_string()],
        declarations: vec![DeclarationScope {
            namespace: "audio".to_string(),
            declarations: vec![decl("voice", None, None), decl("lowpass", Some("lp"), None)],
        }],
        connections: vec![
            conn("voice", Port::Omitted, "lp", Port::Omitted),
            conn("in", Port::Omitted, "voice", Port::Named("gate".to_string())),
            conn("in", Port::Index(1), "lp", Port::Named("cutoff".to_string())),
        ],
        sink: "lp".to_string(),
    };
    let m = convert_macro(outer, &known);
    let v = m.body.get_node(NodeId(0)).unwrap();
    assert_eq!(v.alias, "voice");
    assert_eq!(v.kind, IRNodeKind::MacroRef);
    assert_eq!(m.body.get_node(NodeId(1)).unwrap().kind, IRNodeKind::Leaf);
    // Two connections from one virtual port: one entry reaching both ports.
    assert_eq!(m.virtual_input_map.len(), 1);
    assert_eq!(
        m.virtual_input_map[0].1,
        vec![(NodeId(0), Port::Named("gate".to_string())), (NodeId(1), Port::Named("cutoff".to_string()))]
    );
}

#[test]
fn converted_macro_expands_in_a_graph() {
    let registry = vec![convert_macro(make_voice_macro(), &Vec::new())];
    let mut g = IRGraph::new();
    let v1 = g.add_node(IRNodeKind::MacroRef, "audio".to_string(), "voice".to_string(), "v1".to_string(), obj(vec![("freq", f(420.0))]), Vec::new());
    let poly = g.add_node(IRNodeKind::Leaf, "midi".to_string(), "poly_voice".to_string(), "poly".to_string(), Object::new(), Vec::new());
    g.connect(poly, Port::Named("freq".to_string()), v1, Port::Named("freq_in".to_string()));
    MacroExpansionPass.expand_macro(&mut g, &registry, v1).unwrap();
    let osc = g.get_node(g.resolve_alias("v1.osc").unwrap()).unwrap();
    assert_eq!(osc.params.get("freq"), Some(&f(420.0)));
    let from_poly = g.find_edges_from("poly");
    assert_eq!(from_poly.len(), 1);
    assert_eq!(from_poly[0].sink, osc.id);
}

fn scope(ns: &str, decls: Vec<NodeDeclaration>) -> DeclarationScope {
    DeclarationScope { namespace: ns.to_string(), declarations: decls }
}

fn program(macros: Vec<Macro>, declarations: Vec<DeclarationScope>, connections: Vec<Connection>, sink: &str) -> Ast {
    Ast { declarations, connections, macros, sink: sink.to_string(), source: None }
}

fn node_by_alias<'a>(g: &'a IRGraph, alias: &str) -> Option<&'a legato::ir_graph::IRNode> {
    g.resolve_alias(alias).and_then(|id| g.get_node(id))
}

/// The literal graph with every macro reference expanded.
fn expand(ast: Ast) -> IRGraph {
    let (g, registry): (IRGraph, Vec<IRMacro>) = ast_to_graph(ast);
    MacroExpansionPass.run(g, &registry).unwrap()
}

#[test]
fn test_ast_to_graph_produces_macro_ref_nodes() {
    let ast = program(
        vec![make_voice_macro()],
        vec![scope("audio", vec![decl("voice", Some("v1"), None), decl("track_mixer", Some("mixer"), None)])],
        vec![conn("v1", Port::Omitted, "mixer", Port::Omitted)],
        "mixer",
    );
    let (graph, _registry) = ast_to_graph(ast);
    assert_eq!(graph.node_count(), 2);
    assert!(graph.has_unresolved_macros());
    let v1 = node_by_alias(&graph, "v1").expect("v1 missing");
    assert_eq!(v1.kind, IRNodeKind::MacroRef);
    assert_eq!(v1.node_type, "voice");
    let mixer = node_by_alias(&graph, "mixer").expect("mixer missing");
    assert_eq!(mixer.kind, IRNodeKind::Leaf);
    assert_eq!(graph.edge_count(), 1);
    let edges = graph.find_edges_between("v1", "mixer");
    assert_eq!(edges.len(), 1);
    assert_eq!(edges[0].source_port, Port::Omitted);
}

#[test]
fn test_ast_to_graph_preserves_raw_params() {
    let ast = program(
        vec![make_voice_macro()],
        vec![scope("audio", vec![decl("voice", Some("v1"), Some(obj(vec![("freq", f(420.0))])))])],
        vec![],
        "v1",
    );
    let (graph, _registry) = ast_to_graph(ast);
    let v1 = node_by_alias(&graph, "v1").unwrap();
    assert_eq!(v1.params.get("freq"), Some(&f(420.0)));
}

#[test]
fn test_expansion_replaces_macro_ref_with_leaves() {
    let ast = program(
        vec![make_voice_macro()],
        vec![scope("audio", vec![decl("voice", Some("v1"), Some(obj(vec![("freq", f(420.0))])))])],
        vec![],
        "v1",
    );
    let graph = expand(ast);
    assert!(!graph.has_unresolved_macros());
    assert_eq!(graph.node_count(), 2);
    let osc = node_by_alias(&graph, "v1.osc").expect("v1.osc missing");
    assert_eq!(osc.params.get("freq"), Some(&f(420.0)));
    assert_eq!(graph.edge_count(), 1);
    let edges = graph.find_edges_between("v1.osc", "v1.env");
    assert_eq!(edges[0].sink_port, Port::Index(1));
}

#[test]
fn test_external_connection_through_virtual_port() {
    let ast = program(
        vec![make_voice_macro()],
        vec![scope("audio", vec![decl("voice", Some("v1"), None)]), scope("midi", vec![decl("poly_voice", Some("poly"), None)])],
        vec![
            conn("poly", Port::Named("freq".to_string()), "v1", Port::Named("freq_in".to_string())),
            conn("poly", Port::Named("gate".to_string()), "v1", Port::Named("gate".to_string())),
        ],
        "v1",
    );
    let graph = expand(ast);
    assert_eq!(graph.edge_count(), 3);
    let osc = node_by_alias(&graph, "v1.osc").unwrap();
    let env = node_by_alias(&graph, "v1.env").unwrap();
    let poly_edges = graph.find_edges_from("poly");
    let freq_edge = poly_edges
        .iter()
        .find(|e| e.source_port == Port::Named("freq".to_string()))
        .expect("poly.freq edge missing");
    assert_eq!(freq_edge.sink, osc.id);
    assert_eq!(freq_edge.sink_port, Port::Named("freq".to_string()));
    let gate_edge = poly_edges
        .iter()
        .find(|e| e.source_port == Port::Named("gate".to_string()))
        .expect("poly.gate edge missing");
    assert_eq!(gate_edge.sink, env.id);
    assert_eq!(gate_edge.sink_port, Port::Named("gate".to_string()));
}

#[test]
fn test_multiple_instances_get_distinct_fqns() {
    let ast = program(
        vec![make_voice_macro()],
        vec![scope(
            "audio",
            vec![
                decl("voice", Some("v1"), Some(obj(vec![("freq", f(440.0))]))),
                decl("voice", Some("v2"), Some(obj(vec![("freq", f(880.0))]))),
            ],
        )],
        vec![],
        "",
    );
    let graph = expand(ast);
    assert_eq!(graph.node_count(), 4);
    for alias in ["v1.osc", "v1.env", "v2.osc", "v2.env"] {
        assert!(node_by_alias(&graph, alias).is_some(), "missing {}", alias);
    }
    let v2_osc = node_by_alias(&graph, "v2.osc").unwrap();
    assert_eq!(v2_osc.params.get("freq"), Some(&f(880.0)));
}

#[test]
fn test_passthrough_via_sink() {
    let ast = program(
        vec![make_voice_macro()],
        vec![scope("audio", vec![decl("voice", Some("v1"), None), decl("track_mixer", Some("mixer"), None)])],
        vec![conn("v1", Port::Omitted, "mixer", Port::Omitted)],
        "mixer",
    );
    let graph = expand(ast);
    let edges_to_mixer = graph.find_edges_to("mixer");
    assert_eq!(edges_to_mixer.len(), 1);
    let env = node_by_alias(&graph, "v1.env").unwrap();
    assert_eq!(edges_to_mixer[0].source, env.id, "passthrough should originate from v1.env (the voice sink leaf)");
}

#[test]
fn test_nested_macro_virtual_ports_and_connections() {
    let fm_osc = Macro {
        name: "fm_osc".to_string(),
        default_params: Some(obj(vec![("freq", f(440.0)), ("mod_freq", f(880.0))])),
        virtual_ports_in: vec!["freq_in".to_string()],
        declarations: vec![scope(
            "audio",
            vec![
                decl("sine", Some("modulator"), Some(obj(vec![("freq", Value::Template("$mod_freq".to_string()))]))),
                decl("sine", Some("carrier"), Some(obj(vec![("freq", Value::Template("$freq".to_string()))]))),
            ],
        )],
        connections: vec![
            conn("freq_in", Port::Omitted, "carrier", Port::Named("freq".to_string())),
            conn("modulator", Port::Omitted, "carrier", Port::Index(0)),
        ],
        sink: "carrier".to_string(),
    };
    let voice = Macro {
        name: "voice".to_string(),
        default_params: Some(obj(vec![("freq", f(440.0)), ("attack", f(100.0))])),
        virtual_ports_in: vec!["gate".to_string(), "voice_freq".to_string()],
        declarations: vec![scope(
            "audio",
            vec![
                decl("fm_osc", Some("osc_inst"), Some(obj(vec![("freq", Value::Template("$freq".to_string()))]))),
                decl("adsr", Some("env"), Some(obj(vec![("attack", Value::Template("$attack".to_string()))]))),
            ],
        )],
        connections: vec![
            conn("voice_freq", Port::Omitted, "osc_inst", Port::Named("freq_in".to_string())),
            conn("gate", Port::Omitted, "env", Port::Named("gate".to_string())),
            conn("osc_inst", Port::Omitted, "env", Port::Index(1)),
        ],
        sink: "env".to_string(),
    };
    let ast = program(
        vec![fm_osc, voice],
        vec![
            scope("audio", vec![decl("voice", Some("lead"), Some(obj(vec![("freq", f(880.0)), ("attack", f(200.0))])))]),
            scope("midi", vec![decl("poly_voice", Some("poly"), None)]),
        ],
        vec![
            conn("poly", Port::Named("freq".to_string()), "lead", Port::Named("voice_freq".to_string())),
            conn("poly", Port::Named("gate".to_string()), "lead", Port::Named("gate".to_string())),
        ],
        "lead",
    );
    let graph = expand(ast);
    for alias in ["lead.osc_inst.modulator", "lead.osc_inst.carrier", "lead.env"] {
        assert!(node_by_alias(&graph, alias).is_some(), "missing {}", alias);
    }
    let carrier = node_by_alias(&graph, "lead.osc_inst.carrier").unwrap();
    assert_eq!(carrier.params.get("freq"), Some(&f(880.0)));
    let env = node_by_alias(&graph, "lead.env").unwrap();
    assert_eq!(env.params.get("attack"), Some(&f(200.0)));
    let mod_to_carrier = graph.find_edges_between("lead.osc_inst.modulator", "lead.osc_inst.carrier");
    assert_eq!(mod_to_carrier.len(), 1);
    assert_eq!(mod_to_carrier[0].sink_port, Port::Index(0));
    let osc_to_env = graph.find_edges_between("lead.osc_inst.carrier", "lead.env");
    assert_eq!(osc_to_env.len(), 1);
    assert_eq!(osc_to_env[0].sink_port, Port::Index(1));
    let poly_edges = graph.find_edges_from("poly");
    let freq_edge = poly_edges
        .iter()
        .find(|e| e.source_port == Port::Named("freq".to_string()))
        .expect("poly.freq edge missing");
    assert_eq!(freq_edge.sink, carrier.id, "poly.freq should route through voice_freq, freq_in, carrier.freq");
    assert_eq!(freq_edge.sink_port, Port::Named("freq".to_string()));
    let gate_edge = poly_edges
        .iter()
        .find(|e| e.source_port == Port::Named("gate".to_string()))
        .expect("poly.gate edge missing");
    assert_eq!(gate_edge.sink, env.id, "poly.gate should route through gate, env.gate");
    assert_eq!(gate_edge.sink_port, Port::Named("gate".to_string()));
    assert_eq!(graph.edge_count(), 4);
}

#[test]
fn self_referencing_patch_exceeds_expansion_depth() {
    let mut body = IRGraph::new();
    let inner = body.add_node(IRNodeKind::MacroRef, "audio".to_string(), "loop".to_string(), "again".to_string(), Object::new(), Vec::new());
    let looping = IRMacro { name: "loop".to_string(), default_params: None, virtual_input_map: Vec::new(), body, sink: inner };
    let mut g = IRGraph::new();
    g.add_node(IRNodeKind::MacroRef, "audio".to_string(), "loop".to_string(), "top".to_string(), Object::new(), Vec::new());
    let r = MacroExpansionPass.run(g, &vec![looping]);
    assert_eq!(
        r.err(),
        Some(legato::error::ValidationError::Expansion(
            "macro expansion exceeded depth 16 — patches may be mutually recursive".to_string()
        ))
    );
}

#[test]
fn mutually_referencing_patches_lower_with_a_leaf_at_the_back_reference() {
    let a = Macro {
        name: "a".to_string(),
        default_params: None,
        virtual_ports_in: Vec::new(),
        declarations: vec![scope("audio", vec![decl("b", Some("inner_b"), None)])],
        connections: Vec::new(),
        sink: "inner_b".to_string(),
    };
    let b = Macro {
        name: "b".to_string(),
        default_params: None,
        virtual_ports_in: Vec::new(),
        declarations: vec![scope("audio", vec![decl("a", Some("inner_a"), None)])],
        connections: Vec::new(),
        sink: "inner_a".to_string(),
    };
    let ast = program(vec![a, b], vec![scope("audio", vec![decl("a", Some("top"), None)])], vec![], "top");
    let graph = expand(ast);
    assert!(!graph.has_unresolved_macros());
    let leaf = node_by_alias(&graph, "top.inner_b.inner_a").expect("nested leaf missing");
    assert_eq!(leaf.kind, IRNodeKind::Leaf);
    assert_eq!(leaf.node_type, "a");
}
