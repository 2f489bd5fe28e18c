use legato::ir::{IRNodeKind, NodeId, Object, Port, Value};
use legato::ir_graph::IRGraph;

fn add(g: &mut IRGraph, alias: &str) -> NodeId {
    g.add_node(
        IRNodeKind::Leaf,
        "audio".to_string(),
        "sine".to_string(),
        alias.to_string(),
        Object::new(),
        vec![],
    )
}

#[test]
fn nodes_get_fresh_ids_and_aliases() {
    let mut g = IRGraph::new();
    let a = add(&mut g, "a");
    let b = add(&mut g, "b");
    assert_eq!((a, b), (NodeId(0), NodeId(1)));
    assert_eq!(g.node_count(), 2);
    assert_eq!(g.resolve_alias("b"), Some(b));
    assert_eq!(g.resolve_alias("c"), None);
    assert_eq!(g.get_node(a).unwrap().alias, "a");
    assert!(g.get_node(NodeId(7)).is_none());
    assert!(!g.has_unresolved_macros());
    g.add_node(
        IRNodeKind::MacroRef,
        "audio".to_string(),
        "voice".to_string(),
        "v".to_string(),
        Object::new(),
        vec![],
    );
    assert!(g.has_unresolved_macros());
}

#[test]
fn insert_between_keeps_ports_and_order() {
    let mut g = IRGraph::new();
    let a = add(&mut g, "a");
    let b = add(&mut g, "b");
    g.connect(a, Port::Index(1), b, Port::Named("in".to_string()));
    let mut params = Object::new();
    params.insert("val".to_string(), Value::F32Bits(0.5f32.to_bits()));
    let m = g.insert_between(0, "audio".to_string(), "gain".to_string(), "mid".to_string(), params);
    assert_eq!(g.get_node(m).unwrap().params.get("val"), Some(&Value::F32Bits(0.5f32.to_bits())));
    assert!(g.get_node(m).unwrap().pipes.is_empty());
    assert_eq!(m, NodeId(2));
    assert_eq!(g.edge_count(), 2);
    let e = g.edges();
    assert_eq!((e[0].source, e[0].sink), (a, m));
    assert_eq!(e[0].source_port, Port::Index(1));
    assert_eq!(e[0].sink_port, Port::Omitted);
    assert_eq!((e[1].source, e[1].sink), (m, b));
    assert_eq!(e[1].source_port, Port::Omitted);
    assert_eq!(e[1].sink_port, Port::Named("in".to_string()));
    assert_eq!(g.successors(a), vec![m]);
    assert_eq!(g.successors(m), vec![b]);
}

#[test]
fn removing_a_node_swaps_in_the_last_and_drops_its_edges() {
    let mut g = IRGraph::new();
    let a = add(&mut g, "a");
    let b = add(&mut g, "b");
    let c = add(&mut g, "c");
    g.connect(a, Port::Omitted, b, Port::Omitted);
    g.connect(b, Port::Omitted, c, Port::Omitted);
    g.connect(a, Port::Omitted, c, Port::Omitted);
    g.remove_node(a);
    assert_eq!(g.node_count(), 2);
    assert_eq!(g.resolve_alias("a"), None);
    assert_eq!(g.resolve_alias("c"), Some(c));
    assert_eq!(g.edge_count(), 1);
    assert_eq!((g.edges()[0].source, g.edges()[0].sink), (b, c));
    // Unknown ids change nothing.
    g.remove_node(NodeId(9));
    assert_eq!(g.node_count(), 2);
    let d = add(&mut g, "d");
    assert_eq!(d, NodeId(3));
}

#[test]
fn topological_sort_runs_producers_first_and_ties_by_id() {
    let mut g = IRGraph::new();
    let out = add(&mut g, "out");
    let osc = add(&mut g, "osc");
    let lfo = add(&mut g, "lfo");
    let filt = add(&mut g, "filt");
    g.connect(osc, Port::Omitted, filt, Port::Omitted);
    g.connect(lfo, Port::Omitted, filt, Port::Index(1));
    g.connect(filt, Port::Omitted, out, Port::Omitted);
    // osc and lfo start ready (ids 1 and 2), filt follows both, then out.
    assert_eq!(g.topological_sort(), vec![osc, lfo, filt, out]);

    let mut h = IRGraph::new();
    let a = add(&mut h, "a");
    let b = add(&mut h, "b");
    let c = add(&mut h, "c");
    h.connect(c, Port::Omitted, a, Port::Omitted);
    h.connect(c, Port::Omitted, b, Port::Omitted);
    // Only c starts ready; a and b become ready together and go by id.
    assert_eq!(h.topological_sort(), vec![c, a, b]);
}

fn add_typed(g: &mut IRGraph, node_type: &str, alias: &str) -> NodeId {
    g.add_node(
        IRNodeKind::Leaf,
        "audio".to_string(),
        node_type.to_string(),
        alias.to_string(),
        Object::new(),
        vec![],
    )
}

#[test]
fn test_topological_sort_respects_edges() {
    let mut graph = IRGraph::new();
    let src = add_typed(&mut graph, "osc", "src");
    let mid = add_typed(&mut graph, "filter", "mid");
    let snk = add_typed(&mut graph, "output", "snk");
    graph.connect(src, Port::Omitted, mid, Port::Omitted);
    graph.connect(mid, Port::Omitted, snk, Port::Omitted);
    let order = graph.topological_sort();

    let pos = |alias: &str| {
        let id = graph.resolve_alias(alias).unwrap();
        order.iter().position(|&x| x == id).unwrap()
    };
    assert!(pos("src") < pos("mid"));
    assert!(pos("mid") < pos("snk"));
}

#[test]
fn test_insert_between_splits_edge() {
    let mut graph = IRGraph::new();
    let src = add_typed(&mut graph, "osc", "src");
    let snk = add_typed(&mut graph, "output", "snk");
    graph.connect(src, Port::Omitted, snk, Port::Omitted);
    assert_eq!(graph.edge_count(), 1);

    graph.insert_between(0, "audio".to_string(), "meter".to_string(), "meter_0".to_string(), Object::new());

    assert_eq!(graph.node_count(), 3);
    assert_eq!(graph.edge_count(), 2);
    assert_eq!(graph.find_edges_between("src", "meter_0").len(), 1);
    assert_eq!(graph.find_edges_between("meter_0", "snk").len(), 1);

    let src_id = graph.resolve_alias("src").unwrap();
    let snk_id = graph.resolve_alias("snk").unwrap();
    assert_eq!(
        graph.find_edges_from("src").iter().filter(|e| e.sink == snk_id).count(),
        0,
        "original direct edge should be removed"
    );
    assert_eq!(src_id, src);
    assert_eq!(graph.find_edges_to("snk").len(), 1);
    assert_eq!(graph.find_edges_between("src", "nowhere").len(), 0);
}

#[test]
fn cycles_have_no_topological_order() {
    let mut g = IRGraph::new();
    let a = add(&mut g, "a");
    let b = add(&mut g, "b");
    let c = add(&mut g, "c");
    g.connect(a, Port::Omitted, b, Port::Omitted);
    g.connect(b, Port::Omitted, c, Port::Omitted);
    assert_eq!(g.checked_topological_sort(), Some(vec![a, b, c]));
    g.connect(c, Port::Omitted, b, Port::Omitted);
    assert_eq!(g.checked_topological_sort(), None);
    let mut s = IRGraph::new();
    let x = add(&mut s, "x");
    s.connect(x, Port::Omitted, x, Port::Omitted);
    assert_eq!(s.checked_topological_sort(), None);
}
