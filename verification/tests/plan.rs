use legato::error::ValidationError;
use legato::ir::{IRNodeKind, NodeId, Object, Port, Value};
use legato::ir_graph::IRGraph;
use legato::kernel_plan::{identity_seed, PlanSrc};
use legato::plan::{resolve_plan, IRMacro, KernelPlan, PortOracle};
use legato::ports::{PortBuilder, PortMeta, Ports};

const MAX_FRAME: usize = 16;

struct Three;
impl PortOracle for Three {
    fn ports_for(&mut self, node_type: &str, _p: &Object) -> Result<Ports, ValidationError> {
        match node_type {
            "two" => Ok(PortBuilder::new().audio_out(2).build()),
            _ => Ok(PortBuilder::new().audio_in(3).audio_out(1).build()),
        }
    }
}

struct Bad;
impl PortOracle for Bad {
    fn ports_for(&mut self, _t: &str, _p: &Object) -> Result<Ports, ValidationError> {
        Ok(Ports {
            audio_in: vec![PortMeta { name: "in".to_string(), index: 5 }],
            audio_out: Vec::new(),
            control_in: Vec::new(),
            control_out: Vec::new(),
        })
    }
}

/// Port layouts of the node types these kernels use.
struct TableOracle;

impl PortOracle for TableOracle {
    fn ports_for(&mut self, node_type: &str, _params: &Object) -> Result<Ports, ValidationError> {
        match node_type {
            "add" | "mult" => Ok(PortBuilder::new().audio_in(1).audio_in_named(&["val"]).audio_out(1).build()),
            "sine" => Ok(PortBuilder::new().audio_in_named(&["freq"]).audio_out(1).build()),
            "noise" => Ok(PortBuilder::new().audio_out(1).build()),
            "wide" => Ok(PortBuilder::new().audio_in(2).audio_out(2).build()),
            other => Err(ValidationError::NodeNotFound(other.to_string())),
        }
    }
}

fn f(x: f32) -> Value {
    Value::F32Bits(x.to_bits())
}

fn obj(entries: Vec<(&str, Value)>) -> Object {
    let mut o = Object::new();
    for (k, v) in entries {
        o.insert(k.to_string(), v);
    }
    o
}

fn leaf(g: &mut IRGraph, node_type: &str, alias: &str, params: Object) -> NodeId {
    g.add_node(IRNodeKind::Leaf, "audio".to_string(), node_type.to_string(), alias.to_string(), params, Vec::new())
}

fn kernel(
    name: &str,
    defaults: Option<Object>,
    body: IRGraph,
    inputs: Vec<(&str, Vec<(NodeId, Port)>)>,
    sink: NodeId,
) -> IRMacro {
    IRMacro {
        name: name.to_string(),
        default_params: defaults,
        virtual_input_map: inputs.into_iter().map(|(n, t)| (n.to_string(), t)).collect(),
        body,
        sink,
    }
}

fn fb_loop() -> IRMacro {
    let mut g = IRGraph::new();
    let add = leaf(&mut g, "add", "add", obj(vec![("val", f(0.0))]));
    let mult = leaf(&mut g, "mult", "mult", obj(vec![("val", Value::Template("$fb".to_string()))]));
    g.connect(add, Port::Omitted, mult, Port::Index(0));
    g.connect(mult, Port::Omitted, add, Port::Index(1));
    kernel("fb_loop", Some(obj(vec![("fb", f(0.5))])), g, vec![("audio_in", vec![(add, Port::Index(0))])], add)
}

fn plan_of(m: &IRMacro, salt: &str) -> KernelPlan {
    resolve_plan(m, &Object::new(), salt, MAX_FRAME, &mut TableOracle).expect("kernel should resolve")
}

#[test]
fn back_edge_is_the_only_delayed_read() {
    let plan = plan_of(&fb_loop(), "inst");
    let mut delayed: Vec<(&str, usize)> = Vec::new();
    let mut immediate: Vec<(&str, usize)> = Vec::new();
    for node in &plan.nodes {
        for (port, srcs) in node.inputs.iter().enumerate() {
            for src in srcs {
                if let PlanSrc::Interior { delayed: d, .. } = src {
                    if *d {
                        delayed.push((&node.alias, port));
                    } else {
                        immediate.push((&node.alias, port));
                    }
                }
            }
        }
    }
    assert_eq!(delayed, vec![("add", 1)], "expected exactly the back edge to be delayed");
    assert_eq!(immediate, vec![("mult", 0)], "expected the forward edge to be same-tick");
    let order: Vec<&str> = plan.nodes.iter().map(|n| n.alias.as_str()).collect();
    assert_eq!(order, vec!["add", "mult"]);
}

#[test]
fn acyclic_kernel_has_no_delayed_reads() {
    let mut g = IRGraph::new();
    let a = leaf(&mut g, "mult", "a", obj(vec![("val", f(2.0))]));
    let b = leaf(&mut g, "mult", "b", obj(vec![("val", f(3.0))]));
    g.connect(a, Port::Omitted, b, Port::Index(0));
    let m = kernel("chain", None, g, vec![("audio_in", vec![(a, Port::Index(0))])], b);
    let plan = plan_of(&m, "inst");
    let any_delayed = plan
        .nodes
        .iter()
        .flat_map(|n| n.inputs.iter())
        .flatten()
        .any(|src| matches!(src, PlanSrc::Interior { delayed: true, .. }));
    assert!(!any_delayed, "feed-forward kernel should have no delayed read");
}

#[test]
fn structural_params_reject_templates() {
    let mut g = IRGraph::new();
    let wide = leaf(&mut g, "mult", "wide", obj(vec![("val", f(1.0)), ("chans", Value::Template("$n".to_string()))]));
    let m = kernel("bad", Some(obj(vec![("n", f(4.0))])), g, vec![("audio_in", vec![(wide, Port::Index(0))])], wide);
    match resolve_plan(&m, &Object::new(), "bad", MAX_FRAME, &mut TableOracle) {
        Err(ValidationError::UnsupportedInKernel(msg)) => assert!(
            msg.contains("chans") && msg.contains("$n"),
            "error should name the param and the template: {msg}"
        ),
        Err(other) => panic!("expected UnsupportedInKernel, got {other:?}"),
        Ok(_) => panic!("expected UnsupportedInKernel, got a plan"),
    }
}

#[test]
fn structural_template_message_is_exact() {
    let mut g = IRGraph::new();
    let wide = leaf(&mut g, "mult", "wide", obj(vec![("capacity", Value::Template("$$cap".to_string()))]));
    let m = kernel("k", None, g, vec![], wide);
    let r = resolve_plan(&m, &Object::new(), "s", MAX_FRAME, &mut TableOracle);
    assert_eq!(
        r.err(),
        Some(ValidationError::UnsupportedInKernel(
            "kernel 'k': param 'capacity' on 'wide' fixes port arity or allocation, so it must be a literal, not the template '$cap'".to_string()
        ))
    );
}

#[test]
fn declared_params_record_every_target() {
    let mut g = IRGraph::new();
    let a = leaf(&mut g, "sine", "a", obj(vec![("freq", Value::Template("$rate".to_string()))]));
    let b = leaf(&mut g, "sine", "b", obj(vec![("freq", Value::Template("$rate".to_string()))]));
    let mix = leaf(&mut g, "add", "mix", obj(vec![("val", f(0.0))]));
    g.connect(a, Port::Omitted, mix, Port::Index(0));
    g.connect(b, Port::Omitted, mix, Port::Index(0));
    let m = kernel("shared", Some(obj(vec![("rate", f(2.0))])), g, vec![("audio_in", vec![(mix, Port::Index(0))])], mix);
    let plan = plan_of(&m, "inst");
    assert_eq!(plan.params.len(), 1);
    let rate = &plan.params[0];
    assert_eq!(rate.name, "rate");
    let mut targets: Vec<(&str, &str)> =
        rate.targets.iter().map(|t| (t.node_alias.as_str(), t.node_param.as_str())).collect();
    targets.sort_unstable();
    assert_eq!(targets, vec![("a", "freq"), ("b", "freq")]);
}

#[test]
fn instance_params_override_defaults_and_substitute() {
    let m = fb_loop();
    let plan = resolve_plan(&m, &obj(vec![("fb", f(0.25))]), "inst", MAX_FRAME, &mut TableOracle).unwrap();
    assert_eq!(plan.params[0].default, f(0.25));
    let mult = plan.nodes.iter().find(|n| n.alias == "mult").unwrap();
    assert_eq!(mult.params.get("val"), Some(&f(0.25)));
    let plan = plan_of(&m, "inst");
    assert_eq!(plan.params[0].default, f(0.5));
    let mult = plan.nodes.iter().find(|n| n.alias == "mult").unwrap();
    assert_eq!(mult.params.get("val"), Some(&f(0.5)));
}

fn noisy() -> IRMacro {
    let mut g = IRGraph::new();
    let n1 = leaf(&mut g, "noise", "n1", Object::new());
    let n2 = leaf(&mut g, "noise", "n2", Object::new());
    let mix = leaf(&mut g, "add", "mix", obj(vec![("val", f(0.0))]));
    g.connect(n1, Port::Omitted, mix, Port::Index(0));
    g.connect(n2, Port::Omitted, mix, Port::Index(0));
    kernel("noisy", None, g, vec![("audio_in", vec![(mix, Port::Index(0))])], mix)
}

#[test]
fn identity_seeds_are_stable_distinct_and_per_instance() {
    let m = noisy();
    let seeds = |salt: &str| -> Vec<u32> {
        plan_of(&m, salt).nodes.iter().filter(|n| n.node_type == "noise").map(|n| n.identity_seed).collect()
    };
    let voice0 = seeds("voice.0");
    let voice1 = seeds("voice.1");
    assert_eq!(voice0.len(), 2, "expected two noise nodes");
    assert_eq!(voice0, seeds("voice.0"));
    assert_ne!(voice0[0], voice0[1]);
    assert_ne!(voice0[0], voice1[0]);
    assert_ne!(voice0[1], voice1[1]);
    assert!(voice0.iter().chain(&voice1).all(|&s| s != 0));
    let plan = plan_of(&m, "voice.0");
    for n in &plan.nodes {
        assert_eq!(n.identity_seed, identity_seed("voice.0", &n.alias));
    }
}

#[test]
fn probing_ports_does_not_perturb_node_construction() {
    let m = noisy();
    let before = plan_of(&m, "voice.0");
    for _ in 0..3 {
        let _ = plan_of(&m, "other");
    }
    let after = plan_of(&m, "voice.0");
    let seeds = |p: &KernelPlan| -> Vec<u32> { p.nodes.iter().map(|n| n.identity_seed).collect() };
    assert_eq!(seeds(&before), seeds(&after), "seeds must not depend on what else was built");
}

#[test]
fn plan_layout_and_exterior_signature() {
    let plan = plan_of(&fb_loop(), "inst");
    assert_eq!(plan.name, "fb_loop");
    assert_eq!(plan.total_slots, 2);
    assert_eq!(plan.input_names, vec!["audio_in".to_string()]);
    assert_eq!(plan.output_names, vec!["0".to_string()]);
    let add = &plan.nodes[0];
    let mult = &plan.nodes[1];
    assert_eq!(add.slot_base.0, 0);
    assert_eq!(mult.slot_base.0, 1);
    assert_eq!(plan.output_slots, vec![add.slot_base]);
    assert_eq!(add.n_in(), 2);
    assert_eq!(add.inputs[0], vec![PlanSrc::Exterior(0)]);
    assert_eq!(add.inputs[1], vec![PlanSrc::Interior { slot: mult.slot_base, delayed: true }]);
    assert_eq!(mult.inputs[0], vec![PlanSrc::Interior { slot: add.slot_base, delayed: false }]);
    assert!(mult.inputs[1].is_empty());
    assert_eq!(plan.max_node_inputs(), 2);
    assert_eq!(plan.param_names(), vec!["fb".to_string()]);
    let sig = plan.ports();
    assert_eq!(sig.audio_in, vec![PortMeta { name: "audio_in".to_string(), index: 0 }]);
    assert_eq!(sig.audio_out, vec![PortMeta { name: "0".to_string(), index: 0 }]);
    assert!(sig.control_in.is_empty() && sig.control_out.is_empty());
}

#[test]
fn omitted_ports_broadcast_and_sum() {
    // One output into every input of `mix`, then both outputs of `w` summed into one port.
    let mut g = IRGraph::new();
    let s = leaf(&mut g, "sine", "s", Object::new());
    let mix = leaf(&mut g, "add", "mix", Object::new());
    let w = leaf(&mut g, "wide", "w", Object::new());
    g.connect(s, Port::Omitted, mix, Port::Omitted);
    g.connect(w, Port::Omitted, mix, Port::Named("val".to_string()));
    let m = kernel("fan", None, g, vec![], mix);
    let plan = plan_of(&m, "x");
    let mix_node = plan.nodes.iter().find(|n| n.alias == "mix").unwrap();
    assert_eq!(mix_node.inputs[0].len(), 1);
    assert_eq!(mix_node.inputs[1].len(), 3);
}

#[test]
fn nested_macro_inside_kernel_is_refused() {
    let mut g = IRGraph::new();
    let v = g.add_node(IRNodeKind::MacroRef, "audio".to_string(), "voice".to_string(), "v".to_string(), Object::new(), Vec::new());
    let m = kernel("outer", None, g, vec![], v);
    let r = resolve_plan(&m, &Object::new(), "s", MAX_FRAME, &mut TableOracle);
    assert_eq!(
        r.err(),
        Some(ValidationError::UnsupportedInKernel("nested patch/kernel 'v' inside kernel 'outer'".to_string()))
    );
}

#[test]
fn mismatched_arity_is_refused() {
    let mut g = IRGraph::new();
    let w = leaf(&mut g, "wide", "w", Object::new());
    let x = leaf(&mut g, "wide", "x", Object::new());
    let s = leaf(&mut g, "add", "s", Object::new());
    g.connect(w, Port::Omitted, x, Port::Omitted);
    g.connect(s, Port::Omitted, x, Port::Omitted);
    let _ = s;
    // 2:2 zips; now force 2:3 with a three-input sink.
    let m = kernel("ok", None, g, vec![], x);
    assert!(resolve_plan(&m, &Object::new(), "s", MAX_FRAME, &mut TableOracle).is_ok());

    let mut g = IRGraph::new();
    let a = leaf(&mut g, "two", "a", Object::new());
    let b = leaf(&mut g, "three", "b", Object::new());
    g.connect(a, Port::Omitted, b, Port::Omitted);
    let m = kernel("k", None, g, vec![], b);
    let r = resolve_plan(&m, &Object::new(), "s", MAX_FRAME, &mut Three);
    assert_eq!(
        r.err(),
        Some(ValidationError::InvalidParameter(
            "kernel 'k': cannot match port arity 2:3 between 'a' and 'b'".to_string()
        ))
    );
}

#[test]
fn unknown_port_name_is_refused() {
    let mut g = IRGraph::new();
    let a = leaf(&mut g, "sine", "a", Object::new());
    let b = leaf(&mut g, "add", "b", Object::new());
    g.connect(a, Port::Omitted, b, Port::Named("cutoff".to_string()));
    let m = kernel("k", None, g, vec![], b);
    let r = resolve_plan(&m, &Object::new(), "s", MAX_FRAME, &mut TableOracle);
    assert_eq!(r.err(), Some(ValidationError::InvalidParameter("kernel: no port named 'cutoff' on 'b'".to_string())));
}

#[test]
fn too_many_exterior_ports_is_refused() {
    let mut g = IRGraph::new();
    let a = leaf(&mut g, "add", "a", Object::new());
    let m = kernel("k", None, g, vec![("x", vec![(a, Port::Index(0))]), ("y", vec![(a, Port::Index(1))])], a);
    let r = resolve_plan(&m, &Object::new(), "s", 1, &mut TableOracle);
    assert_eq!(r.err(), Some(ValidationError::UnsupportedInKernel("kernel 'k' exceeds 1 exterior ports".to_string())));
    assert!(resolve_plan(&m, &Object::new(), "s", 2, &mut TableOracle).is_ok());
}

#[test]
fn misnumbered_ports_are_refused() {
    let mut g = IRGraph::new();
    let a = leaf(&mut g, "x", "a", Object::new());
    let m = kernel("k", None, g, vec![], a);
    let r = resolve_plan(&m, &Object::new(), "s", MAX_FRAME, &mut Bad);
    assert_eq!(
        r.err(),
        Some(ValidationError::InvalidParameter(
            "kernel 'k': a node reported ports numbered outside their own list".to_string()
        ))
    );
}

#[test]
fn oracle_errors_pass_through() {
    let mut g = IRGraph::new();
    let a = leaf(&mut g, "mystery", "a", Object::new());
    let m = kernel("k", None, g, vec![], a);
    let r = resolve_plan(&m, &Object::new(), "s", MAX_FRAME, &mut TableOracle);
    assert_eq!(r.err(), Some(ValidationError::NodeNotFound("mystery".to_string())));
}
