use legato::error::ValidationError;
use legato::ir::Port;
use legato::kernel_emit::{pascal_case, port_expression, rust_type_for, sanitize};
use legato::kernel_plan::{execution_order, identity_seed, resolve_port, DeclIdx, PlanSrc, ValueSlot};
use legato::ports::PortMeta;
use std::collections::HashMap;

#[test]
fn every_kernel_node_type_has_a_rust_type() {
    // The node types a kernel body accepts.
    const KERNEL_CAPABLE: &[&str] = &[
        "sine", "saw", "svf", "onepole", "allpass", "tap", "map", "noise", "householder",
        "hadamard", "pan", "mult", "add", "sub", "div", "gain",
    ];

    let missing: Vec<&str> =
        KERNEL_CAPABLE.iter().copied().filter(|t| rust_type_for(t).is_none()).collect();

    assert!(
        missing.is_empty(),
        "node types accepted by build_kernel_node but unmapped in the emitter: {missing:?}"
    );
}

#[test]
fn pascal_case_handles_separators() {
    assert_eq!(pascal_case("fm3"), "Fm3");
    assert_eq!(pascal_case("plate_verb"), "PlateVerb");
    assert_eq!(pascal_case("modtap4"), "Modtap4");
}

#[test]
fn interior_sums_are_primed_with_zero() {
    let mut names = HashMap::new();
    names.insert(0u32, "a_0".to_string());
    names.insert(1u32, "b_0".to_string());

    let sources = vec![
        PlanSrc::Interior { slot: ValueSlot(0), delayed: false },
        PlanSrc::Interior { slot: ValueSlot(1), delayed: true },
    ];

    assert_eq!(port_expression(&sources, &names), "Some(0.0f32 + v_a_0 + self.z_b_0)");
}

#[test]
fn unpatched_port_is_none() {
    assert_eq!(port_expression(&[], &HashMap::new()), "None");
}

#[test]
fn mixed_sources_carry_the_patched_flag() {
    let mut names = HashMap::new();
    names.insert(3u32, "fb_0".to_string());
    let sources = vec![PlanSrc::Exterior(12), PlanSrc::Interior { slot: ValueSlot(3), delayed: true }];
    assert_eq!(
        port_expression(&sources, &names),
        "{ let mut acc = 0.0f32; let mut patched = false; \
         if let Some(v) = in_frame[12] { acc += v; patched = true; } \
         acc += self.z_fb_0; patched = true; \
         if patched { Some(acc) } else { None } }"
    );
}

#[test]
fn type_table_and_identifiers() {
    assert_eq!(rust_type_for("gain"), Some(("Op", "nodes::audio::ops::ApplyOp")));
    assert_eq!(rust_type_for("tap"), Some(("Tap", "nodes::audio::tap::DelayTap")));
    assert_eq!(rust_type_for("reverb"), None);
    assert_eq!(sanitize("voice.0-lp"), "voice_0_lp");
    assert_eq!(pascal_case("__a__b9c"), "AB9c");
    assert_eq!(pascal_case(""), "");
}

#[test]
fn identity_seed_is_fnv1a_with_low_bit_set() {
    // FNV-1a of "" is the offset basis 0x811C9DC5; of "a::b" computed by hand below.
    let mut h: u32 = 0x811C_9DC5;
    for b in b"voice.0::noise" {
        h ^= *b as u32;
        h = h.wrapping_mul(0x0100_0193);
    }
    assert_eq!(identity_seed("voice.0", "noise"), h | 1);
    assert_eq!(identity_seed("voice.0", "noise") % 2, 1);
    assert_ne!(identity_seed("voice.0", "noise"), identity_seed("voice.1", "noise"));
    assert_eq!(identity_seed("k", "n"), identity_seed("k", "n"));
}

fn metas(names: &[&str]) -> Vec<PortMeta> {
    names.iter().enumerate().map(|(index, n)| PortMeta { name: n.to_string(), index }).collect()
}

#[test]
fn resolve_port_cases() {
    let ports = metas(&["in", "freq", "q"]);
    assert_eq!(resolve_port(&Port::Omitted, &ports, "f"), Ok(vec![0, 1, 2]));
    assert_eq!(resolve_port(&Port::Index(1), &ports, "f"), Ok(vec![1]));
    assert_eq!(resolve_port(&Port::Named("q".to_string()), &ports, "f"), Ok(vec![2]));
    assert_eq!(
        resolve_port(&Port::Index(7), &ports, "f"),
        Err(ValidationError::InvalidParameter(
            "kernel: port index 7 out of range for 'f' (3 ports)".to_string()
        ))
    );
    assert_eq!(
        resolve_port(&Port::Named("gain".to_string()), &ports, "f"),
        Err(ValidationError::InvalidParameter("kernel: no port named 'gain' on 'f'".to_string()))
    );
    assert_eq!(
        resolve_port(&Port::Slice(0, 2), &ports, "f"),
        Err(ValidationError::UnsupportedInKernel("port slices/strides on 'f'".to_string()))
    );
}

#[test]
fn execution_order_follows_edges_and_breaks_cycles() {
    // 0 -> 1 -> 2, declared out of order: 2 listed first has no edges in.
    let succ = vec![vec![DeclIdx(1)], vec![DeclIdx(2)], vec![]];
    assert_eq!(execution_order(3, &succ), vec![DeclIdx(0), DeclIdx(1), DeclIdx(2)]);

    // 2 -> 0 -> 1; roots tried in declaration order.
    let succ = vec![vec![DeclIdx(1)], vec![], vec![DeclIdx(0)]];
    assert_eq!(execution_order(3, &succ), vec![DeclIdx(2), DeclIdx(0), DeclIdx(1)]);

    // Two-node cycle: the first declared node runs first; 1 -> 0 is the back edge.
    let succ = vec![vec![DeclIdx(1)], vec![DeclIdx(0)]];
    assert_eq!(execution_order(2, &succ), vec![DeclIdx(0), DeclIdx(1)]);

    // Self loop.
    let succ = vec![vec![DeclIdx(0)]];
    assert_eq!(execution_order(1, &succ), vec![DeclIdx(0)]);
    assert_eq!(execution_order(0, &[]), vec![]);
}

#[test]
fn declaration_order_does_not_dictate_execution_order() {
    // `mult` (0) is declared before the `add` (1) that feeds it.
    let succ = vec![vec![], vec![DeclIdx(0)]];
    assert_eq!(execution_order(2, &succ), vec![DeclIdx(1), DeclIdx(0)]);
}

#[test]
fn acyclic_graph_runs_every_source_before_its_readers() {
    // A diamond with an extra long edge: 3 -> {1, 2}, 1 -> 0, 2 -> 0, 3 -> 0, 4 -> 3.
    let succ = vec![
        vec![],
        vec![DeclIdx(0)],
        vec![DeclIdx(0)],
        vec![DeclIdx(1), DeclIdx(2), DeclIdx(0)],
        vec![DeclIdx(3)],
    ];
    let order = execution_order(5, &succ);
    let pos = |n: usize| order.iter().position(|d| d.0 == n).unwrap();
    for (from, tos) in succ.iter().enumerate() {
        for to in tos {
            assert!(pos(from) < pos(to.0), "{from} must run before {}", to.0);
        }
    }
}

#[test]
fn identity_seeds_are_stable_distinct_and_nonzero() {
    let v0 = [identity_seed("voice.0", "noise_a"), identity_seed("voice.0", "noise_b")];
    let v1 = [identity_seed("voice.1", "noise_a"), identity_seed("voice.1", "noise_b")];
    assert_eq!(v0, [identity_seed("voice.0", "noise_a"), identity_seed("voice.0", "noise_b")]);
    assert_ne!(v0[0], v0[1]);
    assert_ne!(v0[0], v1[0]);
    assert_ne!(v0[1], v1[1]);
    assert!(v0.iter().chain(&v1).all(|&s| s != 0));
}
