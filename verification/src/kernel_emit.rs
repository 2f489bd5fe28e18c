//! Pieces of the kernel code emitter: the node-type table, identifier
//! sanitizing and casing, and the Rust expression that sums one input port.
use crate::kernel_plan::{PlanSrc, ValueSlot};
use crate::text::{decimal, push_decimal, push_str, str_eq, string_push};
use std::collections::HashMap;
use vstd::prelude::*;
use vstd::string::StrSliceExecFns;

verus! {

broadcast use vstd::std_specs::hash::group_hash_axioms;

/// The `KernelNode` variant and concrete Rust type for a DSL node type.
pub open spec fn spec_rust_type_for(t: Seq<char>) -> Option<(Seq<char>, Seq<char>)> {
    if t == "sine"@ {
        Some(("Sine"@, "nodes::audio::sine::Sine"@))
    } else if t == "saw"@ {
        Some(("Saw"@, "nodes::audio::saw::Saw"@))
    } else if t == "svf"@ {
        Some(("Svf"@, "nodes::audio::svf::Svf"@))
    } else if t == "onepole"@ {
        Some(("OnePole"@, "nodes::audio::onepole::OnePole"@))
    } else if t == "allpass"@ {
        Some(("Allpass"@, "nodes::audio::allpass::Allpass"@))
    } else if t == "tap"@ {
        Some(("Tap"@, "nodes::audio::tap::DelayTap"@))
    } else if t == "map"@ {
        Some(("Map"@, "nodes::control::map::Map"@))
    } else if t == "noise"@ {
        Some(("Noise"@, "nodes::audio::noise::Noise"@))
    } else if t == "householder"@ {
        Some(("Householder"@, "nodes::audio::householder::HouseholderMixer"@))
    } else if t == "hadamard"@ {
        Some(("Hadamard"@, "nodes::audio::hadamard::HadamardMixer"@))
    } else if t == "pan"@ {
        Some(("Pan"@, "nodes::audio::pan::Pan"@))
    } else if t == "mult"@ || t == "add"@ || t == "sub"@ || t == "div"@ || t == "gain"@ {
        Some(("Op"@, "nodes::audio::ops::ApplyOp"@))
    } else {
        None
    }
}

/// Maps a DSL node type to the `KernelNode` variant that holds it and the
/// concrete Rust type inside. Every arithmetic node is one `ApplyOp`.
pub fn rust_type_for(node_type: &str) -> (r: Option<(&'static str, &'static str)>)
    ensures
        match r {
            Some((variant, ty)) => spec_rust_type_for(node_type@) == Some((variant@, ty@)),
            None => spec_rust_type_for(node_type@) is None,
        },
{
    if str_eq(node_type, "sine") {
        Some(("Sine", "nodes::audio::sine::Sine"))
    } else if str_eq(node_type, "saw") {
        Some(("Saw", "nodes::audio::saw::Saw"))
    } else if str_eq(node_type, "svf") {
        Some(("Svf", "nodes::audio::svf::Svf"))
    } else if str_eq(node_type, "onepole") {
        Some(("OnePole", "nodes::audio::onepole::OnePole"))
    } else if str_eq(node_type, "allpass") {
        Some(("Allpass", "nodes::audio::allpass::Allpass"))
    } else if str_eq(node_type, "tap") {
        Some(("Tap", "nodes::audio::tap::DelayTap"))
    } else if str_eq(node_type, "map") {
        Some(("Map", "nodes::control::map::Map"))
    } else if str_eq(node_type, "noise") {
        Some(("Noise", "nodes::audio::noise::Noise"))
    } else if str_eq(node_type, "householder") {
        Some(("Householder", "nodes::audio::householder::HouseholderMixer"))
    } else if str_eq(node_type, "hadamard") {
        Some(("Hadamard", "nodes::audio::hadamard::HadamardMixer"))
    } else if str_eq(node_type, "pan") {
        Some(("Pan", "nodes::audio::pan::Pan"))
    } else if str_eq(node_type, "mult") || str_eq(node_type, "add") || str_eq(node_type, "sub")
        || str_eq(node_type, "div") || str_eq(node_type, "gain") {
        Some(("Op", "nodes::audio::ops::ApplyOp"))
    } else {
        None
    }
}

/// ASCII letters and digits.
pub open spec fn is_ascii_alnum(c: char) -> bool {
    ('0' <= c && c <= '9') || ('a' <= c && c <= 'z') || ('A' <= c && c <= 'Z')
}

/// ASCII upper-casing: lower-case ASCII letters map to upper case, every
/// other character to itself.
pub open spec fn ascii_upper(c: char) -> char {
    if 'a' <= c && c <= 'z' {
        ((c as u32) - 32) as char
    } else {
        c
    }
}

fn alnum(c: char) -> (r: bool)
    ensures
        r == is_ascii_alnum(c),
{
    ('0' <= c && c <= '9') || ('a' <= c && c <= 'z') || ('A' <= c && c <= 'Z')
}

fn upper(c: char) -> (r: char)
    ensures
        r == ascii_upper(c),
{
    if 'a' <= c && c <= 'z' {
        let b: u8 = (c as u32 - 32) as u8;
        b as char
    } else {
        c
    }
}

/// Every character that is not an ASCII letter or digit becomes `_`.
pub open spec fn spec_sanitize(s: Seq<char>) -> Seq<char> {
    s.map_values(|c: char| if is_ascii_alnum(c) { c } else { '_' })
}

/// Rewrite a DSL alias into something usable as a Rust identifier fragment.
pub fn sanitize(alias: &str) -> (r: String)
    ensures
        r@ == spec_sanitize(alias@),
{
    let n = alias.unicode_len();
    let mut out = String::new();
    let mut i: usize = 0;
    while i < n
        invariant
            n == alias@.len(),
            i <= n,
            out@ == spec_sanitize(alias@.take(i as int)),
        decreases n - i,
    {
        let c = alias.get_char(i);
        if alnum(c) {
            string_push(&mut out, c);
        } else {
            string_push(&mut out, '_');
        }
        i = i + 1;
        assert(out@ =~= spec_sanitize(alias@.take(i as int)));
    }
    assert(alias@.take(n as int) =~= alias@);
    out
}

/// Pascal case: the ASCII alphanumeric runs of `s`, each with its first
/// character upper-cased, joined with nothing between them.
pub open spec fn spec_pascal_case(s: Seq<char>) -> Seq<char>
    decreases s.len(),
{
    if s.len() == 0 {
        seq![]
    } else {
        let c = s.last();
        let rest = spec_pascal_case(s.drop_last());
        if is_ascii_alnum(c) {
            let starts_run = s.len() < 2 || !is_ascii_alnum(s[s.len() - 2]);
            rest.push(if starts_run { ascii_upper(c) } else { c })
        } else {
            rest
        }
    }
}

/// `fm3` -> `Fm3`, `plate_verb` -> `PlateVerb`.
pub fn pascal_case(name: &str) -> (r: String)
    ensures
        r@ == spec_pascal_case(name@),
{
    let n = name.unicode_len();
    let mut out = String::new();
    let mut prev_alnum = false;
    let mut i: usize = 0;
    while i < n
        invariant
            n == name@.len(),
            i <= n,
            out@ == spec_pascal_case(name@.take(i as int)),
            prev_alnum == (i > 0 && is_ascii_alnum(name@[i - 1])),
        decreases n - i,
    {
        let c = name.get_char(i);
        let a = alnum(c);
        proof {
            let t = name@.take(i + 1);
            assert(t.drop_last() =~= name@.take(i as int));
            assert(t.last() == c);
            if i > 0 {
                assert(t[t.len() - 2] == name@[i - 1]);
            }
        }
        if a {
            if prev_alnum {
                string_push(&mut out, c);
            } else {
                string_push(&mut out, upper(c));
            }
        }
        prev_alnum = a;
        i = i + 1;
    }
    assert(name@.take(n as int) =~= name@);
    out
}

/// How an interior source is read: the previous tick's value across a back
/// edge, the current local otherwise.
pub open spec fn read_term(slot: ValueSlot, delayed: bool, names: Map<u32, String>) -> Seq<char> {
    if delayed {
        "self.z_"@ + names[slot.0]@
    } else {
        "v_"@ + names[slot.0]@
    }
}

/// The interior reads of `srcs`, joined with ` + `.
pub open spec fn joined_reads(srcs: Seq<PlanSrc>, names: Map<u32, String>) -> Seq<char>
    decreases srcs.len(),
{
    if srcs.len() == 0 {
        seq![]
    } else {
        let term = match srcs.last() {
            PlanSrc::Interior { slot, delayed } => read_term(slot, delayed, names),
            PlanSrc::Exterior(_) => seq![],
        };
        if srcs.len() == 1 {
            term
        } else {
            joined_reads(srcs.drop_last(), names) + " + "@ + term
        }
    }
}

/// The accumulate statements for `srcs`, in order.
pub open spec fn accumulate_steps(srcs: Seq<PlanSrc>, names: Map<u32, String>) -> Seq<char>
    decreases srcs.len(),
{
    if srcs.len() == 0 {
        seq![]
    } else {
        let step = match srcs.last() {
            PlanSrc::Interior { slot, delayed } => "acc += "@ + read_term(slot, delayed, names)
                + "; patched = true; "@,
            PlanSrc::Exterior(i) => "if let Some(v) = in_frame["@ + decimal(i as nat)
                + "] { acc += v; patched = true; } "@,
        };
        accumulate_steps(srcs.drop_last(), names) + step
    }
}

/// Every source is an interior read.
pub open spec fn all_interior(srcs: Seq<PlanSrc>) -> bool {
    forall|k: int| 0 <= k < srcs.len() ==> (#[trigger] srcs[k]) is Interior
}

/// Every interior source's slot has a name.
pub open spec fn slots_named(srcs: Seq<PlanSrc>, names: Map<u32, String>) -> bool {
    forall|k: int|
        0 <= k < srcs.len() ==> ((#[trigger] srcs[k]) matches PlanSrc::Interior { slot, .. }
            ==> names.contains_key(slot.0))
}

/// The expression for one input port: `None` when unpatched, a plain sum
/// primed with `0.0` when every source is interior, and otherwise a block
/// that tracks whether any exterior input is live this sample.
pub open spec fn spec_port_expression(srcs: Seq<PlanSrc>, names: Map<u32, String>) -> Seq<char> {
    if srcs.len() == 0 {
        "None"@
    } else if all_interior(srcs) {
        "Some(0.0f32 + "@ + joined_reads(srcs, names) + ")"@
    } else {
        "{ let mut acc = 0.0f32; let mut patched = false; "@ + accumulate_steps(srcs, names)
            + "if patched { Some(acc) } else { None } }"@
    }
}

fn push_read(out: &mut String, slot: ValueSlot, delayed: bool, slot_names: &HashMap<u32, String>)
    requires
        slot_names@.contains_key(slot.0),
    ensures
        final(out)@ == old(out)@ + read_term(slot, delayed, slot_names@),
{
    let name = slot_names.get(&slot.0).unwrap();
    if delayed {
        push_str(out, "self.z_");
    } else {
        push_str(out, "v_");
    }
    push_str(out, name.as_str());
}

/// Build the expression for one input port, mirroring the interpreter's
/// accumulate loop: sources are summed in plan order and the sum is primed
/// with `0.0`.
pub fn port_expression(sources: &[PlanSrc], slot_names: &HashMap<u32, String>) -> (r: String)
    requires
        slots_named(sources@, slot_names@),
    ensures
        r@ == spec_port_expression(sources@, slot_names@),
{
    let mut out = String::new();
    if sources.len() == 0 {
        push_str(&mut out, "None");
        return out;
    }
    let mut every_interior = true;
    let mut k: usize = 0;
    while k < sources.len()
        invariant
            k <= sources@.len(),
            every_interior == all_interior(sources@.take(k as int)),
        decreases sources@.len() - k,
    {
        if let PlanSrc::Exterior(_) = sources[k] {
            every_interior = false;
        }
        k = k + 1;
        assert(every_interior == all_interior(sources@.take(k as int))) by {
            if !every_interior {
                if !all_interior(sources@.take(k - 1)) {
                    let w = choose|w: int| 0 <= w < k - 1 && !((#[trigger] sources@.take(k - 1)[w]) is Interior);
                    assert(sources@.take(k as int)[w] == sources@.take(k - 1)[w]);
                } else {
                    assert(sources@.take(k as int)[k - 1] == sources@[k - 1]);
                }
            }
        }
    }
    assert(sources@.take(k as int) =~= sources@);
    if every_interior {
        push_str(&mut out, "Some(0.0f32 + ");
        let ghost start = out@;
        let mut j: usize = 0;
        while j < sources.len()
            invariant
                j <= sources@.len(),
                sources@.len() > 0,
                all_interior(sources@),
                slots_named(sources@, slot_names@),
                out@ == start + joined_reads(sources@.take(j as int), slot_names@),
            decreases sources@.len() - j,
        {
            assert(sources@.take(j + 1).drop_last() =~= sources@.take(j as int));
            if j > 0 {
                push_str(&mut out, " + ");
            }
            if let PlanSrc::Interior { slot, delayed } = sources[j] {
                push_read(&mut out, slot, delayed, slot_names);
            }
            j = j + 1;
            assert(out@ =~= start + joined_reads(sources@.take(j as int), slot_names@));
        }
        assert(sources@.take(j as int) =~= sources@);
        push_str(&mut out, ")");
        assert(out@ =~= spec_port_expression(sources@, slot_names@));
        return out;
    }
    push_str(&mut out, "{ let mut acc = 0.0f32; let mut patched = false; ");
    let ghost start = out@;
    let mut j: usize = 0;
    while j < sources.len()
        invariant
            j <= sources@.len(),
            slots_named(sources@, slot_names@),
            out@ == start + accumulate_steps(sources@.take(j as int), slot_names@),
        decreases sources@.len() - j,
    {
        assert(sources@.take(j + 1).drop_last() =~= sources@.take(j as int));
        match sources[j] {
            PlanSrc::Interior { slot, delayed } => {
                push_str(&mut out, "acc += ");
                push_read(&mut out, slot, delayed, slot_names);
                push_str(&mut out, "; patched = true; ");
            },
            PlanSrc::Exterior(i) => {
                push_str(&mut out, "if let Some(v) = in_frame[");
                push_decimal(&mut out, i as usize);
                push_str(&mut out, "] { acc += v; patched = true; } ");
            },
        }
        j = j + 1;
        assert(out@ =~= start + accumulate_steps(sources@.take(j as int), slot_names@));
    }
    assert(sources@.take(j as int) =~= sources@);
    push_str(&mut out, "if patched { Some(acc) } else { None } }");
    assert(out@ =~= spec_port_expression(sources@, slot_names@));
    out
}

} // verus!
