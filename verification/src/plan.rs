//! Resolution of a kernel definition plus one instantiation into a
//! backend-independent [`KernelPlan`]: which nodes exist, what feeds each
//! input port, the order the nodes run in, and which reads cross a cycle and
//! therefore see the previous sample.
use crate::error::ValidationError;
use crate::ir::{IRNodeKind, NodeId, Object, Port, Value, template_key, template_name};
use crate::ir_graph::{IRGraph, IRNode, key_position, keys_unique};
use crate::kernel_plan::{
    DeclIdx, ParamTarget, PlanSrc, ValueSlot, execution_order, identity_seed, resolve_port,
    spec_identity_seed,
};
use crate::ports::Ports;
use crate::text::{decimal, push_decimal, push_str, str_eq};
use vstd::prelude::*;
use vstd::string::StringSliceAdditionalSpecFns;

verus! {

/// A kernel definition: its body graph, its declared params, its exterior
/// inputs (each name with the body ports it feeds, in frame order) and the
/// body node whose outputs are the kernel's outputs.
pub struct IRMacro {
    pub name: String,
    pub default_params: Option<Object>,
    pub virtual_input_map: Vec<(String, Vec<(NodeId, Port)>)>,
    pub body: IRGraph,
    pub sink: NodeId,
}

/// A param the kernel declares, with the value this instantiation gives it
/// and every interior node param it feeds.
pub struct PlanParam {
    pub name: String,
    pub default: Value,
    pub targets: Vec<ParamTarget>,
}

/// One node in a resolved plan.
pub struct PlanNode {
    /// The alias from the kernel body.
    pub alias: String,
    /// Node type, e.g. `sine`.
    pub node_type: String,
    /// Params with `$template` substitution applied.
    pub params: Object,
    /// Stable RNG seed, see [`identity_seed`].
    pub identity_seed: u32,
    /// First value-table slot owned by this node (declaration-order layout).
    pub slot_base: ValueSlot,
    /// Number of output ports, i.e. slots owned starting at `slot_base`.
    pub n_out: usize,
    /// Per input port, the contributions summed into it; empty means
    /// unpatched.
    pub inputs: Vec<Vec<PlanSrc>>,
}

impl PlanNode {
    /// Number of input ports.
    pub fn n_in(&self) -> (r: usize)
        ensures
            r == self.inputs@.len(),
    {
        self.inputs.len()
    }
}

/// A fully resolved, backend-independent kernel.
pub struct KernelPlan {
    /// Kernel name.
    pub name: String,
    /// Interior nodes in execution order; slot bases stay in declaration
    /// order.
    pub nodes: Vec<PlanNode>,
    /// Exterior input names, in frame order.
    pub input_names: Vec<String>,
    /// Value slots exposed as the kernel's outputs (the sink's outputs).
    pub output_slots: Vec<ValueSlot>,
    /// Names of the exterior outputs, parallel to `output_slots`.
    pub output_names: Vec<String>,
    /// Size of the value table.
    pub total_slots: usize,
    /// Declared params, in declaration order.
    pub params: Vec<PlanParam>,
}

/// Ports named by `names`, numbered in order.
fn named_ports(names: &Vec<String>) -> (r: Vec<crate::ports::PortMeta>)
    ensures
        r@.len() == names@.len(),
        forall|i: int| 0 <= i < r@.len() ==> (#[trigger] r@[i]).index == i && r@[i].name@ == names@[i]@,
{
    let mut r: Vec<crate::ports::PortMeta> = Vec::new();
    let mut i: usize = 0;
    while i < names.len()
        invariant
            i <= names@.len(),
            r@.len() == i,
            forall|j: int| 0 <= j < i ==> (#[trigger] r@[j]).index == j && r@[j].name@ == names@[j]@,
        decreases names.len() - i,
    {
        r.push(crate::ports::PortMeta { name: names[i].clone(), index: i });
        i = i + 1;
    }
    r
}

impl KernelPlan {
    /// The kernel's exterior port signature: its exterior inputs and outputs
    /// as audio ports, numbered in frame order.
    pub fn ports(&self) -> (r: Ports)
        ensures
            r.audio_in@.len() == self.input_names@.len(),
            forall|i: int| 0 <= i < r.audio_in@.len() ==> (#[trigger] r.audio_in@[i]).index == i && r.audio_in@[i].name@ == self.input_names@[i]@,
            r.audio_out@.len() == self.output_names@.len(),
            forall|i: int| 0 <= i < r.audio_out@.len() ==> (#[trigger] r.audio_out@[i]).index == i && r.audio_out@[i].name@ == self.output_names@[i]@,
            r.control_in@.len() == 0,
            r.control_out@.len() == 0,
    {
        Ports {
            audio_in: named_ports(&self.input_names),
            audio_out: named_ports(&self.output_names),
            control_in: Vec::new(),
            control_out: Vec::new(),
        }
    }

    /// Names of the declared params, in declaration order.
    pub fn param_names(&self) -> (r: Vec<String>)
        ensures
            r@.len() == self.params@.len(),
            forall|i: int| 0 <= i < r@.len() ==> (#[trigger] r@[i])@ == self.params@[i].name@,
    {
        let mut r: Vec<String> = Vec::new();
        let mut i: usize = 0;
        while i < self.params.len()
            invariant
                i <= self.params@.len(),
                r@.len() == i,
                forall|j: int| 0 <= j < i ==> (#[trigger] r@[j])@ == self.params@[j].name@,
            decreases self.params.len() - i,
        {
            r.push(self.params[i].name.clone());
            i = i + 1;
        }
        r
    }

    /// Widest input-port count across all nodes, 0 for an empty plan.
    pub fn max_node_inputs(&self) -> (r: usize)
        ensures
            forall|k: int| 0 <= k < self.nodes@.len() ==> (#[trigger] self.nodes@[k]).inputs@.len() <= r,
            r == 0 || exists|k: int| 0 <= k < self.nodes@.len() && (#[trigger] self.nodes@[k]).inputs@.len() == r,
    {
        let mut r: usize = 0;
        let mut k: usize = 0;
        while k < self.nodes.len()
            invariant
                k <= self.nodes@.len(),
                forall|j: int| 0 <= j < k ==> (#[trigger] self.nodes@[j]).inputs@.len() <= r,
                r == 0 || exists|j: int| 0 <= j < k && (#[trigger] self.nodes@[j]).inputs@.len() == r,
            decreases self.nodes.len() - k,
        {
            let n = self.nodes[k].n_in();
            if n > r {
                r = n;
            }
            k = k + 1;
        }
        r
    }
}

/// Answers "what ports does a node of this type, with these params, have?".
/// Implemented by the node layer, so that arity rules live in one place.
pub trait PortOracle {
    fn ports_for(&mut self, node_type: &str, params: &Object) -> Result<Ports, ValidationError>;
}

/// Params that fix a node's shape (port arity, allocation) and so cannot be
/// runtime knobs.
pub open spec fn is_structural(p: Seq<char>) -> bool {
    p == "chans"@ || p == "capacity"@
}

fn structural(p: &str) -> (r: bool)
    ensures
        r == is_structural(p@),
{
    str_eq(p, "chans") || str_eq(p, "capacity")
}

/// The message for a macro reference inside a kernel.
pub open spec fn nested_text(alias: Seq<char>, name: Seq<char>) -> Seq<char> {
    "nested patch/kernel '"@ + alias + "' inside kernel '"@ + name + "'"@
}

/// The message for a template on a structural param.
pub open spec fn structural_text(name: Seq<char>, param: Seq<char>, alias: Seq<char>, key: Seq<char>) -> Seq<char> {
    "kernel '"@ + name + "': param '"@ + param + "' on '"@ + alias
        + "' fixes port arity or allocation, so it must be a literal, not the template '$"@ + key
        + "'"@
}

/// The (kernel param, node param) pairs of the templates among `params`, in
/// order.
pub open spec fn template_bindings(params: Seq<(String, Value)>) -> Seq<(Seq<char>, Seq<char>)>
    decreases params.len(),
{
    if params.len() == 0 {
        Seq::empty()
    } else {
        let rest = template_bindings(params.drop_last());
        match params.last().1 {
            Value::Template(t) => rest.push((template_key(t@), params.last().0@)),
            _ => rest,
        }
    }
}

/// Position of the first template on a structural param, or -1.
pub open spec fn first_structural(params: Seq<(String, Value)>) -> int
    decreases params.len(),
{
    if params.len() == 0 {
        -1
    } else {
        let p = first_structural(params.drop_last());
        if p >= 0 {
            p
        } else if params.last().1 is Template && is_structural(params.last().0@) {
            params.len() - 1
        } else {
            -1
        }
    }
}

/// The entries of `b` seen as (kernel param, node alias, node param).
pub open spec fn binding_view(b: Seq<(String, ParamTarget)>) -> Seq<(Seq<char>, Seq<char>, Seq<char>)> {
    b.map_values(|x: (String, ParamTarget)| (x.0@, x.1.node_alias@, x.1.node_param@))
}

/// `node`'s bindings, each tagged with its alias.
pub open spec fn tagged(alias: Seq<char>, s: Seq<(Seq<char>, Seq<char>)>) -> Seq<(Seq<char>, Seq<char>, Seq<char>)> {
    s.map_values(|x: (Seq<char>, Seq<char>)| (x.0, alias, x.1))
}

/// Check one body node, record where its templates land, and substitute
/// them.
fn prepare_node(
    kernel_name: &String,
    node: &IRNode,
    resolved: &Object,
    bindings: &mut Vec<(String, ParamTarget)>,
) -> (r: Result<Object, ValidationError>)
    ensures
        node.kind != IRNodeKind::Leaf ==> (r matches Err(ValidationError::UnsupportedInKernel(m))
            && m@ == nested_text(node.alias@, kernel_name@)),
        node.kind == IRNodeKind::Leaf && first_structural(node.params@) >= 0 ==> ({
            let p = node.params@[first_structural(node.params@)];
            r matches Err(ValidationError::UnsupportedInKernel(m)) && m@ == structural_text(
                kernel_name@,
                p.0@,
                node.alias@,
                template_key(p.1->Template_0@),
            )
        }),
        node.kind == IRNodeKind::Leaf && first_structural(node.params@) < 0 ==> r is Ok
            && binding_view(final(bindings)@) == binding_view(old(bindings)@) + tagged(
            node.alias@,
            template_bindings(node.params@),
        ),
        r matches Ok(params) ==> params@.len() == node.params@.len() && (forall|i: int|
            0 <= i < params@.len() ==> (#[trigger] params@[i]).0@ == node.params@[i].0@
                && crate::ir::substituted(node.params@[i].1, resolved@, params@[i].1)),
{
    if node.kind != IRNodeKind::Leaf {
        let mut m = String::new();
        push_str(&mut m, "nested patch/kernel '");
        push_str(&mut m, node.alias.as_str());
        push_str(&mut m, "' inside kernel '");
        push_str(&mut m, kernel_name.as_str());
        push_str(&mut m, "'");
        assert(m@ =~= nested_text(node.alias@, kernel_name@));
        return Err(ValidationError::UnsupportedInKernel(m));
    }
    let n = node.params.len();
    let mut i: usize = 0;
    while i < n
        invariant
            node.kind == IRNodeKind::Leaf,
            n == node.params@.len(),
            i <= n,
            first_structural(node.params@.take(i as int)) == -1,
            binding_view(bindings@) == binding_view(old(bindings)@) + tagged(
                node.alias@,
                template_bindings(node.params@.take(i as int)),
            ),
        decreases n - i,
    {
        let (p, v) = node.params.entry(i);
        proof {
            assert(node.params@.take(i as int + 1).drop_last() =~= node.params@.take(i as int));
        }
        match v {
            Value::Template(t) => {
                let key = template_name(t.as_str());
                if structural(p.as_str()) {
                    let mut m = String::new();
                    push_str(&mut m, "kernel '");
                    push_str(&mut m, kernel_name.as_str());
                    push_str(&mut m, "': param '");
                    push_str(&mut m, p.as_str());
                    push_str(&mut m, "' on '");
                    push_str(&mut m, node.alias.as_str());
                    push_str(
                        &mut m,
                        "' fixes port arity or allocation, so it must be a literal, not the template '$",
                    );
                    push_str(&mut m, key.as_str());
                    push_str(&mut m, "'");
                    proof {
                        lemma_first_structural_prefix(node.params@, i as int + 1);
                        assert(first_structural(node.params@.take(i as int + 1)) == i);
                    }
                    assert(m@ =~= structural_text(kernel_name@, p@, node.alias@, template_key(t@)));
                    return Err(ValidationError::UnsupportedInKernel(m));
                }
                let ghost before = binding_view(bindings@);
                bindings.push(
                    (key, ParamTarget { node_alias: node.alias.clone(), node_param: p.clone() }),
                );
                assert(binding_view(bindings@) =~= before.push((template_key(t@), node.alias@, p@)));
                assert(tagged(node.alias@, template_bindings(node.params@.take(i as int + 1))) =~= tagged(
                    node.alias@,
                    template_bindings(node.params@.take(i as int)),
                ).push((template_key(t@), node.alias@, p@)));
            },
            _ => {},
        }
        i = i + 1;
    }
    assert(node.params@.take(n as int) =~= node.params@);
    Ok(node.params.substitute_templates(resolved))
}


/// One summed contribution before execution order is known: from the
/// exterior frame, or from output `port` of the node declared at `decl`.
#[derive(Clone, Copy)]
pub enum Draft {
    Exterior(u32),
    Interior(usize, usize),
}

/// Total number of output ports over `ports`.
pub open spec fn out_total(ports: Seq<Ports>) -> nat
    decreases ports.len(),
{
    if ports.len() == 0 {
        0
    } else {
        out_total(ports.drop_last()) + ports.last().audio_out@.len()
    }
}

/// Every port's number lies within its own list.
pub open spec fn numbered_within(ports: Ports) -> bool {
    &&& forall|k: int| 0 <= k < ports.audio_in@.len() ==> (#[trigger] ports.audio_in@[k]).index < ports.audio_in@.len()
    &&& forall|k: int| 0 <= k < ports.audio_out@.len() ==> (#[trigger] ports.audio_out@[k]).index < ports.audio_out@.len()
}

/// Port layouts a plan can be built on: numbered within their lists, and
/// few enough outputs in all to count in a `usize`.
pub open spec fn usable_ports(ports: Seq<Ports>) -> bool {
    &&& forall|d: int| 0 <= d < ports.len() ==> numbered_within(#[trigger] ports[d])
    &&& out_total(ports) <= usize::MAX
}

proof fn lemma_out_total_prefix(ports: Seq<Ports>, k: int)
    requires
        0 <= k <= ports.len(),
    ensures
        out_total(ports.take(k)) <= out_total(ports),
    decreases ports.len() - k,
{
    if k < ports.len() {
        lemma_out_total_prefix(ports, k + 1);
        assert(ports.take(k + 1).drop_last() =~= ports.take(k));
    } else {
        assert(ports.take(k) =~= ports);
    }
}

/// Whether `ports` are usable for a plan.
pub fn ports_usable(ports: &Vec<Ports>) -> (r: bool)
    ensures
        r == usable_ports(ports@),
{
    let mut total: usize = 0;
    let mut d: usize = 0;
    while d < ports.len()
        invariant
            d <= ports@.len(),
            total == out_total(ports@.take(d as int)),
            forall|j: int| 0 <= j < d ==> numbered_within(#[trigger] ports@[j]),
        decreases ports.len() - d,
    {
        assert(ports@.take(d as int + 1).drop_last() =~= ports@.take(d as int));
        let p = &ports[d];
        let mut k: usize = 0;
        while k < p.audio_in.len()
            invariant
                k <= p.audio_in@.len(),
                d < ports@.len(),
                *p == ports@[d as int],
                forall|j: int| 0 <= j < k ==> (#[trigger] p.audio_in@[j]).index < p.audio_in@.len(),
            decreases p.audio_in.len() - k,
        {
            if p.audio_in[k].index >= p.audio_in.len() {
                assert(!numbered_within(ports@[d as int]));
                return false;
            }
            k = k + 1;
        }
        let mut k: usize = 0;
        while k < p.audio_out.len()
            invariant
                k <= p.audio_out@.len(),
                d < ports@.len(),
                *p == ports@[d as int],
                forall|j: int| 0 <= j < k ==> (#[trigger] p.audio_out@[j]).index < p.audio_out@.len(),
            decreases p.audio_out.len() - k,
        {
            if p.audio_out[k].index >= p.audio_out.len() {
                assert(!numbered_within(ports@[d as int]));
                return false;
            }
            k = k + 1;
        }
        if total > usize::MAX - p.audio_out.len() {
            proof {
                lemma_out_total_prefix(ports@, d as int + 1);
            }
            return false;
        }
        total = total + p.audio_out.len();
        d = d + 1;
    }
    assert(ports@.take(d as int) =~= ports@);
    true
}

/// The declaration index of the node numbered `id`.
pub(crate) fn decl_of(ids: &Vec<u32>, id: NodeId) -> (d: usize)
    requires
        ids@.contains(id.0),
    ensures
        d < ids@.len(),
        ids@[d as int] == id.0,
{
    let mut d: usize = 0;
    while d < ids.len()
        invariant
            d <= ids@.len(),
            ids@.contains(id.0),
            forall|j: int| 0 <= j < d ==> ids@[j] != id.0,
        decreases ids.len() - d,
    {
        if ids[d] == id.0 {
            return d;
        }
        d = d + 1;
    }
    proof {
        let j = choose|j: int| 0 <= j < ids@.len() && ids@[j] == id.0;
        assert(ids@[j] == id.0);
    }
    0
}

/// Node `s` has a position in `order`.
pub open spec fn listed(order: Seq<DeclIdx>, s: int) -> bool {
    exists|k: int| 0 <= k < order.len() && (#[trigger] order[k]).0 == s
}

/// `order` lists each node once, so each node has a position in it.
proof fn lemma_order_covers(order: Seq<DeclIdx>, n: nat)
    requires
        crate::kernel_plan::is_permutation_of_nodes(order, n),
    ensures
        forall|s: int| 0 <= s < n ==> #[trigger] listed(order, s),
{
    let ints = order.map_values(|x: DeclIdx| x.0 as int);
    assert(ints.no_duplicates()) by {
        assert forall|i: int, j: int| 0 <= i < ints.len() && 0 <= j < ints.len() && i != j implies ints[i] != ints[j] by {
            assert(order[i] != order[j]);
        }
    }
    ints.unique_seq_to_set();
    assert(ints.to_set().subset_of(vstd::set_lib::set_int_range(0, n as int))) by {
        assert forall|x: int| ints.to_set().contains(x) implies vstd::set_lib::set_int_range(0, n as int).contains(x) by {
            let i = choose|i: int| 0 <= i < ints.len() && ints[i] == x;
            assert(order[i].0 < n);
        }
    }
    vstd::set_lib::lemma_int_range(0, n as int);
    vstd::set_lib::lemma_subset_equality(ints.to_set(), vstd::set_lib::set_int_range(0, n as int));
    assert forall|s: int| 0 <= s < n implies #[trigger] listed(order, s) by {
        assert(vstd::set_lib::set_int_range(0, n as int).contains(s));
        assert(ints.to_set().contains(s));
        let k = choose|k: int| 0 <= k < ints.len() && ints[k] == s;
        assert(order[k].0 == s);
    }
}


/// What a draft contribution becomes once `pos` gives each node's place in
/// the execution order: a read from a node that does not run strictly before
/// node `d` is delayed.
pub open spec fn realized(dr: Draft, bases: Seq<u32>, pos: Seq<usize>, d: int) -> PlanSrc {
    match dr {
        Draft::Exterior(x) => PlanSrc::Exterior(x),
        Draft::Interior(s, sp) => PlanSrc::Interior {
            slot: ValueSlot((bases[s as int] + sp) as u32),
            delayed: pos[s as int] >= pos[d],
        },
    }
}

/// The inputs of the node declared at `d`: for each of its `n_in` ports, the
/// contributions addressed to that port, in the order they were recorded.
fn build_inputs(
    contribs: &Vec<(usize, usize, Draft)>,
    d: usize,
    n_in: usize,
    bases: &Vec<u32>,
    pos: &Vec<usize>,
) -> (r: Vec<Vec<PlanSrc>>)
    requires
        d < pos@.len(),
        bases@.len() == pos@.len(),
        forall|c: int| 0 <= c < contribs@.len() ==> match (#[trigger] contribs@[c]).2 {
            Draft::Interior(s, _) => s < pos@.len(),
            _ => true,
        },
    ensures
        r@.len() == n_in,
        forall|q: int, e: int|
            0 <= q < n_in && 0 <= e < r@[q]@.len() ==> exists|c: int|
                0 <= c < contribs@.len() && contribs@[c].0 == d && contribs@[c].1 == q && #[trigger] r@[q]@[e]
                    == realized(contribs@[c].2, bases@, pos@, d as int),
        forall|c: int|
            0 <= c < contribs@.len() && (#[trigger] contribs@[c]).0 == d && contribs@[c].1 < n_in ==> exists|e: int|
                0 <= e < r@[contribs@[c].1 as int]@.len() && r@[contribs@[c].1 as int]@[e] == realized(contribs@[c].2, bases@, pos@, d as int),
{
    let mut r: Vec<Vec<PlanSrc>> = Vec::new();
    let mut q: usize = 0;
    while q < n_in
        invariant
            q <= n_in,
            r@.len() == q,
            d < pos@.len(),
            bases@.len() == pos@.len(),
            forall|c: int| 0 <= c < contribs@.len() ==> match (#[trigger] contribs@[c]).2 {
                Draft::Interior(s, _) => s < pos@.len(),
                _ => true,
            },
            forall|qq: int, e: int|
                0 <= qq < q && 0 <= e < r@[qq]@.len() ==> exists|c: int|
                    0 <= c < contribs@.len() && contribs@[c].0 == d && contribs@[c].1 == qq && #[trigger] r@[qq]@[e]
                        == realized(contribs@[c].2, bases@, pos@, d as int),
            forall|c: int|
                0 <= c < contribs@.len() && (#[trigger] contribs@[c]).0 == d && contribs@[c].1 < q ==> exists|e: int|
                    0 <= e < r@[contribs@[c].1 as int]@.len() && r@[contribs@[c].1 as int]@[e] == realized(contribs@[c].2, bases@, pos@, d as int),
        decreases n_in - q,
    {
        let mut list: Vec<PlanSrc> = Vec::new();
        let mut c: usize = 0;
        while c < contribs.len()
            invariant
                c <= contribs@.len(),
                d < pos@.len(),
                bases@.len() == pos@.len(),
                forall|cc: int| 0 <= cc < contribs@.len() ==> match (#[trigger] contribs@[cc]).2 {
                    Draft::Interior(s, _) => s < pos@.len(),
                    _ => true,
                },
                forall|e: int|
                    0 <= e < list@.len() ==> exists|cc: int|
                        0 <= cc < contribs@.len() && contribs@[cc].0 == d && contribs@[cc].1 == q && #[trigger] list@[e]
                            == realized(contribs@[cc].2, bases@, pos@, d as int),
                forall|cc: int|
                    0 <= cc < c && (#[trigger] contribs@[cc]).0 == d && contribs@[cc].1 == q ==> exists|e: int|
                        0 <= e < list@.len() && list@[e] == realized(contribs@[cc].2, bases@, pos@, d as int),
            decreases contribs.len() - c,
        {
            let (cd, cq, dr) = contribs[c];
            if cd == d && cq == q {
                let src = match dr {
                    Draft::Exterior(x) => PlanSrc::Exterior(x),
                    Draft::Interior(s, sp) => {
                        assert(s < pos@.len());
                        PlanSrc::Interior {
                            slot: ValueSlot((bases[s] as u128 + sp as u128) as u32),
                            delayed: pos[s] >= pos[d],
                        }
                    },
                };
                assert(src == realized(contribs@[c as int].2, bases@, pos@, d as int));
                let ghost before = list@;
                list.push(src);
                assert forall|e: int| 0 <= e < list@.len() implies exists|cc: int|
                    0 <= cc < contribs@.len() && contribs@[cc].0 == d && contribs@[cc].1 == q && #[trigger] list@[e]
                        == realized(contribs@[cc].2, bases@, pos@, d as int) by {
                    if e < before.len() {
                        assert(list@[e] == before[e]);
                    } else {
                        assert(list@[e] == src);
                        assert(contribs@[c as int].0 == d && contribs@[c as int].1 == q);
                    }
                }
                assert forall|cc: int|
                    0 <= cc < c + 1 && (#[trigger] contribs@[cc]).0 == d && contribs@[cc].1 == q implies exists|e: int|
                        0 <= e < list@.len() && list@[e] == realized(contribs@[cc].2, bases@, pos@, d as int) by {
                    if cc < c {
                        let e0 = choose|e: int| 0 <= e < before.len() && before[e] == realized(contribs@[cc].2, bases@, pos@, d as int);
                        assert(list@[e0] == before[e0]);
                    } else {
                        assert(list@[before.len() as int] == src);
                    }
                }
            }
            c = c + 1;
        }
        let ghost before = r@;
        r.push(list);
        assert forall|qq: int, e: int|
            0 <= qq < q + 1 && 0 <= e < r@[qq]@.len() implies exists|cc: int|
                0 <= cc < contribs@.len() && contribs@[cc].0 == d && contribs@[cc].1 == qq && #[trigger] r@[qq]@[e]
                    == realized(contribs@[cc].2, bases@, pos@, d as int) by {
            if qq < q {
                assert(r@[qq] == before[qq]);
            } else {
                assert(r@[qq] == list);
            }
        }
        assert forall|c: int|
            0 <= c < contribs@.len() && (#[trigger] contribs@[c]).0 == d && contribs@[c].1 < q + 1 implies exists|e: int|
                0 <= e < r@[contribs@[c].1 as int]@.len() && r@[contribs@[c].1 as int]@[e] == realized(contribs@[c].2, bases@, pos@, d as int) by {
            if contribs@[c].1 < q {
                assert(r@[contribs@[c].1 as int] == before[contribs@[c].1 as int]);
            } else {
                assert(r@[q as int] == list);
            }
        }
        q = q + 1;
    }
    r
}


/// The body's edges, exterior inputs and sink all refer to nodes of the
/// body, which is well formed.
pub open spec fn macro_joined(m: IRMacro) -> bool {
    &&& m.body.wf()
    &&& crate::ir_graph::edges_join_nodes(m.body.keys(), m.body.edge_list())
    &&& m.body.keys().contains(m.sink.0)
    &&& forall|x: int, t: int|
        0 <= x < m.virtual_input_map@.len() && 0 <= t < m.virtual_input_map@[x].1@.len()
            ==> m.body.keys().contains((#[trigger] m.virtual_input_map@[x].1@[t]).0.0)
}

/// The template bindings of all `nodes`, in declaration order, each as
/// (kernel param, node alias, node param).
pub open spec fn all_bindings(nodes: Seq<(u32, IRNode)>) -> Seq<(Seq<char>, Seq<char>, Seq<char>)>
    decreases nodes.len(),
{
    if nodes.len() == 0 {
        Seq::empty()
    } else {
        all_bindings(nodes.drop_last()) + tagged(
            nodes.last().1.alias@,
            template_bindings(nodes.last().1.params@),
        )
    }
}

/// (node alias, node param) of each binding of kernel param `name`, in order.
pub open spec fn targets_for(b: Seq<(Seq<char>, Seq<char>, Seq<char>)>, name: Seq<char>) -> Seq<(Seq<char>, Seq<char>)>
    decreases b.len(),
{
    if b.len() == 0 {
        Seq::empty()
    } else {
        let rest = targets_for(b.drop_last(), name);
        if b.last().0 == name {
            rest.push((b.last().1, b.last().2))
        } else {
            rest
        }
    }
}

/// Targets seen as (node alias, node param).
pub open spec fn target_view(t: Seq<ParamTarget>) -> Seq<(Seq<char>, Seq<char>)> {
    t.map_values(|x: ParamTarget| (x.node_alias@, x.node_param@))
}

/// Output `sp` of node `pn` sits in value slot `slot`.
pub open spec fn owns_slot(pn: PlanNode, slot: u32, sp: int) -> bool {
    0 <= sp < pn.n_out && slot == ((pn.slot_base.0 + sp) as u32)
}

/// Every interior read names an output slot of some node of the plan, and
/// is delayed exactly when that node does not run strictly before the
/// reader; every exterior read names an exterior input.
pub open spec fn reads_resolved(p: KernelPlan) -> bool {
    forall|k: int, q: int, e: int|
        0 <= k < p.nodes@.len() && 0 <= q < p.nodes@[k].inputs@.len() && 0 <= e
            < p.nodes@[k].inputs@[q]@.len() ==> match #[trigger] p.nodes@[k].inputs@[q]@[e] {
            PlanSrc::Interior { slot, delayed } => exists|j: int, sp: int|
                0 <= j < p.nodes@.len() && #[trigger] owns_slot(p.nodes@[j], slot.0, sp) && (
                delayed <==> j >= k),
            PlanSrc::Exterior(x) => x < p.input_names@.len(),
        }
}

/// Plan node `pn` is body node `node`, declared at `d`, with port layout
/// `ports`, substituted params `params` and slots laid out in declaration
/// order over `all_ports`.
pub open spec fn node_placed(
    pn: PlanNode,
    node: IRNode,
    d: int,
    all_ports: Seq<Ports>,
    params: Object,
    salt: Seq<char>,
) -> bool {
    &&& pn.alias@ == node.alias@
    &&& pn.node_type@ == node.node_type@
    &&& pn.params == params
    &&& pn.identity_seed == spec_identity_seed(
        vstd::utf8::encode_utf8(salt),
        vstd::utf8::encode_utf8(node.alias@),
    )
    &&& pn.slot_base.0 == (out_total(all_ports.take(d)) as u32)
    &&& pn.n_out == all_ports[d].audio_out@.len()
    &&& pn.inputs@.len() == all_ports[d].audio_in@.len()
}

/// Where node id `id` stands among the body's nodes.
pub open spec fn decl_index(entries: Seq<(u32, IRNode)>, id: u32) -> int {
    key_position(entries, id)->0
}

/// The body's edges as (source, sink) declaration indices, in edge order.
pub open spec fn decl_pairs(entries: Seq<(u32, IRNode)>, edges: Seq<crate::ir::IREdge>) -> Seq<(usize, usize)> {
    edges.map_values(|e: crate::ir::IREdge| (decl_index(entries, e.source.0) as usize, decl_index(entries, e.sink.0) as usize))
}

/// The nodes the pairs lead to from node `d`, in order.
pub open spec fn targets_of(pairs: Seq<(usize, usize)>, d: int) -> Seq<DeclIdx>
    decreases pairs.len(),
{
    if pairs.len() == 0 {
        Seq::empty()
    } else {
        let r = targets_of(pairs.drop_last(), d);
        if pairs.last().0 == d {
            r.push(DeclIdx(pairs.last().1))
        } else {
            r
        }
    }
}

/// `succ` lists, for each body node, where the body's edges from it lead,
/// in edge order.
pub open spec fn body_successors(succ: Seq<Vec<DeclIdx>>, m: IRMacro) -> bool {
    &&& succ.len() == m.body.entries().len()
    &&& forall|d: int| 0 <= d < succ.len() ==> (#[trigger] succ[d])@ == targets_of(decl_pairs(m.body.entries(), m.body.edge_list()), d)
}

/// Every interior read of input `q` of plan node `k` comes along a body edge
/// from plan node `j` into `k` (the nodes declared at `ord[j]` and `ord[k]`):
/// it reads the slot of the source port that the edge's pairing joins to `q`.
/// Every exterior read of input `q` reads a virtual input one of whose
/// target ports resolves to `q` on that node.
pub open spec fn reads_follow_edges(p: KernelPlan, m: IRMacro, ports: Seq<Ports>, ord: Seq<DeclIdx>) -> bool {
    forall|k: int, q: int, e: int|
        0 <= k < p.nodes@.len() && 0 <= q < p.nodes@[k].inputs@.len() && 0 <= e < p.nodes@[k].inputs@[q]@.len()
            ==> read_follows(p, m, ports, ord, k, q, #[trigger] p.nodes@[k].inputs@[q]@[e])
}

/// Conversely, every port pair of every body edge is read: when the body
/// edge `i` joins output `sp` of the node placed at `j` to input `q` of the
/// node placed at `k`, some read of that input is from the slot of that
/// output.
pub open spec fn edges_all_read(p: KernelPlan, m: IRMacro, ports: Seq<Ports>, ord: Seq<DeclIdx>) -> bool {
    forall|k: int, j: int, i: int, t: int, sp: int, q: int|
        0 <= k < p.nodes@.len() && 0 <= j < p.nodes@.len()
            && #[trigger] edge_feeds(m, ports, i, t, ord[j].0 as int, sp, ord[k].0 as int, q) ==> {
            &&& 0 <= q < p.nodes@[k].inputs@.len()
            &&& exists|e: int|
                0 <= e < p.nodes@[k].inputs@[q]@.len() && (#[trigger] p.nodes@[k].inputs@[q]@[e]) is Interior
                    && p.nodes@[k].inputs@[q]@[e]->slot.0 == ((p.nodes@[j].slot_base.0 + sp) as u32)
        }
}

/// Conversely, every target port of every virtual input is read: when
/// target `t` of virtual input `x` resolves to input `q` of the node placed
/// at `k`, some read of that input is from exterior input `x`.
pub open spec fn inputs_all_read(p: KernelPlan, m: IRMacro, ports: Seq<Ports>, ord: Seq<DeclIdx>) -> bool {
    forall|k: int, x: u32, t: int, u: int, q: int|
        0 <= k < p.nodes@.len() && #[trigger] input_feeds(m, ports, x, t, u, ord[k].0 as int, q) ==> {
            &&& 0 <= q < p.nodes@[k].inputs@.len()
            &&& exists|e: int| 0 <= e < p.nodes@[k].inputs@[q]@.len() && #[trigger] p.nodes@[k].inputs@[q]@[e] == PlanSrc::Exterior(x)
        }
}

/// Read `src` of input `q` of plan node `k` follows a body edge's port
/// pairing (for an interior read) or a virtual input's target port (for an
/// exterior one); see `reads_follow_edges`.
pub open spec fn read_follows(p: KernelPlan, m: IRMacro, ports: Seq<Ports>, ord: Seq<DeclIdx>, k: int, q: int, src: PlanSrc) -> bool {
    match src {
        PlanSrc::Interior { slot, delayed: _ } => exists|j: int, i: int, t: int, sp: int|
            0 <= j < p.nodes@.len() && #[trigger] edge_feeds(m, ports, i, t, ord[j].0 as int, sp, ord[k].0 as int, q)
                && slot.0 == ((p.nodes@[j].slot_base.0 + sp) as u32),
        PlanSrc::Exterior(x) => exists|t: int, u: int| #[trigger] input_feeds(m, ports, x, t, u, ord[k].0 as int, q),
    }
}

/// `p`'s nodes are the body's nodes, each once, in the order of a
/// depth-first search over the body's edges (see `spec_dfs_order`); each
/// node reads, port by port, what its body edges and virtual inputs feed it
/// and nothing else; its exterior inputs are the kernel's, and its outputs
/// are the sink's.
pub open spec fn plan_shape(p: KernelPlan, m: IRMacro, ports: Seq<Ports>, params: Seq<Object>, salt: Seq<char>) -> bool {
    let n = m.body.entries().len();
    let sd = key_position(m.body.entries(), m.sink.0)->0;
    &&& p.name@ == m.name@
    &&& p.nodes@.len() == n
    &&& exists|succ: Seq<Vec<DeclIdx>>| #[trigger] body_successors(succ, m) && {
        let ord = crate::kernel_plan::spec_dfs_order(n, succ);
        &&& crate::kernel_plan::is_permutation_of_nodes(ord, n)
        &&& reads_follow_edges(p, m, ports, ord)
        &&& edges_all_read(p, m, ports, ord)
        &&& inputs_all_read(p, m, ports, ord)
        &&& forall|k: int|
            0 <= k < n ==> node_placed(
                #[trigger] p.nodes@[k],
                m.body.entries()[ord[k].0 as int].1,
                ord[k].0 as int,
                ports,
                params[ord[k].0 as int],
                salt,
            )
    }
    &&& p.input_names@.len() == m.virtual_input_map@.len()
    &&& forall|i: int| 0 <= i < p.input_names@.len() ==> (#[trigger] p.input_names@[i])@ == m.virtual_input_map@[i].0@
    &&& p.output_names@.len() == ports[sd].audio_out@.len()
    &&& p.output_slots@.len() == ports[sd].audio_out@.len()
    &&& forall|i: int| 0 <= i < p.output_names@.len() ==> (#[trigger] p.output_names@[i])@ == ports[sd].audio_out@[i].name@
    &&& forall|i: int| 0 <= i < p.output_slots@.len() ==> (#[trigger] p.output_slots@[i]).0 == (((out_total(ports.take(sd)) as u32) + i) as u32)
    &&& p.total_slots == out_total(ports)
}

/// `p`'s params are the declared ones, in order, each with the value this
/// instantiation gives it and every node param it feeds.
pub open spec fn params_recorded(p: KernelPlan, m: IRMacro, resolved: Object, bindings: Seq<(Seq<char>, Seq<char>, Seq<char>)>) -> bool {
    match m.default_params {
        Some(dp) => {
            &&& p.params@.len() == dp@.len()
            &&& forall|i: int| 0 <= i < dp@.len() ==> {
                &&& (#[trigger] p.params@[i]).name@ == dp@[i].0@
                &&& target_view(p.params@[i].targets@) == targets_for(bindings, dp@[i].0@)
                &&& match crate::ir::param_value(resolved@, dp@[i].0@) {
                    Some(v) => crate::ir::copied_value(v, p.params@[i].default),
                    None => crate::ir::copied_value(dp@[i].1, p.params@[i].default),
                }
            }
        },
        None => p.params@.len() == 0,
    }
}


/// Every recorded contribution addresses an input port of a node, and names
/// an output port of a node or one of the `n_ext` exterior inputs.
pub open spec fn contribs_ok(c: Seq<(usize, usize, Draft)>, ports: Seq<Ports>, n_ext: nat) -> bool {
    forall|i: int|
        0 <= i < c.len() ==> {
            &&& (#[trigger] c[i]).0 < ports.len()
            &&& c[i].1 < ports[c[i].0 as int].audio_in@.len()
            &&& match c[i].2 {
                Draft::Interior(s, sp) => s < ports.len() && sp < ports[s as int].audio_out@.len(),
                Draft::Exterior(x) => n_ext <= u32::MAX ==> x < n_ext,
            }
        }
}

/// The port indices a resolved reference names lie within the list.
proof fn lemma_resolved_in_range(port: Port, list: Seq<crate::ports::PortMeta>, alias: Seq<char>, v: Seq<usize>)
    requires
        forall|k: int| 0 <= k < list.len() ==> (#[trigger] list[k]).index < list.len(),
        match port {
            Port::Omitted => v == Seq::new(list.len(), |k: int| k as usize),
            Port::Index(i) => i < list.len() && v == seq![i],
            Port::Named(name) => match crate::kernel_plan::first_named(list, name@) {
                Some(k) => v == seq![list[k].index],
                None => false,
            },
            _ => false,
        },
    ensures
        forall|i: int| 0 <= i < v.len() ==> #[trigger] v[i] < list.len(),
{
    match port {
        Port::Named(name) => {
            let w = choose|k: int| 0 <= k < list.len() && (#[trigger] list[k]).name@ == name@;
            lemma_min_witness(list, name@, w);
        },
        _ => {},
    }
}

proof fn lemma_min_witness(list: Seq<crate::ports::PortMeta>, name: Seq<char>, k: int)
    requires
        0 <= k < list.len(),
        list[k].name@ == name,
    ensures
        exists|m: int|
            0 <= m < list.len() && (#[trigger] list[m]).name@ == name && forall|j: int|
                0 <= j < m ==> (#[trigger] list[j]).name@ != name,
    decreases k,
{
    if exists|j: int| 0 <= j < k && (#[trigger] list[j]).name@ == name {
        let j = choose|j: int| 0 <= j < k && (#[trigger] list[j]).name@ == name;
        lemma_min_witness(list, name, j);
    } else {
        assert(forall|j: int| 0 <= j < k ==> (#[trigger] list[j]).name@ != name);
    }
}

/// Pair resolved source and sink ports: zip equal lengths, replicate a lone
/// source, or sum many sources into a lone sink. `None` where none applies.
fn pair_ports(src: &Vec<usize>, snk: &Vec<usize>) -> (r: Option<Vec<(usize, usize)>>)
    ensures
        r is None <==> !(src@.len() == snk@.len() || src@.len() == 1 || snk@.len() == 1),
        r matches Some(v) ==> forall|i: int| 0 <= i < v@.len() ==> src@.contains((#[trigger] v@[i]).0)
            && snk@.contains(v@[i].1),
        src@.len() == snk@.len() ==> (r matches Some(v) && v@.len() == src@.len()
            && forall|t: int| 0 <= t < v@.len() ==> #[trigger] v@[t] == (src@[t], snk@[t])),
        src@.len() != snk@.len() && src@.len() == 1 ==> (r matches Some(v) && v@.len() == snk@.len()
            && forall|t: int| 0 <= t < v@.len() ==> #[trigger] v@[t] == (src@[0], snk@[t])),
        src@.len() != snk@.len() && src@.len() != 1 && snk@.len() == 1 ==> (r matches Some(v) && v@.len() == src@.len()
            && forall|t: int| 0 <= t < v@.len() ==> #[trigger] v@[t] == (src@[t], snk@[0])),
{
    let a = src.len();
    let b = snk.len();
    let mut v: Vec<(usize, usize)> = Vec::new();
    if a == b {
        let mut i: usize = 0;
        while i < a
            invariant
                i <= a,
                a == src@.len(),
                b == snk@.len(),
                a == b,
                v@.len() == i,
                forall|j: int| 0 <= j < v@.len() ==> src@.contains((#[trigger] v@[j]).0) && snk@.contains(v@[j].1),
                forall|t: int| 0 <= t < v@.len() ==> #[trigger] v@[t] == (src@[t], snk@[t]),
            decreases a - i,
        {
            assert(src@[i as int] == src[i as int]);
            v.push((src[i], snk[i]));
            assert(src@.contains(src@[i as int]) && snk@.contains(snk@[i as int]));
            i = i + 1;
        }
        Some(v)
    } else if a == 1 {
        let mut i: usize = 0;
        while i < b
            invariant
                i <= b,
                a == src@.len(),
                b == snk@.len(),
                a == 1,
                v@.len() == i,
                forall|j: int| 0 <= j < v@.len() ==> src@.contains((#[trigger] v@[j]).0) && snk@.contains(v@[j].1),
                forall|t: int| 0 <= t < v@.len() ==> #[trigger] v@[t] == (src@[0], snk@[t]),
            decreases b - i,
        {
            v.push((src[0], snk[i]));
            assert(src@.contains(src@[0]) && snk@.contains(snk@[i as int]));
            i = i + 1;
        }
        Some(v)
    } else if b == 1 {
        let mut i: usize = 0;
        while i < a
            invariant
                i <= a,
                a == src@.len(),
                b == snk@.len(),
                b == 1,
                v@.len() == i,
                forall|j: int| 0 <= j < v@.len() ==> src@.contains((#[trigger] v@[j]).0) && snk@.contains(v@[j].1),
                forall|t: int| 0 <= t < v@.len() ==> #[trigger] v@[t] == (src@[t], snk@[0]),
            decreases a - i,
        {
            v.push((src[i], snk[0]));
            assert(src@.contains(src@[i as int]) && snk@.contains(snk@[0]));
            i = i + 1;
        }
        Some(v)
    } else {
        None
    }
}

/// The body's node id numbers, in declaration order.
pub(crate) fn collect_ids(body: &IRGraph) -> (ids: Vec<u32>)
    requires
        body.wf(),
    ensures
        ids@ == body.keys(),
{
    let n = body.node_count();
    let mut ids: Vec<u32> = Vec::new();
    let mut k: usize = 0;
    while k < n
        invariant
            k <= n,
            n == body.entries().len(),
            body.wf(),
            ids@ == body.keys().take(k as int),
        decreases n - k,
    {
        let node = body.node_at(k);
        proof {
            body.lemma_entry_id(k as int);
        }
        ids.push(node.id.0);
        assert(ids@ =~= body.keys().take(k as int + 1));
        k = k + 1;
    }
    assert(ids@ =~= body.keys());
    ids
}

/// Value-table slot bases in declaration order, and the table size.
fn slot_bases(ports: &Vec<Ports>) -> (r: (Vec<u32>, usize))
    requires
        out_total(ports@) <= usize::MAX,
    ensures
        r.0@.len() == ports@.len(),
        forall|d: int| 0 <= d < ports@.len() ==> #[trigger] r.0@[d] == (out_total(ports@.take(d)) as u32),
        r.1 == out_total(ports@),
{
    let mut bases: Vec<u32> = Vec::new();
    let mut total: usize = 0;
    let mut d: usize = 0;
    while d < ports.len()
        invariant
            d <= ports@.len(),
            out_total(ports@) <= usize::MAX,
            bases@.len() == d,
            total == out_total(ports@.take(d as int)),
            forall|j: int| 0 <= j < d ==> #[trigger] bases@[j] == (out_total(ports@.take(j)) as u32),
        decreases ports.len() - d,
    {
        proof {
            lemma_out_total_prefix(ports@, d as int + 1);
            assert(ports@.take(d as int + 1).drop_last() =~= ports@.take(d as int));
        }
        bases.push(total as u32);
        total = total + ports[d].audio_out.len();
        d = d + 1;
    }
    assert(ports@.take(d as int) =~= ports@);
    (bases, total)
}


/// The port indices a port reference names in `list`: every port for an
/// omitted port, the given index, or the index of the first port of that
/// name (nothing where the reference cannot be resolved).
pub open spec fn resolved_ports(port: Port, list: Seq<crate::ports::PortMeta>) -> Seq<usize> {
    match port {
        Port::Omitted => Seq::new(list.len(), |k: int| k as usize),
        Port::Index(i) => seq![i],
        Port::Named(name) => match crate::kernel_plan::first_named(list, name@) {
            Some(k) => seq![list[k].index],
            None => Seq::empty(),
        },
        _ => Seq::empty(),
    }
}

/// Resolve a port reference on a node whose ports are numbered within
/// their list; the indices come back within range.
fn resolve_within(port: &Port, list: &Vec<crate::ports::PortMeta>, alias: &str) -> (r: Result<Vec<usize>, ValidationError>)
    requires
        forall|k: int| 0 <= k < list@.len() ==> (#[trigger] list@[k]).index < list@.len(),
    ensures
        r matches Ok(v) ==> forall|i: int| 0 <= i < v@.len() ==> #[trigger] v@[i] < list@.len(),
        r matches Ok(v) ==> v@ == resolved_ports(*port, list@),
{
    let r = resolve_port(port, list.as_slice(), alias);
    proof {
        if r is Ok {
            lemma_resolved_in_range(*port, list@, alias@, r->Ok_0@);
        }
    }
    r
}

/// Under the pairing rule for one edge, the `t`-th pair joins source port
/// `a` to sink port `b`: equal counts pair the `t`-th source port with the
/// `t`-th sink port, a lone source port feeds every sink port, and a lone
/// sink port sums every source port.
pub open spec fn paired_ports(src: Seq<usize>, snk: Seq<usize>, t: int, a: int, b: int) -> bool {
    ||| src.len() == snk.len() && 0 <= t < src.len() && a == src[t] && b == snk[t]
    ||| src.len() != snk.len() && src.len() == 1 && 0 <= t < snk.len() && a == src[0] && b == snk[t]
    ||| src.len() != snk.len() && snk.len() == 1 && 0 <= t < src.len() && a == src[t] && b == snk[0]
}

/// Body edge `i` runs from the node declared at `s` to the node declared at
/// `d`, and its `t`-th port pair joins output `sp` of the first to input `q`
/// of the second, the ports resolved against the layouts `ports`.
#[verifier::opaque]
pub open spec fn edge_feeds(m: IRMacro, ports: Seq<Ports>, i: int, t: int, s: int, sp: int, d: int, q: int) -> bool {
    let edges = m.body.edge_list();
    &&& 0 <= i < edges.len()
    &&& decl_index(m.body.entries(), edges[i].source.0) == s
    &&& decl_index(m.body.entries(), edges[i].sink.0) == d
    &&& 0 <= s < ports.len()
    &&& 0 <= d < ports.len()
    &&& paired_ports(
        resolved_ports(edges[i].source_port, ports[s].audio_out@),
        resolved_ports(edges[i].sink_port, ports[d].audio_in@),
        t,
        sp,
        q,
    )
}

/// Target `t` of virtual input `x` is a port of the node declared at `d`,
/// and the `u`-th port it resolves to is input `q`.
#[verifier::opaque]
pub open spec fn input_feeds(m: IRMacro, ports: Seq<Ports>, x: u32, t: int, u: int, d: int, q: int) -> bool {
    let targets = m.virtual_input_map@[x as int].1@;
    &&& x < m.virtual_input_map@.len()
    &&& 0 <= t < targets.len()
    &&& decl_index(m.body.entries(), targets[t].0.0) == d
    &&& 0 <= d < ports.len()
    &&& 0 <= u < resolved_ports(targets[t].1, ports[d].audio_in@).len()
    &&& resolved_ports(targets[t].1, ports[d].audio_in@)[u] == q
}

/// Every exterior contribution comes from a target port of its virtual input.
pub open spec fn contribs_from_inputs(c: Seq<(usize, usize, Draft)>, m: IRMacro, ports: Seq<Ports>) -> bool {
    forall|ci: int| 0 <= ci < c.len() ==> match (#[trigger] c[ci]).2 {
        Draft::Exterior(x) => m.virtual_input_map@.len() <= u32::MAX ==> exists|t: int, u: int| #[trigger] input_feeds(m, ports, x, t, u, c[ci].0 as int, c[ci].1 as int),
        _ => true,
    }
}

/// Every target port of the virtual inputs before `upto` has its
/// contribution recorded.
pub open spec fn inputs_contributed(c: Seq<(usize, usize, Draft)>, m: IRMacro, ports: Seq<Ports>, upto: int) -> bool {
    forall|x: u32, t: int, u: int, d: int, q: int|
        x < upto && #[trigger] input_feeds(m, ports, x, t, u, d, q) ==> exists|ci: int|
            0 <= ci < c.len() && #[trigger] c[ci] == (d as usize, q as usize, Draft::Exterior(x))
}

/// Every port pair of the body edges before `upto` has its contribution
/// recorded.
pub open spec fn edges_contributed(c: Seq<(usize, usize, Draft)>, m: IRMacro, ports: Seq<Ports>, upto: int) -> bool {
    forall|i: int, t: int, s: int, sp: int, d: int, q: int|
        0 <= i < upto && #[trigger] edge_feeds(m, ports, i, t, s, sp, d, q) ==> exists|ci: int|
            0 <= ci < c.len() && #[trigger] c[ci] == (d as usize, q as usize, Draft::Interior(s as usize, sp as usize))
}

/// A pairing of `src` with `snk` that follows the pairing rule holds the
/// `t`-th pair of the rule at `t`.
proof fn lemma_pairing_holds(src: Seq<usize>, snk: Seq<usize>, v: Seq<(usize, usize)>, t: int, a: int, b: int)
    requires
        paired_ports(src, snk, t, a, b),
        src.len() == snk.len() ==> v.len() == src.len() && forall|k: int| 0 <= k < v.len() ==> #[trigger] v[k] == (src[k], snk[k]),
        src.len() != snk.len() && src.len() == 1 ==> v.len() == snk.len() && forall|k: int| 0 <= k < v.len() ==> #[trigger] v[k] == (src[0], snk[k]),
        src.len() != snk.len() && src.len() != 1 && snk.len() == 1 ==> v.len() == src.len() && forall|k: int| 0 <= k < v.len() ==> #[trigger] v[k] == (src[k], snk[0]),
    ensures
        0 <= t < v.len(),
        v[t] == (a as usize, b as usize),
{
    assert(v[t] == v[t]);
}

/// Every interior contribution comes from a port pair of a body edge.
pub open spec fn contribs_along_edges(c: Seq<(usize, usize, Draft)>, m: IRMacro, ports: Seq<Ports>) -> bool {
    forall|ci: int| 0 <= ci < c.len() ==> match (#[trigger] c[ci]).2 {
        Draft::Interior(s, sp) => exists|i: int, t: int| #[trigger] edge_feeds(m, ports, i, t, s as int, sp as int, c[ci].0 as int, c[ci].1 as int),
        _ => true,
    }
}

/// Some recorded node-level edge leads from node `s` to node `d`.
pub open spec fn edge_recorded(sedges: Seq<(usize, usize)>, s: int, d: int) -> bool {
    exists|i: int| 0 <= i < sedges.len() && (#[trigger] sedges[i]).0 == s && sedges[i].1 == d
}

/// Every interior contribution comes along a recorded node-level edge.
pub open spec fn contribs_fed(c: Seq<(usize, usize, Draft)>, sedges: Seq<(usize, usize)>) -> bool {
    forall|i: int| 0 <= i < c.len() ==> match (#[trigger] c[i]).2 {
        Draft::Interior(s, _) => edge_recorded(sedges, s as int, c[i].0 as int),
        _ => true,
    }
}

/// Every recorded node-level edge is an edge of the body.
pub open spec fn sedges_from_body(sedges: Seq<(usize, usize)>, ids: Seq<u32>, edges: Seq<crate::ir::IREdge>) -> bool {
    forall|i: int| 0 <= i < sedges.len() ==> crate::ir_graph::ir_edge(edges, ids[(#[trigger] sedges[i]).0 as int], ids[sedges[i].1 as int])
}

/// Resolve the body's edges in order, recording each (sink port, source
/// port) pair and each node-level edge.
fn resolve_edges(
    m: &IRMacro,
    ids: &Vec<u32>,
    ports: &Vec<Ports>,
    contribs: &mut Vec<(usize, usize, Draft)>,
    sedges: &mut Vec<(usize, usize)>,
) -> (r: Result<(), ValidationError>)
    requires
        macro_joined(*m),
        ids@ == m.body.keys(),
        ports@.len() == ids@.len(),
        usable_ports(ports@),
        contribs_ok(old(contribs)@, ports@, m.virtual_input_map@.len() as nat),
        forall|i: int| 0 <= i < old(sedges)@.len() ==> (#[trigger] old(sedges)@[i]).0 < ids@.len() && old(sedges)@[i].1 < ids@.len(),
        contribs_fed(old(contribs)@, old(sedges)@),
        sedges_from_body(old(sedges)@, ids@, m.body.edge_list()),
        contribs_along_edges(old(contribs)@, *m, ports@),
        contribs_from_inputs(old(contribs)@, *m, ports@),
    ensures
        contribs_ok(final(contribs)@, ports@, m.virtual_input_map@.len() as nat),
        forall|i: int| 0 <= i < final(sedges)@.len() ==> (#[trigger] final(sedges)@[i]).0 < ids@.len() && final(sedges)@[i].1 < ids@.len(),
        contribs_fed(final(contribs)@, final(sedges)@),
        contribs_along_edges(final(contribs)@, *m, ports@),
        contribs_from_inputs(final(contribs)@, *m, ports@),
        sedges_from_body(final(sedges)@, ids@, m.body.edge_list()),
        r is Ok ==> final(sedges)@ == old(sedges)@ + decl_pairs(m.body.entries(), m.body.edge_list()),
        r is Ok ==> edges_contributed(final(contribs)@, *m, ports@, m.body.edge_list().len() as int),
{
    let edges = m.body.edges();
    let mut i: usize = 0;
    while i < edges.len()
        invariant
            macro_joined(*m),
            ids@ == m.body.keys(),
            ports@.len() == ids@.len(),
            usable_ports(ports@),
            edges@ == m.body.edge_list(),
            i <= edges@.len(),
            contribs_ok(contribs@, ports@, m.virtual_input_map@.len() as nat),
            forall|j: int| 0 <= j < sedges@.len() ==> (#[trigger] sedges@[j]).0 < ids@.len() && sedges@[j].1 < ids@.len(),
            contribs_fed(contribs@, sedges@),
            sedges_from_body(sedges@, ids@, m.body.edge_list()),
            sedges@ == old(sedges)@ + decl_pairs(m.body.entries(), edges@.take(i as int)),
            contribs_along_edges(contribs@, *m, ports@),
            contribs_from_inputs(contribs@, *m, ports@),
            edges_contributed(contribs@, *m, ports@, i as int),
        decreases edges.len() - i,
    {
        let edge = &edges[i];
        assert(m.body.keys().contains(edges@[i as int].source.0) && m.body.keys().contains(edges@[i as int].sink.0));
        let src = decl_of(ids, edge.source);
        let snk = decl_of(ids, edge.sink);
        assert(numbered_within(ports@[src as int]) && numbered_within(ports@[snk as int]));
        let src_alias = m.body.node_at(src).alias.as_str();
        let snk_alias = m.body.node_at(snk).alias.as_str();
        let sp = match resolve_within(&edge.source_port, &ports[src].audio_out, src_alias) {
            Ok(v) => v,
            Err(e) => return Err(e),
        };
        let kp = match resolve_within(&edge.sink_port, &ports[snk].audio_in, snk_alias) {
            Ok(v) => v,
            Err(e) => return Err(e),
        };
        let ghost old_sedges = sedges@;
        sedges.push((src, snk));
        proof {
            m.body.lemma_keys_unique();
            m.body.lemma_entry_id(src as int);
            m.body.lemma_entry_id(snk as int);
            lemma_key_position_of(m.body.entries(), m.body.keys(), src as int);
            lemma_key_position_of(m.body.entries(), m.body.keys(), snk as int);
            assert(decl_pairs(m.body.entries(), edges@.take(i as int + 1)) =~= decl_pairs(m.body.entries(), edges@.take(i as int)).push((src, snk)));
            assert(sedges@ =~= old(sedges)@ + decl_pairs(m.body.entries(), edges@.take(i as int + 1)));
            assert(sedges@[old_sedges.len() as int] == (src, snk));
            assert(edge_recorded(sedges@, src as int, snk as int));
            assert forall|c: int| 0 <= c < contribs@.len() implies match (#[trigger] contribs@[c]).2 {
                Draft::Interior(s, _) => edge_recorded(sedges@, s as int, contribs@[c].0 as int),
                _ => true,
            } by {
                match contribs@[c].2 {
                    Draft::Interior(s, _) => {
                        let j = choose|j: int| 0 <= j < old_sedges.len() && (#[trigger] old_sedges[j]).0 == s && old_sedges[j].1 == contribs@[c].0;
                        assert(sedges@[j] == old_sedges[j]);
                    },
                    _ => {},
                }
            }
            assert(crate::ir_graph::ir_edge(m.body.edge_list(), ids@[src as int], ids@[snk as int])) by {
                assert(edges@[i as int].source.0 == ids@[src as int] && edges@[i as int].sink.0 == ids@[snk as int]);
            }
            assert forall|j: int| 0 <= j < sedges@.len() implies crate::ir_graph::ir_edge(m.body.edge_list(), ids@[(#[trigger] sedges@[j]).0 as int], ids@[sedges@[j].1 as int]) by {
                if j < old_sedges.len() {
                    assert(sedges@[j] == old_sedges[j]);
                }
            }
        }
        match pair_ports(&sp, &kp) {
            None => {
                let mut msg = String::new();
                push_str(&mut msg, "kernel '");
                push_str(&mut msg, m.name.as_str());
                push_str(&mut msg, "': cannot match port arity ");
                push_decimal(&mut msg, sp.len());
                push_str(&mut msg, ":");
                push_decimal(&mut msg, kp.len());
                push_str(&mut msg, " between '");
                push_str(&mut msg, src_alias);
                push_str(&mut msg, "' and '");
                push_str(&mut msg, snk_alias);
                push_str(&mut msg, "'");
                return Err(ValidationError::InvalidParameter(msg));
            },
            Some(pairs) => {
                proof {
                    assert(edges@[i as int].source.0 == ids@[src as int] && edges@[i as int].sink.0 == ids@[snk as int]);
                    assert(decl_index(m.body.entries(), edges@[i as int].source.0) == src);
                    assert(decl_index(m.body.entries(), edges@[i as int].sink.0) == snk);
                    assert forall|j: int| 0 <= j < pairs@.len() implies edge_feeds(*m, ports@, i as int, j, src as int,
                        (#[trigger] pairs@[j]).0 as int, snk as int, pairs@[j].1 as int) by {
                        reveal(edge_feeds);
                        assert(sp@ == resolved_ports(edges@[i as int].source_port, ports@[src as int].audio_out@));
                        assert(kp@ == resolved_ports(edges@[i as int].sink_port, ports@[snk as int].audio_in@));
                    }
                }
                let mut t: usize = 0;
                while t < pairs.len()
                    invariant
                        t <= pairs@.len(),
                        src < ports@.len(),
                        snk < ports@.len(),
                        edges@ == m.body.edge_list(),
                        i < edges@.len(),
                        forall|j: int| 0 <= j < pairs@.len() ==> edge_feeds(*m, ports@, i as int, j, src as int,
                            (#[trigger] pairs@[j]).0 as int, snk as int, pairs@[j].1 as int),
                        contribs_along_edges(contribs@, *m, ports@),
                        contribs_from_inputs(contribs@, *m, ports@),
                        edges_contributed(contribs@, *m, ports@, i as int),
                        forall|tt: int| 0 <= tt < t ==> exists|ci: int| 0 <= ci < contribs@.len()
                            && #[trigger] contribs@[ci] == (snk, (#[trigger] pairs@[tt]).1, Draft::Interior(src, pairs@[tt].0)),
                        forall|j: int| 0 <= j < pairs@.len() ==> sp@.contains((#[trigger] pairs@[j]).0) && kp@.contains(pairs@[j].1),
                        forall|j: int| 0 <= j < sp@.len() ==> #[trigger] sp@[j] < ports@[src as int].audio_out@.len(),
                        forall|j: int| 0 <= j < kp@.len() ==> #[trigger] kp@[j] < ports@[snk as int].audio_in@.len(),
                        contribs_ok(contribs@, ports@, m.virtual_input_map@.len() as nat),
                        contribs_fed(contribs@, sedges@),
                        edge_recorded(sedges@, src as int, snk as int),
                    decreases pairs.len() - t,
                {
                    let (a, b) = pairs[t];
                    assert(sp@.contains(a) && kp@.contains(b));
                    let ghost before = contribs@;
                    contribs.push((snk, b, Draft::Interior(src, a)));
                    assert forall|c: int| 0 <= c < contribs@.len() implies {
                        &&& (#[trigger] contribs@[c]).0 < ports@.len()
                        &&& contribs@[c].1 < ports@[contribs@[c].0 as int].audio_in@.len()
                        &&& match contribs@[c].2 {
                            Draft::Interior(s, sp) => s < ports@.len() && sp < ports@[s as int].audio_out@.len(),
                            Draft::Exterior(x) => m.virtual_input_map@.len() <= u32::MAX ==> x < m.virtual_input_map@.len(),
                        }
                    } by {
                        if c < before.len() {
                            assert(contribs@[c] == before[c]);
                        }
                    }
                    assert forall|c: int| 0 <= c < contribs@.len() implies match (#[trigger] contribs@[c]).2 {
                        Draft::Interior(s, _) => edge_recorded(sedges@, s as int, contribs@[c].0 as int),
                        _ => true,
                    } by {
                        if c < before.len() {
                            assert(contribs@[c] == before[c]);
                        }
                    }
                    assert forall|c: int| 0 <= c < contribs@.len() implies match (#[trigger] contribs@[c]).2 {
                        Draft::Interior(s, sp) => exists|ii: int, tt: int| #[trigger] edge_feeds(*m, ports@, ii, tt, s as int, sp as int, contribs@[c].0 as int, contribs@[c].1 as int),
                        _ => true,
                    } by {
                        if c < before.len() {
                            assert(contribs@[c] == before[c]);
                        } else {
                            assert(edge_feeds(*m, ports@, i as int, t as int, src as int, a as int, snk as int, b as int));
                        }
                    }
                    assert forall|c: int| 0 <= c < contribs@.len() implies match (#[trigger] contribs@[c]).2 {
                        Draft::Exterior(x) => m.virtual_input_map@.len() <= u32::MAX ==> exists|tt: int, u: int| #[trigger] input_feeds(*m, ports@, x, tt, u, contribs@[c].0 as int, contribs@[c].1 as int),
                        _ => true,
                    } by {
                        if c < before.len() {
                            assert(contribs@[c] == before[c]);
                        }
                    }
                    assert forall|ii: int, tt: int, ss: int, spp: int, dd: int, qq: int|
                        0 <= ii < i && #[trigger] edge_feeds(*m, ports@, ii, tt, ss, spp, dd, qq) implies exists|ci: int|
                            0 <= ci < contribs@.len() && #[trigger] contribs@[ci] == (dd as usize, qq as usize, Draft::Interior(ss as usize, spp as usize)) by {
                        let ci = choose|ci: int| 0 <= ci < before.len() && #[trigger] before[ci] == (dd as usize, qq as usize, Draft::Interior(ss as usize, spp as usize));
                        assert(contribs@[ci] == before[ci]);
                    }
                    assert forall|tt: int| 0 <= tt < t + 1 implies exists|ci: int| 0 <= ci < contribs@.len()
                        && #[trigger] contribs@[ci] == (snk, (#[trigger] pairs@[tt]).1, Draft::Interior(src, pairs@[tt].0)) by {
                        if tt < t {
                            let ci = choose|ci: int| 0 <= ci < before.len()
                                && #[trigger] before[ci] == (snk, pairs@[tt].1, Draft::Interior(src, pairs@[tt].0));
                            assert(contribs@[ci] == before[ci]);
                        } else {
                            assert(contribs@[before.len() as int] == (snk, b, Draft::Interior(src, a)));
                        }
                    }
                    t = t + 1;
                }
                proof {
                    assert forall|ii: int, tt: int, ss: int, spp: int, dd: int, qq: int|
                        0 <= ii < i + 1 && #[trigger] edge_feeds(*m, ports@, ii, tt, ss, spp, dd, qq) implies exists|ci: int|
                            0 <= ci < contribs@.len() && #[trigger] contribs@[ci] == (dd as usize, qq as usize, Draft::Interior(ss as usize, spp as usize)) by {
                        if ii == i {
                            reveal(edge_feeds);
                            assert(ss == src && dd == snk);
                            lemma_pairing_holds(sp@, kp@, pairs@, tt, spp, qq);
                            assert(pairs@[tt] == (spp as usize, qq as usize));
                        }
                    }
                }
            },
        }
        i = i + 1;
    }
    assert(edges@.take(i as int) =~= edges@);
    Ok(())
}

/// Record each exterior input's contributions to the body ports it feeds.
fn resolve_exterior(
    m: &IRMacro,
    ids: &Vec<u32>,
    ports: &Vec<Ports>,
    contribs: &mut Vec<(usize, usize, Draft)>,
    sedges: Ghost<Seq<(usize, usize)>>,
) -> (r: Result<(), ValidationError>)
    requires
        macro_joined(*m),
        ids@ == m.body.keys(),
        ports@.len() == ids@.len(),
        usable_ports(ports@),
        contribs_ok(old(contribs)@, ports@, m.virtual_input_map@.len() as nat),
        contribs_fed(old(contribs)@, sedges@),
        contribs_along_edges(old(contribs)@, *m, ports@),
        contribs_from_inputs(old(contribs)@, *m, ports@),
        edges_contributed(old(contribs)@, *m, ports@, m.body.edge_list().len() as int),
    ensures
        contribs_ok(final(contribs)@, ports@, m.virtual_input_map@.len() as nat),
        contribs_fed(final(contribs)@, sedges@),
        contribs_along_edges(final(contribs)@, *m, ports@),
        contribs_from_inputs(final(contribs)@, *m, ports@),
        edges_contributed(final(contribs)@, *m, ports@, m.body.edge_list().len() as int),
        r is Ok && m.virtual_input_map@.len() <= u32::MAX
            ==> inputs_contributed(final(contribs)@, *m, ports@, m.virtual_input_map@.len() as int),
{
    let mut x: usize = 0;
    while x < m.virtual_input_map.len()
        invariant
            macro_joined(*m),
            ids@ == m.body.keys(),
            ports@.len() == ids@.len(),
            usable_ports(ports@),
            x <= m.virtual_input_map@.len(),
            contribs_ok(contribs@, ports@, m.virtual_input_map@.len() as nat),
            contribs_fed(contribs@, sedges@),
            contribs_along_edges(contribs@, *m, ports@),
            contribs_from_inputs(contribs@, *m, ports@),
            edges_contributed(contribs@, *m, ports@, m.body.edge_list().len() as int),
            m.virtual_input_map@.len() <= u32::MAX ==> inputs_contributed(contribs@, *m, ports@, x as int),
        decreases m.virtual_input_map.len() - x,
    {
        let targets = &m.virtual_input_map[x].1;
        let mut t: usize = 0;
        while t < targets.len()
            invariant
                macro_joined(*m),
                ids@ == m.body.keys(),
                ports@.len() == ids@.len(),
                usable_ports(ports@),
                x < m.virtual_input_map@.len(),
                *targets == m.virtual_input_map@[x as int].1,
                t <= targets@.len(),
                contribs_ok(contribs@, ports@, m.virtual_input_map@.len() as nat),
                contribs_fed(contribs@, sedges@),
                contribs_along_edges(contribs@, *m, ports@),
                contribs_from_inputs(contribs@, *m, ports@),
                edges_contributed(contribs@, *m, ports@, m.body.edge_list().len() as int),
                m.virtual_input_map@.len() <= u32::MAX ==> inputs_contributed(contribs@, *m, ports@, x as int),
                m.virtual_input_map@.len() <= u32::MAX ==> forall|tt: int, uu: int, dd: int, qq: int|
                    0 <= tt < t && #[trigger] input_feeds(*m, ports@, x as u32, tt, uu, dd, qq) ==> exists|ci: int|
                        0 <= ci < contribs@.len() && #[trigger] contribs@[ci] == (dd as usize, qq as usize, Draft::Exterior(x as u32)),
            decreases targets.len() - t,
        {
            let (node_id, port) = &targets[t];
            assert(m.body.keys().contains(m.virtual_input_map@[x as int].1@[t as int].0.0));
            let d = decl_of(ids, *node_id);
            assert(numbered_within(ports@[d as int]));
            let alias = m.body.node_at(d).alias.as_str();
            let tps = match resolve_within(port, &ports[d].audio_in, alias) {
                Ok(v) => v,
                Err(e) => return Err(e),
            };
            proof {
                m.body.lemma_keys_unique();
                m.body.lemma_entry_id(d as int);
                lemma_key_position_of(m.body.entries(), m.body.keys(), d as int);
                assert(decl_index(m.body.entries(), m.virtual_input_map@[x as int].1@[t as int].0.0) == d);
            }
            let mut u: usize = 0;
            while u < tps.len()
                invariant
                    u <= tps@.len(),
                    d < ports@.len(),
                    x < m.virtual_input_map@.len(),
                    forall|j: int| 0 <= j < tps@.len() ==> #[trigger] tps@[j] < ports@[d as int].audio_in@.len(),
                    contribs_ok(contribs@, ports@, m.virtual_input_map@.len() as nat),
                    contribs_fed(contribs@, sedges@),
                    contribs_along_edges(contribs@, *m, ports@),
                    contribs_from_inputs(contribs@, *m, ports@),
                    edges_contributed(contribs@, *m, ports@, m.body.edge_list().len() as int),
                    m.virtual_input_map@.len() <= u32::MAX ==> inputs_contributed(contribs@, *m, ports@, x as int),
                    m.virtual_input_map@.len() <= u32::MAX ==> forall|tt: int, uu: int, dd: int, qq: int|
                        0 <= tt < t && #[trigger] input_feeds(*m, ports@, x as u32, tt, uu, dd, qq) ==> exists|ci: int|
                            0 <= ci < contribs@.len() && #[trigger] contribs@[ci] == (dd as usize, qq as usize, Draft::Exterior(x as u32)),
                    forall|uu: int| 0 <= uu < u ==> exists|ci: int|
                        0 <= ci < contribs@.len() && #[trigger] contribs@[ci] == (d, #[trigger] tps@[uu], Draft::Exterior(x as u32)),
                    macro_joined(*m),
                    ids@ == m.body.keys(),
                    *targets == m.virtual_input_map@[x as int].1,
                    t < targets@.len(),
                    decl_index(m.body.entries(), m.virtual_input_map@[x as int].1@[t as int].0.0) == d,
                    tps@ == resolved_ports(m.virtual_input_map@[x as int].1@[t as int].1, ports@[d as int].audio_in@),
                decreases tps.len() - u,
            {
                let ghost before = contribs@;
                contribs.push((d, tps[u], Draft::Exterior(x as u32)));
                assert forall|c: int| 0 <= c < contribs@.len() implies {
                    &&& (#[trigger] contribs@[c]).0 < ports@.len()
                    &&& contribs@[c].1 < ports@[contribs@[c].0 as int].audio_in@.len()
                    &&& match contribs@[c].2 {
                        Draft::Interior(s, sp) => s < ports@.len() && sp < ports@[s as int].audio_out@.len(),
                        Draft::Exterior(x) => m.virtual_input_map@.len() <= u32::MAX ==> x < m.virtual_input_map@.len(),
                    }
                } by {
                    if c < before.len() {
                        assert(contribs@[c] == before[c]);
                    }
                }
                assert forall|c: int| 0 <= c < contribs@.len() implies match (#[trigger] contribs@[c]).2 {
                    Draft::Interior(s, _) => edge_recorded(sedges@, s as int, contribs@[c].0 as int),
                    _ => true,
                } by {
                    if c < before.len() {
                        assert(contribs@[c] == before[c]);
                    }
                }
                assert forall|c: int| 0 <= c < contribs@.len() implies match (#[trigger] contribs@[c]).2 {
                    Draft::Interior(s, sp) => exists|ii: int, tt: int| #[trigger] edge_feeds(*m, ports@, ii, tt, s as int, sp as int, contribs@[c].0 as int, contribs@[c].1 as int),
                    _ => true,
                } by {
                    if c < before.len() {
                        assert(contribs@[c] == before[c]);
                    }
                }
                assert forall|c: int| 0 <= c < contribs@.len() implies match (#[trigger] contribs@[c]).2 {
                    Draft::Exterior(xx) => m.virtual_input_map@.len() <= u32::MAX ==> exists|tt: int, uu: int| #[trigger] input_feeds(*m, ports@, xx, tt, uu, contribs@[c].0 as int, contribs@[c].1 as int),
                    _ => true,
                } by {
                    if c < before.len() {
                        assert(contribs@[c] == before[c]);
                    } else if m.virtual_input_map@.len() <= u32::MAX {
                        reveal(input_feeds);
                        assert(input_feeds(*m, ports@, x as u32, t as int, u as int, d as int, tps@[u as int] as int));
                    }
                }
                assert forall|ii: int, tt: int, ss: int, spp: int, dd: int, qq: int|
                    0 <= ii < m.body.edge_list().len() && #[trigger] edge_feeds(*m, ports@, ii, tt, ss, spp, dd, qq) implies exists|ci: int|
                        0 <= ci < contribs@.len() && #[trigger] contribs@[ci] == (dd as usize, qq as usize, Draft::Interior(ss as usize, spp as usize)) by {
                    let ci = choose|ci: int| 0 <= ci < before.len() && #[trigger] before[ci] == (dd as usize, qq as usize, Draft::Interior(ss as usize, spp as usize));
                    assert(contribs@[ci] == before[ci]);
                }
                proof {
                if m.virtual_input_map@.len() <= u32::MAX {
                    assert forall|xx: u32, tt: int, uu: int, dd: int, qq: int|
                        xx < x && #[trigger] input_feeds(*m, ports@, xx, tt, uu, dd, qq) implies exists|ci: int|
                            0 <= ci < contribs@.len() && #[trigger] contribs@[ci] == (dd as usize, qq as usize, Draft::Exterior(xx)) by {
                        let ci = choose|ci: int| 0 <= ci < before.len() && #[trigger] before[ci] == (dd as usize, qq as usize, Draft::Exterior(xx));
                        assert(contribs@[ci] == before[ci]);
                    }
                    assert forall|tt: int, uu: int, dd: int, qq: int|
                        0 <= tt < t && #[trigger] input_feeds(*m, ports@, x as u32, tt, uu, dd, qq) implies exists|ci: int|
                            0 <= ci < contribs@.len() && #[trigger] contribs@[ci] == (dd as usize, qq as usize, Draft::Exterior(x as u32)) by {
                        let ci = choose|ci: int| 0 <= ci < before.len() && #[trigger] before[ci] == (dd as usize, qq as usize, Draft::Exterior(x as u32));
                        assert(contribs@[ci] == before[ci]);
                    }
                }
                }
                assert forall|uu: int| 0 <= uu < u + 1 implies exists|ci: int|
                    0 <= ci < contribs@.len() && #[trigger] contribs@[ci] == (d, #[trigger] tps@[uu], Draft::Exterior(x as u32)) by {
                    if uu < u {
                        let ci = choose|ci: int| 0 <= ci < before.len() && #[trigger] before[ci] == (d, tps@[uu], Draft::Exterior(x as u32));
                        assert(contribs@[ci] == before[ci]);
                    } else {
                        assert(contribs@[before.len() as int] == (d, tps@[u as int], Draft::Exterior(x as u32)));
                    }
                }
                u = u + 1;
            }
            proof {
                if m.virtual_input_map@.len() <= u32::MAX {
                    assert forall|tt: int, uu: int, dd: int, qq: int|
                        0 <= tt < t + 1 && #[trigger] input_feeds(*m, ports@, x as u32, tt, uu, dd, qq) implies exists|ci: int|
                            0 <= ci < contribs@.len() && #[trigger] contribs@[ci] == (dd as usize, qq as usize, Draft::Exterior(x as u32)) by {
                        if tt == t {
                            reveal(input_feeds);
                            assert(dd == d);
                            assert(qq == tps@[uu]);
                        }
                    }
                }
            }
            t = t + 1;
        }
        proof {
            if m.virtual_input_map@.len() <= u32::MAX {
                assert forall|xx: u32, tt: int, uu: int, dd: int, qq: int|
                    xx < x + 1 && #[trigger] input_feeds(*m, ports@, xx, tt, uu, dd, qq) implies exists|ci: int|
                        0 <= ci < contribs@.len() && #[trigger] contribs@[ci] == (dd as usize, qq as usize, Draft::Exterior(xx)) by {
                    if xx == x {
                        assert(x as u32 == xx);
                        assert(0 <= tt < t) by {
                            reveal(input_feeds);
                        }
                        assert(input_feeds(*m, ports@, x as u32, tt, uu, dd, qq));
                        let ci = choose|ci: int| 0 <= ci < contribs@.len() && #[trigger] contribs@[ci] == (dd as usize, qq as usize, Draft::Exterior(x as u32));
                        assert(contribs@[ci] == (dd as usize, qq as usize, Draft::Exterior(xx)));
                    } else {
                        assert(inputs_contributed(contribs@, *m, ports@, x as int));
                        let ci = choose|ci: int| 0 <= ci < contribs@.len() && #[trigger] contribs@[ci] == (dd as usize, qq as usize, Draft::Exterior(xx));
                        assert(contribs@[ci] == (dd as usize, qq as usize, Draft::Exterior(xx)));
                    }
                }
            }
        }
        x = x + 1;
    }
    Ok(())
}


/// For each of the `n` nodes, the nodes its recorded edges lead to, in
/// edge order.
fn successor_lists(n: usize, sedges: &Vec<(usize, usize)>) -> (succ: Vec<Vec<DeclIdx>>)
    requires
        forall|i: int| 0 <= i < sedges@.len() ==> (#[trigger] sedges@[i]).0 < n && sedges@[i].1 < n,
    ensures
        crate::kernel_plan::successors_in_range(n as nat, succ@),
        forall|i: int| 0 <= i < sedges@.len() ==> crate::kernel_plan::is_edge(succ@, (#[trigger] sedges@[i]).0 as int, sedges@[i].1 as int),
        forall|u: int, k: int| 0 <= u < n && 0 <= k < succ@[u]@.len() ==> edge_recorded(sedges@, u, (#[trigger] succ@[u]@[k]).0 as int),
        forall|u: int| 0 <= u < n ==> (#[trigger] succ@[u])@ == targets_of(sedges@, u),
{
    let mut succ: Vec<Vec<DeclIdx>> = Vec::new();
    let mut d: usize = 0;
    while d < n
        invariant
            d <= n,
            succ@.len() == d,
            forall|i: int| 0 <= i < sedges@.len() ==> (#[trigger] sedges@[i]).0 < n && sedges@[i].1 < n,
            forall|u: int, k: int| 0 <= u < d && 0 <= k < succ@[u]@.len() ==> (#[trigger] succ@[u]@[k]).0 < n,
            forall|u: int, k: int| 0 <= u < d && 0 <= k < succ@[u]@.len() ==> edge_recorded(sedges@, u, (#[trigger] succ@[u]@[k]).0 as int),
            forall|i: int| 0 <= i < sedges@.len() && (#[trigger] sedges@[i]).0 < d ==> exists|k: int|
                0 <= k < succ@[sedges@[i].0 as int]@.len() && (#[trigger] succ@[sedges@[i].0 as int]@[k]).0 == sedges@[i].1,
            forall|u: int| 0 <= u < d ==> (#[trigger] succ@[u])@ == targets_of(sedges@, u),
        decreases n - d,
    {
        let mut list: Vec<DeclIdx> = Vec::new();
        let mut i: usize = 0;
        while i < sedges.len()
            invariant
                i <= sedges@.len(),
                forall|j: int| 0 <= j < sedges@.len() ==> (#[trigger] sedges@[j]).0 < n && sedges@[j].1 < n,
                forall|k: int| 0 <= k < list@.len() ==> (#[trigger] list@[k]).0 < n,
                forall|k: int| 0 <= k < list@.len() ==> edge_recorded(sedges@, d as int, (#[trigger] list@[k]).0 as int),
                forall|j: int| 0 <= j < i && (#[trigger] sedges@[j]).0 == d ==> exists|k: int|
                    0 <= k < list@.len() && (#[trigger] list@[k]).0 == sedges@[j].1,
                list@ == targets_of(sedges@.take(i as int), d as int),
            decreases sedges.len() - i,
        {
            assert(sedges@.take(i as int + 1).drop_last() =~= sedges@.take(i as int));
            if sedges[i].0 == d {
                let ghost before = list@;
                list.push(DeclIdx(sedges[i].1));
                proof {
                    assert(list@[before.len() as int].0 == sedges@[i as int].1);
                    assert forall|j: int| 0 <= j < i + 1 && (#[trigger] sedges@[j]).0 == d implies exists|k: int|
                        0 <= k < list@.len() && (#[trigger] list@[k]).0 == sedges@[j].1 by {
                        if j < i {
                            let k = choose|k: int| 0 <= k < before.len() && (#[trigger] before[k]).0 == sedges@[j].1;
                            assert(list@[k] == before[k]);
                        } else {
                            assert(list@[before.len() as int].0 == sedges@[j].1);
                        }
                    }
                    assert forall|k: int| 0 <= k < list@.len() implies edge_recorded(sedges@, d as int, (#[trigger] list@[k]).0 as int) by {
                        if k < before.len() {
                            assert(list@[k] == before[k]);
                        } else {
                            assert(sedges@[i as int].0 == d && sedges@[i as int].1 == list@[k].0);
                        }
                    }
                }
            }
            i = i + 1;
        }
        assert(sedges@.take(i as int) =~= sedges@);
        let ghost before = succ@;
        succ.push(list);
        proof {
            assert(succ@[d as int] == list);
            assert forall|u: int| 0 <= u < d + 1 implies (#[trigger] succ@[u])@ == targets_of(sedges@, u) by {
                if u < d {
                    assert(succ@[u] == before[u]);
                }
            }
            assert forall|u: int, k: int| 0 <= u < d + 1 && 0 <= k < succ@[u]@.len() implies (#[trigger] succ@[u]@[k]).0 < n
                && edge_recorded(sedges@, u, succ@[u]@[k].0 as int) by {
                if u < d {
                    assert(succ@[u] == before[u]);
                }
            }
            assert forall|j: int| 0 <= j < sedges@.len() && (#[trigger] sedges@[j]).0 < d + 1 implies exists|k: int|
                0 <= k < succ@[sedges@[j].0 as int]@.len() && (#[trigger] succ@[sedges@[j].0 as int]@[k]).0 == sedges@[j].1 by {
                if sedges@[j].0 < d {
                    assert(succ@[sedges@[j].0 as int] == before[sedges@[j].0 as int]);
                }
            }
        }
        d = d + 1;
    }
    proof {
        assert forall|i: int| 0 <= i < sedges@.len() implies crate::kernel_plan::is_edge(succ@, (#[trigger] sedges@[i]).0 as int, sedges@[i].1 as int) by {
            let k = choose|k: int| 0 <= k < succ@[sedges@[i].0 as int]@.len() && (#[trigger] succ@[sedges@[i].0 as int]@[k]).0 == sedges@[i].1;
            assert(succ@[sedges@[i].0 as int]@[k].0 == sedges@[i].1);
        }
    }
    succ
}

/// Each node's place in `order`.
fn positions(order: &Vec<DeclIdx>, n: usize) -> (pos: Vec<usize>)
    requires
        crate::kernel_plan::is_permutation_of_nodes(order@, n as nat),
    ensures
        pos@.len() == n,
        forall|k: int| 0 <= k < n ==> #[trigger] pos@[order@[k].0 as int] == k,
{
    let mut pos: Vec<usize> = Vec::new();
    let mut i: usize = 0;
    while i < n
        invariant
            i <= n,
            pos@.len() == i,
        decreases n - i,
    {
        pos.push(0);
        i = i + 1;
    }
    let mut k: usize = 0;
    while k < n
        invariant
            k <= n,
            pos@.len() == n,
            crate::kernel_plan::is_permutation_of_nodes(order@, n as nat),
            forall|j: int| 0 <= j < k ==> #[trigger] pos@[order@[j].0 as int] == j,
        decreases n - k,
    {
        let d = order[k].0;
        let ghost before = pos@;
        pos.set(d, k);
        assert forall|j: int| 0 <= j < k + 1 implies #[trigger] pos@[order@[j].0 as int] == j by {
            if j < k {
                assert(order@[j] != order@[k as int]);
                assert(before[order@[j].0 as int] == j);
            }
        }
        k = k + 1;
    }
    pos
}

/// The declared params with their resolved values and every node param each
/// feeds.
fn plan_params(
    m: &IRMacro,
    resolved: &Object,
    bindings: &Vec<(String, ParamTarget)>,
) -> (r: Vec<PlanParam>)
    ensures
        match m.default_params {
            Some(dp) => {
                &&& r@.len() == dp@.len()
                &&& forall|i: int| 0 <= i < dp@.len() ==> {
                    &&& (#[trigger] r@[i]).name@ == dp@[i].0@
                    &&& target_view(r@[i].targets@) == targets_for(binding_view(bindings@), dp@[i].0@)
                    &&& match crate::ir::param_value(resolved@, dp@[i].0@) {
                        Some(v) => crate::ir::copied_value(v, r@[i].default),
                        None => crate::ir::copied_value(dp@[i].1, r@[i].default),
                    }
                }
            },
            None => r@.len() == 0,
        },
{
    let mut out: Vec<PlanParam> = Vec::new();
    match &m.default_params {
        None => {},
        Some(dp) => {
            let mut i: usize = 0;
            while i < dp.len()
                invariant
                    m.default_params == Some(*dp),
                    i <= dp@.len(),
                    out@.len() == i,
                    forall|j: int| 0 <= j < i ==> {
                        &&& (#[trigger] out@[j]).name@ == dp@[j].0@
                        &&& target_view(out@[j].targets@) == targets_for(binding_view(bindings@), dp@[j].0@)
                        &&& match crate::ir::param_value(resolved@, dp@[j].0@) {
                            Some(v) => crate::ir::copied_value(v, out@[j].default),
                            None => crate::ir::copied_value(dp@[j].1, out@[j].default),
                        }
                    },
                decreases dp@.len() - i,
            {
                let (name, declared) = dp.entry(i);
                let default = match resolved.get(name.as_str()) {
                    Some(v) => v.duplicate(),
                    None => declared.duplicate(),
                };
                let mut targets: Vec<ParamTarget> = Vec::new();
                let mut b: usize = 0;
                while b < bindings.len()
                    invariant
                        b <= bindings@.len(),
                        target_view(targets@) == targets_for(binding_view(bindings@).take(b as int), name@),
                    decreases bindings.len() - b,
                {
                    proof {
                        assert(binding_view(bindings@).take(b as int + 1).drop_last() =~= binding_view(bindings@).take(b as int));
                    }
                    if str_eq(bindings[b].0.as_str(), name.as_str()) {
                        let t = ParamTarget {
                            node_alias: bindings[b].1.node_alias.clone(),
                            node_param: bindings[b].1.node_param.clone(),
                        };
                        let ghost tv = target_view(targets@);
                        targets.push(t);
                        assert(target_view(targets@) =~= tv.push((t.node_alias@, t.node_param@)));
                    }
                    b = b + 1;
                }
                assert(binding_view(bindings@).take(b as int) =~= binding_view(bindings@));
                let ghost before = out@;
                out.push(PlanParam { name: name.clone(), default, targets });
                assert forall|j: int| 0 <= j < i + 1 implies {
                    &&& (#[trigger] out@[j]).name@ == dp@[j].0@
                    &&& target_view(out@[j].targets@) == targets_for(binding_view(bindings@), dp@[j].0@)
                    &&& match crate::ir::param_value(resolved@, dp@[j].0@) {
                        Some(v) => crate::ir::copied_value(v, out@[j].default),
                        None => crate::ir::copied_value(dp@[j].1, out@[j].default),
                    }
                } by {
                    if j < i {
                        assert(out@[j] == before[j]);
                    }
                }
                i = i + 1;
            }
        },
    }
    out
}



/// No read of `p` is delayed.
pub open spec fn no_delayed_reads(p: KernelPlan) -> bool {
    forall|k: int, q: int, e: int|
        0 <= k < p.nodes@.len() && 0 <= q < p.nodes@[k].inputs@.len() && 0 <= e
            < p.nodes@[k].inputs@[q]@.len() ==> match #[trigger] p.nodes@[k].inputs@[q]@[e] {
            PlanSrc::Interior { delayed, .. } => !delayed,
            PlanSrc::Exterior(_) => true,
        }
}

proof fn lemma_succ_edge_is_body_edge(
    succ: Seq<Vec<DeclIdx>>,
    sedges: Seq<(usize, usize)>,
    ids: Seq<u32>,
    edges: Seq<crate::ir::IREdge>,
    n: nat,
    u: int,
    v: int,
)
    requires
        crate::kernel_plan::successors_in_range(n, succ),
        forall|a: int, k: int| 0 <= a < n && 0 <= k < succ[a]@.len() ==> edge_recorded(sedges, a, (#[trigger] succ[a]@[k]).0 as int),
        sedges_from_body(sedges, ids, edges),
        crate::kernel_plan::is_edge(succ, u, v),
    ensures
        crate::ir_graph::ir_edge(edges, ids[u], ids[v]),
{
    let k = choose|k: int| 0 <= k < succ[u]@.len() && (#[trigger] succ[u]@[k]).0 == v;
    assert(edge_recorded(sedges, u, succ[u]@[k].0 as int));
    let i = choose|i: int| 0 <= i < sedges.len() && (#[trigger] sedges[i]).0 == u && sedges[i].1 == v;
    assert(crate::ir_graph::ir_edge(edges, ids[sedges[i].0 as int], ids[sedges[i].1 as int]));
}

/// A body without cycles gives successor lists without cycles.
proof fn lemma_acyclic_succ(
    succ: Seq<Vec<DeclIdx>>,
    sedges: Seq<(usize, usize)>,
    ids: Seq<u32>,
    edges: Seq<crate::ir::IREdge>,
    n: nat,
)
    requires
        crate::kernel_plan::successors_in_range(n, succ),
        forall|a: int, k: int| 0 <= a < n && 0 <= k < succ[a]@.len() ==> edge_recorded(sedges, a, (#[trigger] succ[a]@[k]).0 as int),
        sedges_from_body(sedges, ids, edges),
        crate::ir_graph::ir_acyclic(edges),
    ensures
        crate::kernel_plan::is_acyclic(succ),
{
    assert forall|u: int, v: int| #[trigger] crate::kernel_plan::is_edge(succ, u, v) implies !crate::kernel_plan::reaches(succ, v, u) by {
        if crate::kernel_plan::reaches(succ, v, u) {
            let p = choose|p: Seq<int>| #[trigger] crate::kernel_plan::is_walk(succ, p) && p[0] == v && p.last() == u;
            let w = seq![ids[u]] + p.map_values(|x: int| ids[x]);
            assert forall|t: int| 0 <= t < w.len() - 1 implies crate::ir_graph::ir_edge(edges, #[trigger] w[t], w[t + 1]) by {
                if t == 0 {
                    lemma_succ_edge_is_body_edge(succ, sedges, ids, edges, n, u, v);
                    assert(w[1] == ids[p[0]]);
                } else {
                    assert(crate::kernel_plan::is_edge(succ, p[t - 1], p[t]));
                    lemma_succ_edge_is_body_edge(succ, sedges, ids, edges, n, p[t - 1], p[t]);
                    assert(w[t] == ids[p[t - 1]] && w[t + 1] == ids[p[t]]);
                }
            }
            assert(crate::ir_graph::is_ir_walk(edges, w));
            assert(w.last() == ids[p.last()]);
        }
    }
}

/// A body node that a kernel cannot hold: a macro reference, or a template
/// on a structural param.
pub open spec fn unfit_for_kernel(node: IRNode) -> bool {
    node.kind != IRNodeKind::Leaf || first_structural(node.params@) >= 0
}

/// Each of the first `k` plan nodes holds, in the input list it addresses,
/// every contribution recorded for it.
#[verifier::opaque]
pub open spec fn inputs_complete(
    nodes: Seq<PlanNode>,
    contribs: Seq<(usize, usize, Draft)>,
    bases: Seq<u32>,
    pos: Seq<usize>,
    order: Seq<DeclIdx>,
    k: int,
) -> bool {
    forall|j: int, c: int|
        0 <= j < k && 0 <= c < contribs.len() && (#[trigger] contribs[c]).0 == order[j].0
            && contribs[c].1 < (#[trigger] nodes[j]).inputs@.len() ==> exists|e: int|
            0 <= e < nodes[j].inputs@[contribs[c].1 as int]@.len()
                && nodes[j].inputs@[contribs[c].1 as int]@[e] == realized(contribs[c].2, bases, pos, order[j].0 as int)
}

/// The source and sink ports an edge's pairing joins are port numbers.
proof fn lemma_edge_feeds_ports(m: IRMacro, ports: Seq<Ports>, i: int, t: int, s: int, sp: int, d: int, q: int)
    requires
        edge_feeds(m, ports, i, t, s, sp, d, q),
    ensures
        0 <= sp <= usize::MAX,
        0 <= q <= usize::MAX,
        0 <= s < ports.len(),
        0 <= d < ports.len(),
{
    reveal(edge_feeds);
}

/// Every port pair of every body edge is read by the assembled plan, given
/// that every pair was recorded and every recorded contribution was placed
/// in its node's input list.
proof fn lemma_edges_all_read(
    p: KernelPlan,
    m: IRMacro,
    ports: Seq<Ports>,
    contribs: Seq<(usize, usize, Draft)>,
    bases: Seq<u32>,
    pos: Seq<usize>,
    order: Seq<DeclIdx>,
)
    requires
        order.len() == p.nodes@.len(),
        ports.len() == p.nodes@.len(),
        bases.len() == p.nodes@.len(),
        forall|j: int| 0 <= j < p.nodes@.len() ==> (#[trigger] p.nodes@[j]).slot_base.0 == bases[order[j].0 as int],
        forall|j: int| 0 <= j < p.nodes@.len() ==> (#[trigger] p.nodes@[j]).inputs@.len() == ports[order[j].0 as int].audio_in@.len(),
        edges_contributed(contribs, m, ports, m.body.edge_list().len() as int),
        contribs_ok(contribs, ports, m.virtual_input_map@.len() as nat),
        inputs_complete(p.nodes@, contribs, bases, pos, order, p.nodes@.len() as int),
    ensures
        edges_all_read(p, m, ports, order),
{
    reveal(inputs_complete);
    assert forall|k: int, j: int, i: int, t: int, sp: int, q: int|
        0 <= k < p.nodes@.len() && 0 <= j < p.nodes@.len()
            && #[trigger] edge_feeds(m, ports, i, t, order[j].0 as int, sp, order[k].0 as int, q) implies {
            &&& 0 <= q < p.nodes@[k].inputs@.len()
            &&& exists|e: int|
                0 <= e < p.nodes@[k].inputs@[q]@.len() && (#[trigger] p.nodes@[k].inputs@[q]@[e]) is Interior
                    && p.nodes@[k].inputs@[q]@[e]->slot.0 == ((p.nodes@[j].slot_base.0 + sp) as u32)
        } by {
        lemma_edge_feeds_ports(m, ports, i, t, order[j].0 as int, sp, order[k].0 as int, q);
        assert(0 <= i < m.body.edge_list().len()) by {
            reveal(edge_feeds);
        }
        let ci = choose|ci: int| 0 <= ci < contribs.len() && #[trigger] contribs[ci]
            == (order[k].0 as int as usize, q as usize, Draft::Interior(order[j].0 as int as usize, sp as usize));
        assert(contribs[ci].1 < ports[contribs[ci].0 as int].audio_in@.len());
        assert(p.nodes@[k].inputs@.len() == ports[order[k].0 as int].audio_in@.len());
        let e = choose|e: int|
            0 <= e < p.nodes@[k].inputs@[contribs[ci].1 as int]@.len()
                && p.nodes@[k].inputs@[contribs[ci].1 as int]@[e] == realized(contribs[ci].2, bases, pos, order[k].0 as int);
        assert(p.nodes@[j].slot_base.0 == bases[order[j].0 as int]);
        assert(p.nodes@[k].inputs@[q]@[e] == realized(contribs[ci].2, bases, pos, order[k].0 as int));
    }
}

/// Every target port of every virtual input is read by the assembled plan,
/// given that every target port was recorded and every recorded
/// contribution was placed in its node's input list.
proof fn lemma_inputs_all_read(
    p: KernelPlan,
    m: IRMacro,
    ports: Seq<Ports>,
    contribs: Seq<(usize, usize, Draft)>,
    bases: Seq<u32>,
    pos: Seq<usize>,
    order: Seq<DeclIdx>,
)
    requires
        order.len() == p.nodes@.len(),
        ports.len() == p.nodes@.len(),
        forall|j: int| 0 <= j < p.nodes@.len() ==> (#[trigger] p.nodes@[j]).inputs@.len() == ports[order[j].0 as int].audio_in@.len(),
        m.virtual_input_map@.len() <= u32::MAX,
        inputs_contributed(contribs, m, ports, m.virtual_input_map@.len() as int),
        contribs_ok(contribs, ports, m.virtual_input_map@.len() as nat),
        inputs_complete(p.nodes@, contribs, bases, pos, order, p.nodes@.len() as int),
    ensures
        inputs_all_read(p, m, ports, order),
{
    reveal(inputs_complete);
    assert forall|k: int, x: u32, t: int, u: int, q: int|
        0 <= k < p.nodes@.len() && #[trigger] input_feeds(m, ports, x, t, u, order[k].0 as int, q) implies {
            &&& 0 <= q < p.nodes@[k].inputs@.len()
            &&& exists|e: int| 0 <= e < p.nodes@[k].inputs@[q]@.len() && #[trigger] p.nodes@[k].inputs@[q]@[e] == PlanSrc::Exterior(x)
        } by {
        assert(x < m.virtual_input_map@.len() && 0 <= q <= usize::MAX && order[k].0 < ports.len()) by {
            reveal(input_feeds);
        }
        let ci = choose|ci: int| 0 <= ci < contribs.len() && #[trigger] contribs[ci]
            == (order[k].0 as int as usize, q as usize, Draft::Exterior(x));
        assert(contribs[ci].1 < ports[contribs[ci].0 as int].audio_in@.len());
        let e = choose|e: int|
            0 <= e < p.nodes@[k].inputs@[contribs[ci].1 as int]@.len()
                && p.nodes@[k].inputs@[contribs[ci].1 as int]@[e] == realized(contribs[ci].2, bases, pos, order[k].0 as int);
        assert(p.nodes@[k].inputs@[q]@[e] == PlanSrc::Exterior(x));
    }
}

/// An interior read of plan node `kk`'s input `q` from output `sp` of the
/// node declared at `s` follows a body edge into `kk` from the plan node
/// placed for `s`.
proof fn lemma_interior_read_follows(
    p: KernelPlan,
    m: IRMacro,
    ports: Seq<Ports>,
    bases: Seq<u32>,
    order: Seq<DeclIdx>,
    kk: int,
    q: int,
    s: int,
    sp: int,
)
    requires
        0 <= kk < p.nodes@.len(),
        0 <= s < p.nodes@.len(),
        order.len() == p.nodes@.len(),
        bases.len() == p.nodes@.len(),
        forall|j: int| 0 <= j < p.nodes@.len() ==> (#[trigger] p.nodes@[j]).slot_base.0 == bases[order[j].0 as int],
        exists|i: int, t: int| #[trigger] edge_feeds(m, ports, i, t, s, sp, order[kk].0 as int, q),
        listed(order, s),
    ensures
        exists|j: int, i: int, t: int, spp: int|
            0 <= j < p.nodes@.len() && #[trigger] edge_feeds(m, ports, i, t, order[j].0 as int, spp, order[kk].0 as int, q)
                && ((bases[s] + sp) as u32) == ((p.nodes@[j].slot_base.0 + spp) as u32),
{
    let (i, t) = choose|i: int, t: int| #[trigger] edge_feeds(m, ports, i, t, s, sp, order[kk].0 as int, q);
    let k2 = choose|k2: int| 0 <= k2 < order.len() && (#[trigger] order[k2]).0 == s;
    assert(p.nodes@[k2].slot_base.0 == bases[s]);
    assert(edge_feeds(m, ports, i, t, order[k2].0 as int, sp, order[kk].0 as int, q));
}

/// Each read of the assembled plan follows a body edge's port pairing or a
/// virtual input's target port, given that each read was realized from a
/// contribution recorded for that node and port.
proof fn lemma_reads_follow_edges(
    p: KernelPlan,
    m: IRMacro,
    ports: Seq<Ports>,
    contribs: Seq<(usize, usize, Draft)>,
    bases: Seq<u32>,
    pos: Seq<usize>,
    order: Seq<DeclIdx>,
)
    requires
        order.len() == p.nodes@.len(),
        ports.len() == p.nodes@.len(),
        bases.len() == p.nodes@.len(),
        pos.len() == p.nodes@.len(),
        m.virtual_input_map@.len() <= u32::MAX,
        forall|s: int| 0 <= s < p.nodes@.len() ==> #[trigger] listed(order, s),
        forall|j: int| 0 <= j < p.nodes@.len() ==> (#[trigger] p.nodes@[j]).slot_base.0 == bases[order[j].0 as int],
        forall|j: int, q: int, e: int|
            0 <= j < p.nodes@.len() && 0 <= q < p.nodes@[j].inputs@.len() && 0 <= e < p.nodes@[j].inputs@[q]@.len() ==> exists|c: int|
                0 <= c < contribs.len() && contribs[c].0 == order[j].0 && contribs[c].1 == q && #[trigger] p.nodes@[j].inputs@[q]@[e]
                    == realized(contribs[c].2, bases, pos, order[j].0 as int),
        contribs_ok(contribs, ports, m.virtual_input_map@.len() as nat),
        contribs_along_edges(contribs, m, ports),
        contribs_from_inputs(contribs, m, ports),
    ensures
        reads_follow_edges(p, m, ports, order),
{
    assert forall|kk: int, q: int, e: int|
        0 <= kk < p.nodes@.len() && 0 <= q < p.nodes@[kk].inputs@.len() && 0 <= e
            < p.nodes@[kk].inputs@[q]@.len() implies read_follows(p, m, ports, order, kk, q, #[trigger] p.nodes@[kk].inputs@[q]@[e]) by {
        let c = choose|c: int|
            0 <= c < contribs.len() && contribs[c].0 == order[kk].0 && contribs[c].1 == q && #[trigger] p.nodes@[kk].inputs@[q]@[e]
                == realized(contribs[c].2, bases, pos, order[kk].0 as int);
        match contribs[c].2 {
            Draft::Interior(s, sp) => {
                assert(contribs[c].2 == Draft::Interior(s, sp));
                assert(s < ports.len());
                assert(listed(order, s as int));
                lemma_interior_read_follows(p, m, ports, bases, order, kk, q, s as int, sp as int);
                let entry = p.nodes@[kk].inputs@[q]@[e];
                assert(entry == PlanSrc::Interior {
                    slot: ValueSlot(((bases[s as int] + sp) as u32)),
                    delayed: pos[s as int] >= pos[order[kk].0 as int],
                });
                let slot = entry->slot;
                assert(slot.0 == ((bases[s as int] + sp) as u32));
                assert(exists|j: int, i: int, t: int, spp: int|
                    0 <= j < p.nodes@.len() && #[trigger] edge_feeds(m, ports, i, t, order[j].0 as int, spp, order[kk].0 as int, q)
                        && slot.0 == ((p.nodes@[j].slot_base.0 + spp) as u32));
                assert(read_follows(p, m, ports, order, kk, q, entry));
            },
            Draft::Exterior(x) => {
                assert(contribs[c].2 == Draft::Exterior(x));
                assert(p.nodes@[kk].inputs@[q]@[e] == PlanSrc::Exterior(x));
                assert(exists|t: int, u: int| #[trigger] input_feeds(m, ports, x, t, u, contribs[c].0 as int, contribs[c].1 as int));
                assert(exists|t: int, u: int| #[trigger] input_feeds(m, ports, x, t, u, order[kk].0 as int, q));
                let (t0, u0) = choose|t: int, u: int| #[trigger] input_feeds(m, ports, x, t, u, order[kk].0 as int, q);
                assert(input_feeds(m, ports, x, t0, u0, order[kk].0 as int, q));
                let src = PlanSrc::Exterior(x);
                assert(src is Exterior && src->Exterior_0 == x);
                assert(read_follows(p, m, ports, order, kk, q, src) == (exists|t: int, u: int| #[trigger] input_feeds(m, ports, x, t, u, order[kk].0 as int, q)));
                assert(read_follows(p, m, ports, order, kk, q, PlanSrc::Exterior(x)));
            },
        }
    }
}

/// The plan for `m` given each body node's port layout `ports` and
/// substituted params `params` (both in declaration order), the template
/// bindings recorded from the body, the resolved kernel params, the
/// instantiation salt and the widest exterior frame the host supports.
pub fn assemble_plan(
    m: &IRMacro,
    ports: &Vec<Ports>,
    params: Vec<Object>,
    bindings: &Vec<(String, ParamTarget)>,
    resolved: &Object,
    salt: &str,
    max_frame_ports: usize,
) -> (r: Result<KernelPlan, ValidationError>)
    requires
        macro_joined(*m),
        ports@.len() == m.body.entries().len(),
        params@.len() == m.body.entries().len(),
        usable_ports(ports@),
        max_frame_ports <= u32::MAX,
    ensures
        r matches Ok(p) ==> {
            &&& plan_shape(p, *m, ports@, params@, salt@)
            &&& reads_resolved(p)
            &&& params_recorded(p, *m, *resolved, binding_view(bindings@))
        },
        m.virtual_input_map@.len() > max_frame_ports || ports@[key_position(
            m.body.entries(),
            m.sink.0,
        )->0].audio_out@.len() > max_frame_ports ==> r is Err,
        crate::ir_graph::ir_acyclic(m.body.edge_list()) ==> (r matches Ok(p) ==> no_delayed_reads(p)),
{
    let n = m.body.node_count();
    let ids = collect_ids(&m.body);
    let (bases, total_slots) = slot_bases(ports);
    let mut contribs: Vec<(usize, usize, Draft)> = Vec::new();
    let mut sedges: Vec<(usize, usize)> = Vec::new();
    match resolve_edges(m, &ids, ports, &mut contribs, &mut sedges) {
        Ok(()) => {},
        Err(e) => return Err(e),
    }
    match resolve_exterior(m, &ids, ports, &mut contribs, Ghost(sedges@)) {
        Ok(()) => {},
        Err(e) => return Err(e),
    }
    let succ = successor_lists(n, &sedges);
    let order = execution_order(n, succ.as_slice());
    proof {
        assert(sedges@ =~= decl_pairs(m.body.entries(), m.body.edge_list()));
        assert(body_successors(succ@, *m));
        lemma_order_covers(order@, n as nat);
        if crate::ir_graph::ir_acyclic(m.body.edge_list()) {
            lemma_acyclic_succ(succ@, sedges@, ids@, m.body.edge_list(), n as nat);
        }
    }
    let pos = positions(&order, n);
    let sd = decl_of(&ids, m.sink);
    proof {
        m.body.lemma_entry_id(sd as int);
        m.body.lemma_keys_unique();
        lemma_key_position_of(m.body.entries(), m.body.keys(), sd as int);
    }
    let n_ext = m.virtual_input_map.len();
    let sink_out = &ports[sd].audio_out;
    if n_ext > max_frame_ports || sink_out.len() > max_frame_ports {
        let mut msg = String::new();
        push_str(&mut msg, "kernel '");
        push_str(&mut msg, m.name.as_str());
        push_str(&mut msg, "' exceeds ");
        push_decimal(&mut msg, max_frame_ports);
        push_str(&mut msg, " exterior ports");
        return Err(ValidationError::UnsupportedInKernel(msg));
    }
    let mut output_slots: Vec<ValueSlot> = Vec::new();
    let mut output_names: Vec<String> = Vec::new();
    let mut i: usize = 0;
    while i < sink_out.len()
        invariant
            i <= sink_out@.len(),
            sd < bases@.len(),
            output_slots@.len() == i,
            output_names@.len() == i,
            forall|j: int| 0 <= j < i ==> (#[trigger] output_slots@[j]).0 == ((bases@[sd as int] + j) as u32),
            forall|j: int| 0 <= j < i ==> (#[trigger] output_names@[j])@ == sink_out@[j].name@,
        decreases sink_out.len() - i,
    {
        output_slots.push(ValueSlot((bases[sd] as u128 + i as u128) as u32));
        output_names.push(sink_out[i].name.clone());
        i = i + 1;
    }
    let mut input_names: Vec<String> = Vec::new();
    let mut x: usize = 0;
    while x < n_ext
        invariant
            x <= n_ext,
            n_ext == m.virtual_input_map@.len(),
            input_names@.len() == x,
            forall|j: int| 0 <= j < x ==> (#[trigger] input_names@[j])@ == m.virtual_input_map@[j].0@,
        decreases n_ext - x,
    {
        input_names.push(m.virtual_input_map[x].0.clone());
        x = x + 1;
    }
    let mut pool = params;
    let mut nodes: Vec<PlanNode> = Vec::new();
    let mut k: usize = 0;
    assert(inputs_complete(nodes@, contribs@, bases@, pos@, order@, 0)) by {
        reveal(inputs_complete);
    }
    while k < n
        invariant
            k <= n,
            n == m.body.entries().len(),
            crate::kernel_plan::is_permutation_of_nodes(order@, n as nat),
            pos@.len() == n,
            bases@.len() == n,
            ports@.len() == n,
            pool@.len() == n,
            forall|kk: int| 0 <= kk < n ==> #[trigger] pos@[order@[kk].0 as int] == kk,
            forall|d: int| 0 <= d < n ==> #[trigger] bases@[d] == (out_total(ports@.take(d)) as u32),
            forall|c: int| 0 <= c < contribs@.len() ==> match (#[trigger] contribs@[c]).2 {
                Draft::Interior(s, _) => s < pos@.len(),
                _ => true,
            },
            contribs_ok(contribs@, ports@, m.virtual_input_map@.len() as nat),
            contribs_fed(contribs@, sedges@),
            contribs_along_edges(contribs@, *m, ports@),
            contribs_from_inputs(contribs@, *m, ports@),
            edges_contributed(contribs@, *m, ports@, m.body.edge_list().len() as int),
            inputs_contributed(contribs@, *m, ports@, m.virtual_input_map@.len() as int),
            forall|i: int| 0 <= i < sedges@.len() ==> crate::kernel_plan::is_edge(succ@, (#[trigger] sedges@[i]).0 as int, sedges@[i].1 as int),
            crate::ir_graph::ir_acyclic(m.body.edge_list()) ==> crate::kernel_plan::sources_run_first(order@, succ@),
            m.virtual_input_map@.len() <= max_frame_ports <= u32::MAX,
            input_names@.len() == m.virtual_input_map@.len(),
            forall|d: int| 0 <= d < n && (forall|j: int| 0 <= j < k ==> order@[j].0 != d) ==> #[trigger] pool@[d] == params@[d],
            nodes@.len() == k,
            forall|j: int| 0 <= j < k ==> node_placed(
                #[trigger] nodes@[j],
                m.body.entries()[order@[j].0 as int].1,
                order@[j].0 as int,
                ports@,
                params@[order@[j].0 as int],
                salt@,
            ),
            forall|j: int, q: int, e: int|
                0 <= j < k && 0 <= q < nodes@[j].inputs@.len() && 0 <= e < nodes@[j].inputs@[q]@.len() ==> exists|c: int|
                    0 <= c < contribs@.len() && contribs@[c].0 == order@[j].0 && contribs@[c].1 == q && #[trigger] nodes@[j].inputs@[q]@[e]
                        == realized(contribs@[c].2, bases@, pos@, order@[j].0 as int),
            inputs_complete(nodes@, contribs@, bases@, pos@, order@, k as int),
        decreases n - k,
    {
        let d = order[k].0;
        proof {
            assert forall|j: int| 0 <= j < k implies order@[j].0 != d by {
                assert(order@[j] != order@[k as int]);
            }
        }
        let obj = pool.remove(d);
        pool.insert(d, Object::new());
        let node = m.body.node_at(d);
        let seed = identity_seed(salt, node.alias.as_str());
        let inputs = build_inputs(&contribs, d, ports[d].audio_in.len(), &bases, &pos);
        let pn = PlanNode {
            alias: node.alias.clone(),
            node_type: node.node_type.clone(),
            params: obj,
            identity_seed: seed,
            slot_base: ValueSlot(bases[d]),
            n_out: ports[d].audio_out.len(),
            inputs,
        };
        let ghost before = nodes@;
        let ghost old_pool = pool@;
        nodes.push(pn);
        proof {
            assert forall|j: int| 0 <= j < k + 1 implies node_placed(
                #[trigger] nodes@[j],
                m.body.entries()[order@[j].0 as int].1,
                order@[j].0 as int,
                ports@,
                params@[order@[j].0 as int],
                salt@,
            ) by {
                if j < k {
                    assert(nodes@[j] == before[j]);
                }
            }
            assert forall|j: int, q: int, e: int|
                0 <= j < k + 1 && 0 <= q < nodes@[j].inputs@.len() && 0 <= e < nodes@[j].inputs@[q]@.len() implies exists|c: int|
                    0 <= c < contribs@.len() && contribs@[c].0 == order@[j].0 && contribs@[c].1 == q && #[trigger] nodes@[j].inputs@[q]@[e]
                        == realized(contribs@[c].2, bases@, pos@, order@[j].0 as int) by {
                if j < k {
                    assert(nodes@[j] == before[j]);
                } else {
                    assert(nodes@[j] == pn);
                }
            }
            assert(inputs_complete(nodes@, contribs@, bases@, pos@, order@, k + 1)) by {
                reveal(inputs_complete);
                assert forall|j: int, c: int|
                    0 <= j < k + 1 && 0 <= c < contribs@.len() && (#[trigger] contribs@[c]).0 == order@[j].0
                        && contribs@[c].1 < (#[trigger] nodes@[j]).inputs@.len() implies exists|e: int|
                        0 <= e < nodes@[j].inputs@[contribs@[c].1 as int]@.len()
                            && nodes@[j].inputs@[contribs@[c].1 as int]@[e] == realized(contribs@[c].2, bases@, pos@, order@[j].0 as int) by {
                    if j < k {
                        assert(nodes@[j] == before[j]);
                    } else {
                        assert(nodes@[j] == pn);
                    }
                }
            }
            assert forall|dd: int| 0 <= dd < n && (forall|j: int| 0 <= j < k + 1 ==> order@[j].0 != dd) implies #[trigger] pool@[dd] == params@[dd] by {
                assert(order@[k as int].0 != dd);
            }
        }
        k = k + 1;
    }
    let plan_params_list = plan_params(m, resolved, bindings);
    let p = KernelPlan {
        name: m.name.clone(),
        nodes,
        input_names,
        output_slots,
        output_names,
        total_slots,
        params: plan_params_list,
    };
    proof {
        if crate::ir_graph::ir_acyclic(m.body.edge_list()) {
            assert forall|kk: int, q: int, e: int|
                0 <= kk < p.nodes@.len() && 0 <= q < p.nodes@[kk].inputs@.len() && 0 <= e
                    < p.nodes@[kk].inputs@[q]@.len() implies match #[trigger] p.nodes@[kk].inputs@[q]@[e] {
                    PlanSrc::Interior { delayed, .. } => !delayed,
                    PlanSrc::Exterior(_) => true,
                } by {
                let c = choose|c: int|
                    0 <= c < contribs@.len() && contribs@[c].0 == order@[kk].0 && contribs@[c].1 == q && #[trigger] p.nodes@[kk].inputs@[q]@[e]
                        == realized(contribs@[c].2, bases@, pos@, order@[kk].0 as int);
                match contribs@[c].2 {
                    Draft::Interior(s, sp) => {
                        assert(contribs@[c].2 == Draft::Interior(s, sp));
                        assert(edge_recorded(sedges@, s as int, contribs@[c].0 as int));
                        let i = choose|i: int| 0 <= i < sedges@.len() && (#[trigger] sedges@[i]).0 == s && sedges@[i].1 == contribs@[c].0;
                        assert(crate::kernel_plan::is_edge(succ@, s as int, order@[kk].0 as int));
                        assert(listed(order@, s as int));
                        let k2 = choose|k2: int| 0 <= k2 < order@.len() && (#[trigger] order@[k2]).0 == s;
                        assert(crate::kernel_plan::is_edge(succ@, order@[k2].0 as int, order@[kk].0 as int));
                        assert(k2 < kk);
                        assert(pos@[order@[k2].0 as int] == k2);
                        assert(pos@[order@[kk].0 as int] == kk);
                    },
                    Draft::Exterior(_) => {},
                }
            }
        }
        assert(crate::kernel_plan::is_permutation_of_nodes(order@, n as nat));
        assert(reads_follow_edges(p, *m, ports@, order@) && edges_all_read(p, *m, ports@, order@)
            && inputs_all_read(p, *m, ports@, order@)) by {
            assert forall|j: int| 0 <= j < p.nodes@.len() implies (#[trigger] p.nodes@[j]).slot_base.0 == bases@[order@[j].0 as int]
                && p.nodes@[j].inputs@.len() == ports@[order@[j].0 as int].audio_in@.len() by {
                assert(node_placed(
                    p.nodes@[j],
                    m.body.entries()[order@[j].0 as int].1,
                    order@[j].0 as int,
                    ports@,
                    params@[order@[j].0 as int],
                    salt@,
                ));
            }
            lemma_reads_follow_edges(p, *m, ports@, contribs@, bases@, pos@, order@);
            lemma_edges_all_read(p, *m, ports@, contribs@, bases@, pos@, order@);
            lemma_inputs_all_read(p, *m, ports@, contribs@, bases@, pos@, order@);
        }
        assert(reads_follow_edges(p, *m, ports@, order@));
        assert forall|kk: int, q: int, e: int|
            0 <= kk < p.nodes@.len() && 0 <= q < p.nodes@[kk].inputs@.len() && 0 <= e
                < p.nodes@[kk].inputs@[q]@.len() implies match #[trigger] p.nodes@[kk].inputs@[q]@[e] {
                PlanSrc::Interior { slot, delayed } => exists|j: int, sp: int|
                    0 <= j < p.nodes@.len() && #[trigger] owns_slot(p.nodes@[j], slot.0, sp) && (
                    delayed <==> j >= kk),
                PlanSrc::Exterior(x) => x < p.input_names@.len(),
            } by {
            let c = choose|c: int|
                0 <= c < contribs@.len() && contribs@[c].0 == order@[kk].0 && contribs@[c].1 == q && #[trigger] p.nodes@[kk].inputs@[q]@[e]
                    == realized(contribs@[c].2, bases@, pos@, order@[kk].0 as int);
            match contribs@[c].2 {
                Draft::Interior(s, sp) => {
                    assert(contribs@[c].2 == Draft::Interior(s, sp));
                    assert(s < n && sp < ports@[s as int].audio_out@.len());
                    assert(listed(order@, s as int));
                    let k2 = choose|k2: int| 0 <= k2 < order@.len() && (#[trigger] order@[k2]).0 == s;
                    assert(pos@[order@[k2].0 as int] == k2);
                    assert(pos@[order@[kk].0 as int] == kk);
                    assert(node_placed(
                        p.nodes@[k2],
                        m.body.entries()[order@[k2].0 as int].1,
                        order@[k2].0 as int,
                        ports@,
                        params@[order@[k2].0 as int],
                        salt@,
                    ));
                    assert(bases@[s as int] == (out_total(ports@.take(s as int)) as u32));
                    assert(owns_slot(p.nodes@[k2], ((bases@[s as int] + sp) as u32), sp as int));
                    let entry = p.nodes@[kk].inputs@[q]@[e];
                    assert(entry == PlanSrc::Interior {
                        slot: ValueSlot(((bases@[s as int] + sp) as u32)),
                        delayed: pos@[s as int] >= pos@[order@[kk].0 as int],
                    });
                    assert(0 <= k2 < p.nodes@.len() && owns_slot(p.nodes@[k2], entry->slot.0, sp as int) && (entry->delayed <==> k2 >= kk));
                },
                Draft::Exterior(x) => {
                    assert(contribs@[c].2 == Draft::Exterior(x));
                    assert(x < m.virtual_input_map@.len());
                },
            }
        }
    }
    Ok(p)
}

pub(crate) proof fn lemma_key_position_of(entries: Seq<(u32, IRNode)>, keys: Seq<u32>, d: int)
    requires
        keys == entries.map_values(|e: (u32, IRNode)| e.0),
        keys_unique(entries),
        0 <= d < entries.len(),
    ensures
        key_position(entries, entries[d].0) == Some(d),
{
    assert(entries[d].0 == entries[d].0);
    let w = choose|i: int| 0 <= i < entries.len() && (#[trigger] entries[i]).0 == entries[d].0;
    if w != d {
        assert(entries[w].0 != entries[d].0);
    }
}


/// Resolve kernel `ir_macro` plus one instantiation's params into a
/// backend-independent plan.
///
/// Instantiation params override the kernel's declared defaults. Each body
/// node, in declaration order, must be a leaf with no template on a
/// structural param; its templates are recorded and substituted, and
/// `oracle` reports its port layout. `instance_salt` feeds each node's
/// identity seed, and `max_frame_ports` is the widest exterior frame the
/// host supports. A layout whose port numbers fall outside their own list,
/// or whose outputs are too many to count, is refused with
/// `InvalidParameter`.
pub fn resolve_plan<O: PortOracle>(
    ir_macro: &IRMacro,
    instance_params: &Object,
    instance_salt: &str,
    max_frame_ports: usize,
    oracle: &mut O,
) -> (r: Result<KernelPlan, ValidationError>)
    requires
        macro_joined(*ir_macro),
        max_frame_ports <= u32::MAX,
    ensures
        r matches Ok(p) ==> {
            &&& exists|ports: Seq<Ports>, params: Seq<Object>| #[trigger] plan_shape(p, *ir_macro, ports, params, instance_salt@)
            &&& reads_resolved(p)
            &&& exists|resolved: Object| #[trigger] params_recorded(p, *ir_macro, resolved, all_bindings(ir_macro.body.entries()))
        },
        (exists|d: int| 0 <= d < ir_macro.body.entries().len() && #[trigger] unfit_for_kernel(ir_macro.body.entries()[d].1)) ==> r is Err,
        crate::ir_graph::ir_acyclic(ir_macro.body.edge_list()) ==> (r matches Ok(p) ==> no_delayed_reads(p)),
{
    let resolved = match &ir_macro.default_params {
        Some(d) => d.overridden_by(instance_params),
        None => Object::new().overridden_by(instance_params),
    };
    let n = ir_macro.body.node_count();
    let mut bindings: Vec<(String, ParamTarget)> = Vec::new();
    let mut ports_list: Vec<Ports> = Vec::new();
    let mut params_list: Vec<Object> = Vec::new();
    let mut k: usize = 0;
    while k < n
        invariant
            k <= n,
            n == ir_macro.body.entries().len(),
            ports_list@.len() == k,
            params_list@.len() == k,
            forall|j: int| 0 <= j < k ==> !#[trigger] unfit_for_kernel(ir_macro.body.entries()[j].1),
            binding_view(bindings@) == all_bindings(ir_macro.body.entries().take(k as int)),
        decreases n - k,
    {
        let node = ir_macro.body.node_at(k);
        let ghost before = binding_view(bindings@);
        let params = match prepare_node(&ir_macro.name, node, &resolved, &mut bindings) {
            Ok(p) => p,
            Err(e) => return Err(e),
        };
        proof {
            let e = ir_macro.body.entries();
            assert(e.take(k as int + 1).drop_last() =~= e.take(k as int));
            assert(e.take(k as int + 1).last() == e[k as int]);
        }
        let ports = match oracle.ports_for(node.node_type.as_str(), &params) {
            Ok(p) => p,
            Err(e) => return Err(e),
        };
        ports_list.push(ports);
        params_list.push(params);
        k = k + 1;
    }
    assert(ir_macro.body.entries().take(n as int) =~= ir_macro.body.entries());
    if !ports_usable(&ports_list) {
        let mut msg = String::new();
        push_str(&mut msg, "kernel '");
        push_str(&mut msg, ir_macro.name.as_str());
        push_str(&mut msg, "': a node reported ports numbered outside their own list");
        return Err(ValidationError::InvalidParameter(msg));
    }
    let ghost ports_seen = ports_list@;
    let ghost params_seen = params_list@;
    let r = assemble_plan(
        ir_macro,
        &ports_list,
        params_list,
        &bindings,
        &resolved,
        instance_salt,
        max_frame_ports,
    );
    proof {
        if r is Ok {
            let p = r->Ok_0;
            assert(plan_shape(p, *ir_macro, ports_seen, params_seen, instance_salt@));
            assert(params_recorded(p, *ir_macro, resolved, all_bindings(ir_macro.body.entries())));
        }
    }
    r
}

/// Over a prefix holding a structural template, `first_structural` agrees
/// with the whole list.
proof fn lemma_first_structural_prefix(s: Seq<(String, Value)>, n: int)
    requires
        0 <= n <= s.len(),
    ensures
        first_structural(s.take(n)) >= 0 ==> first_structural(s) == first_structural(s.take(n)),
        first_structural(s.take(n)) == -1 ==> (first_structural(s) == -1 || first_structural(s) >= n),
    decreases s.len() - n,
{
    if n < s.len() {
        lemma_first_structural_prefix(s, n + 1);
        assert(s.take(n + 1).drop_last() == s.take(n));
    } else {
        assert(s.take(n) == s);
    }
}

} // verus!
