//! Backend-independent pieces of kernel resolution: value slots, where each
//! summed input comes from, per-node identity seeds, port resolution and
//! the execution order of a possibly cyclic kernel body.
use crate::error::ValidationError;
use crate::ir::Port;
use crate::ports::PortMeta;
use crate::text::{decimal, push_decimal, push_str, str_eq};
use vstd::prelude::*;
use vstd::string::StringSliceAdditionalSpecFns;

verus! {

/// A slot in the kernel's value table, one per interior output port.
/// Slots are assigned in declaration order and never move.
#[derive(Clone, Copy, Debug, PartialEq, Eq)]
pub struct ValueSlot(pub u32);

/// Where one summed contribution to an input port comes from.
#[derive(Clone, Copy, Debug, PartialEq)]
pub enum PlanSrc {
    /// The kernel's exterior input frame, by index.
    Exterior(u32),
    /// Another interior node's output slot. `delayed` is true when the read
    /// crosses a back edge and so sees the source's previous-tick value.
    Interior { slot: ValueSlot, delayed: bool },
}

/// One interior node param fed by a kernel-level param.
#[derive(Clone, Debug, PartialEq)]
pub struct ParamTarget {
    /// Alias of the interior node.
    pub node_alias: String,
    /// The node's own param name.
    pub node_param: String,
}

/// FNV-1a offset basis.
pub const FNV_OFFSET: u32 = 0x811C_9DC5;

/// FNV-1a prime.
pub const FNV_PRIME: u32 = 0x0100_0193;

/// FNV-1a over `bytes`, starting from the running hash `h`.
pub open spec fn fnv1a_from(h: u32, bytes: Seq<u8>) -> u32
    decreases bytes.len(),
{
    if bytes.len() == 0 {
        h
    } else {
        (fnv1a_from(h, bytes.drop_last()) ^ (bytes.last() as u32)).wrapping_mul(FNV_PRIME)
    }
}

/// The seed for the node `alias` in the instantiation `salt`: FNV-1a over
/// the bytes of `salt`, then `::`, then `alias`, with the low bit forced on.
pub open spec fn spec_identity_seed(salt: Seq<u8>, alias: Seq<u8>) -> u32 {
    fnv1a_from(fnv1a_from(fnv1a_from(FNV_OFFSET, salt), seq![58u8, 58u8]), alias) | 1u32
}

fn fnv1a_extend(h: u32, bytes: &[u8]) -> (r: u32)
    ensures
        r == fnv1a_from(h, bytes@),
{
    let mut hash = h;
    let mut k: usize = 0;
    while k < bytes.len()
        invariant
            k <= bytes@.len(),
            hash == fnv1a_from(h, bytes@.take(k as int)),
        decreases bytes@.len() - k,
    {
        assert(bytes@.take((k + 1) as int).drop_last() =~= bytes@.take(k as int));
        hash = (hash ^ (bytes[k] as u32)).wrapping_mul(FNV_PRIME);
        k = k + 1;
    }
    assert(bytes@.take(k as int) =~= bytes@);
    hash
}

/// Derive a stable RNG seed for one node from its instantiation salt and
/// alias (FNV-1a, so that it agrees across compilations). The result is odd,
/// so it is never the zero state that stalls xorshift generators.
pub fn identity_seed(salt: &str, alias: &str) -> (r: u32)
    ensures
        r == spec_identity_seed(salt.spec_bytes(), alias.spec_bytes()),
        r % 2 == 1,
{
    let sep: [u8; 2] = [58u8, 58u8];
    let h = fnv1a_extend(FNV_OFFSET, salt.as_bytes());
    let h = fnv1a_extend(h, sep.as_slice());
    assert(sep@ =~= seq![58u8, 58u8]);
    let h = fnv1a_extend(h, alias.as_bytes());
    let r = h | 1;
    assert(r % 2 == 1) by (bit_vector)
        requires
            r == h | 1u32,
    ;
    r
}

/// The error for a construct kernels do not support.
pub fn unsupported(what: String) -> (e: ValidationError)
    ensures
        e == ValidationError::UnsupportedInKernel(what),
{
    ValidationError::UnsupportedInKernel(what)
}

/// The message for an out-of-range port index.
pub open spec fn index_error_text(i: nat, alias: Seq<char>, n: nat) -> Seq<char> {
    "kernel: port index "@ + decimal(i) + " out of range for '"@ + alias + "' ("@ + decimal(n)
        + " ports)"@
}

/// The message for a port name that no port carries.
pub open spec fn name_error_text(name: Seq<char>, alias: Seq<char>) -> Seq<char> {
    "kernel: no port named '"@ + name + "' on '"@ + alias + "'"@
}

/// The message for a port slice or stride inside a kernel.
pub open spec fn slice_error_text(alias: Seq<char>) -> Seq<char> {
    "port slices/strides on '"@ + alias + "'"@
}

/// Index of the first port named `name`, if any.
pub open spec fn first_named(ports: Seq<PortMeta>, name: Seq<char>) -> Option<int> {
    if exists|k: int| 0 <= k < ports.len() && (#[trigger] ports[k]).name@ == name {
        Some(
            choose|k: int|
                0 <= k < ports.len() && (#[trigger] ports[k]).name@ == name && forall|j: int|
                    0 <= j < k ==> (#[trigger] ports[j]).name@ != name,
        )
    } else {
        None
    }
}

/// Resolve a port reference against a node's port list, yielding the port
/// indices it names. An omitted port expands to every port.
pub fn resolve_port(port: &Port, ports: &[PortMeta], node_alias: &str) -> (r: Result<
    Vec<usize>,
    ValidationError,
>)
    ensures
        match *port {
            Port::Omitted => r matches Ok(v) && v@ == Seq::new(ports@.len(), |k: int| k as usize),
            Port::Index(i) => if i >= ports@.len() {
                r matches Err(ValidationError::InvalidParameter(m)) && m@ == index_error_text(
                    i as nat,
                    node_alias@,
                    ports@.len(),
                )
            } else {
                r matches Ok(v) && v@ == seq![i]
            },
            Port::Named(name) => match first_named(ports@, name@) {
                Some(k) => r matches Ok(v) && v@ == seq![ports@[k].index],
                None => r matches Err(ValidationError::InvalidParameter(m)) && m@
                    == name_error_text(name@, node_alias@),
            },
            _ => r matches Err(ValidationError::UnsupportedInKernel(m)) && m@ == slice_error_text(
                node_alias@,
            ),
        },
{
    match port {
        Port::Omitted => {
            let mut v: Vec<usize> = Vec::new();
            let mut k: usize = 0;
            while k < ports.len()
                invariant
                    k <= ports@.len(),
                    v@ == Seq::new(k as nat, |j: int| j as usize),
                decreases ports@.len() - k,
            {
                v.push(k);
                k = k + 1;
                assert(v@ =~= Seq::new(k as nat, |j: int| j as usize));
            }
            Ok(v)
        },
        Port::Index(i) => {
            if *i >= ports.len() {
                let mut m = String::new();
                push_str(&mut m, "kernel: port index ");
                push_decimal(&mut m, *i);
                push_str(&mut m, " out of range for '");
                push_str(&mut m, node_alias);
                push_str(&mut m, "' (");
                push_decimal(&mut m, ports.len());
                push_str(&mut m, " ports)");
                assert(m@ =~= index_error_text(*i as nat, node_alias@, ports@.len()));
                return Err(ValidationError::InvalidParameter(m));
            }
            let mut v: Vec<usize> = Vec::new();
            v.push(*i);
            assert(v@ =~= seq![*i]);
            Ok(v)
        },
        Port::Named(name) => {
            let mut k: usize = 0;
            while k < ports.len()
                invariant
                    *port == Port::Named(*name),
                    k <= ports@.len(),
                    forall|j: int| 0 <= j < k ==> (#[trigger] ports@[j]).name@ != name@,
                decreases ports@.len() - k,
            {
                if str_eq(ports[k].name.as_str(), name.as_str()) {
                    let mut v: Vec<usize> = Vec::new();
                    v.push(ports[k].index);
                    proof {
                        let w = first_named(ports@, name@);
                        assert(ports@[k as int].name@ == name@);
                        assert(w is Some);
                        let kk = w->Some_0;
                        if kk < k {
                        } else if kk > k {
                            assert(ports@[k as int].name@ != name@);
                        }
                        assert(v@ =~= seq![ports@[k as int].index]);
                    }
                    return Ok(v);
                }
                k = k + 1;
            }
            let mut m = String::new();
            push_str(&mut m, "kernel: no port named '");
            push_str(&mut m, name.as_str());
            push_str(&mut m, "' on '");
            push_str(&mut m, node_alias);
            push_str(&mut m, "'");
            assert(m@ =~= name_error_text(name@, node_alias@));
            Err(ValidationError::InvalidParameter(m))
        },
        _ => {
            let mut m = String::new();
            push_str(&mut m, "port slices/strides on '");
            push_str(&mut m, node_alias);
            push_str(&mut m, "'");
            assert(m@ =~= slice_error_text(node_alias@));
            Err(unsupported(m))
        },
    }
}

} // verus!

verus! {

/// A node's position in kernel-body declaration order.
#[derive(Clone, Copy, Debug, PartialEq, Eq, Hash)]
pub struct DeclIdx(pub usize);

/// DFS visit state: the three colors of an edge-classifying search.
#[derive(Clone, Copy, Debug, PartialEq, Eq, Structural)]
pub enum VisitState {
    /// Not reached yet.
    Unvisited,
    /// On the current DFS path; an edge into such a node is a back edge.
    OnPath,
    /// Fully explored.
    Finished,
}

/// Every successor index names one of the `n` nodes.
pub open spec fn successors_in_range(n: nat, successors: Seq<Vec<DeclIdx>>) -> bool {
    &&& successors.len() == n
    &&& forall|u: int, k: int|
        0 <= u < n && 0 <= k < successors[u]@.len() ==> (#[trigger] successors[u]@[k]).0 < n
}

/// `order` lists each of the nodes `0..n` exactly once.
pub open spec fn is_permutation_of_nodes(order: Seq<DeclIdx>, n: nat) -> bool {
    &&& order.len() == n
    &&& forall|i: int| 0 <= i < order.len() ==> (#[trigger] order[i]).0 < n
    &&& forall|i: int, j: int| 0 <= i < order.len() && 0 <= j < order.len() && i != j ==> #[trigger] order[i]
        != #[trigger] order[j]
}

/// `successors` holds an edge from node `from` to node `to`.
pub open spec fn is_edge(successors: Seq<Vec<DeclIdx>>, from: int, to: int) -> bool {
    &&& 0 <= from < successors.len()
    &&& exists|k: int| 0 <= k < successors[from]@.len() && (#[trigger] successors[from]@[k]).0 == to
}

/// `p` is a nonempty walk along edges of `successors`.
pub open spec fn is_walk(successors: Seq<Vec<DeclIdx>>, p: Seq<int>) -> bool {
    &&& p.len() > 0
    &&& forall|t: int| 0 <= t < p.len() - 1 ==> is_edge(successors, #[trigger] p[t], p[t + 1])
}

/// Node `to` can be reached from node `from`; every node reaches itself.
pub open spec fn reaches(successors: Seq<Vec<DeclIdx>>, from: int, to: int) -> bool {
    exists|p: Seq<int>| #[trigger] is_walk(successors, p) && p[0] == from && p.last() == to
}

/// No edge closes a cycle.
pub open spec fn is_acyclic(successors: Seq<Vec<DeclIdx>>) -> bool {
    forall|u: int, v: int| #[trigger] is_edge(successors, u, v) ==> !reaches(successors, v, u)
}

/// Whenever a node runs no earlier than a node it feeds, that edge closes a
/// cycle: the fed node reaches the feeding one.
pub open spec fn late_edges_close_cycles(order: Seq<DeclIdx>, successors: Seq<Vec<DeclIdx>>) -> bool {
    forall|i: int, j: int|
        #![trigger order[i], order[j]]
        0 <= j <= i < order.len() && is_edge(successors, order[i].0 as int, order[j].0 as int)
            ==> reaches(successors, order[j].0 as int, order[i].0 as int)
}

/// Every node runs strictly before each node it feeds.
pub open spec fn sources_run_first(order: Seq<DeclIdx>, successors: Seq<Vec<DeclIdx>>) -> bool {
    forall|i: int, j: int|
        #![trigger order[i], order[j]]
        0 <= i < order.len() && 0 <= j < order.len() && is_edge(
            successors,
            order[i].0 as int,
            order[j].0 as int,
        ) ==> i < j
}

/// Node `s` was finished at a position before `a`.
spec fn finished_before(finish: Seq<DeclIdx>, a: int, s: int) -> bool {
    exists|b: int| 0 <= b < a && (#[trigger] finish[b]).0 == s
}

/// The `k`-th edge out of the node finished at position `a` leads to a node
/// finished earlier, or closes a cycle.
spec fn edge_settled(finish: Seq<DeclIdx>, successors: Seq<Vec<DeclIdx>>, a: int, k: int) -> bool {
    let u = finish[a].0 as int;
    let s = successors[u]@[k].0 as int;
    finished_before(finish, a, s) || reaches(successors, s, u)
}

spec fn finish_edges_settled(finish: Seq<DeclIdx>, successors: Seq<Vec<DeclIdx>>) -> bool {
    forall|a: int, k: int|
        0 <= a < finish.len() && 0 <= k < successors[finish[a].0 as int]@.len()
            ==> #[trigger] edge_settled(finish, successors, a, k)
}

/// Consecutive stack entries are joined by edges.
spec fn stack_is_walk(stack: Seq<(DeclIdx, usize)>, successors: Seq<Vec<DeclIdx>>) -> bool {
    forall|j: int|
        0 < j < stack.len() ==> is_edge(
            successors,
            stack[j - 1].0.0 as int,
            (#[trigger] stack[j]).0.0 as int,
        )
}

/// The `k`-th edge out of stack entry `j` leads to a finished node or to a
/// node on the stack no higher than just above `j`.
spec fn examined_ok(
    stack: Seq<(DeclIdx, usize)>,
    state: Seq<VisitState>,
    successors: Seq<Vec<DeclIdx>>,
    j: int,
    k: int,
) -> bool {
    let s = successors[stack[j].0.0 as int]@[k].0 as int;
    state[s] == VisitState::Finished || exists|i: int|
        0 <= i <= j + 1 && i < stack.len() && (#[trigger] stack[i]).0.0 == s
}

spec fn examined_edges_ok(
    stack: Seq<(DeclIdx, usize)>,
    state: Seq<VisitState>,
    successors: Seq<Vec<DeclIdx>>,
) -> bool {
    forall|j: int, k: int|
        0 <= j < stack.len() && 0 <= k < stack[j].1 ==> #[trigger] examined_ok(
            stack,
            state,
            successors,
            j,
            k,
        )
}

/// The bottom of a stack that is a walk reaches its top.
proof fn lemma_stack_reaches(stack: Seq<(DeclIdx, usize)>, successors: Seq<Vec<DeclIdx>>, i: int)
    requires
        stack_is_walk(stack, successors),
        0 <= i < stack.len(),
    ensures
        reaches(successors, stack[i].0.0 as int, stack.last().0.0 as int),
{
    let p = Seq::new((stack.len() - i) as nat, |t: int| stack[i + t].0.0 as int);
    assert forall|t: int| 0 <= t < p.len() - 1 implies is_edge(successors, #[trigger] p[t], p[t + 1]) by {
        let j = i + t + 1;
        assert(stack[j - 1] == stack[i + t]);
        assert(is_edge(successors, stack[j - 1].0.0 as int, stack[j].0.0 as int));
    }
    assert(is_walk(successors, p));
    assert(p.last() == stack.last().0.0 as int);
}

/// Examining the next edge of the top entry keeps the search invariants.
proof fn lemma_examine(
    n: nat,
    successors: Seq<Vec<DeclIdx>>,
    old_stack: Seq<(DeclIdx, usize)>,
    old_state: Seq<VisitState>,
    next: DeclIdx,
    stack: Seq<(DeclIdx, usize)>,
    state: Seq<VisitState>,
)
    requires
        successors_in_range(n, successors),
        old_state.len() == n,
        old_stack.len() > 0,
        old_stack.last().0.0 < n,
        old_stack.last().1 < successors[old_stack.last().0.0 as int]@.len(),
        next == successors[old_stack.last().0.0 as int]@[old_stack.last().1 as int],
        stack_is_walk(old_stack, successors),
        examined_edges_ok(old_stack, old_state, successors),
        forall|j: int|
            0 <= j < old_stack.len() ==> (#[trigger] old_stack[j]).0.0 < n && old_stack[j].1
                <= successors[old_stack[j].0.0 as int]@.len(),
        forall|v: int|
            0 <= v < n && old_state[v] == VisitState::OnPath ==> exists|j: int|
                0 <= j < old_stack.len() && (#[trigger] old_stack[j]).0.0 == v,
        old_state[next.0 as int] == VisitState::Unvisited ==> state == old_state.update(
            next.0 as int,
            VisitState::OnPath,
        ) && stack == old_stack.update(
            old_stack.len() - 1,
            (old_stack.last().0, (old_stack.last().1 + 1) as usize),
        ).push((next, 0usize)),
        old_state[next.0 as int] != VisitState::Unvisited ==> state == old_state && stack
            == old_stack.update(
            old_stack.len() - 1,
            (old_stack.last().0, (old_stack.last().1 + 1) as usize),
        ),
    ensures
        stack_is_walk(stack, successors),
        examined_edges_ok(stack, state, successors),
{
    let top = old_stack.len() - 1;
    let node = old_stack[top].0;
    let c = old_stack[top].1 as int;
    assert(next.0 < n);
    assert forall|j: int| 0 < j < stack.len() implies is_edge(
        successors,
        stack[j - 1].0.0 as int,
        (#[trigger] stack[j]).0.0 as int,
    ) by {
        if j < old_stack.len() {
            assert(stack[j].0 == old_stack[j].0);
            assert(stack[j - 1].0 == old_stack[j - 1].0);
            assert(is_edge(successors, old_stack[j - 1].0.0 as int, old_stack[j].0.0 as int));
        } else {
            assert(stack[j - 1].0 == node);
            assert(successors[node.0 as int]@[c] == next);
        }
    }
    assert forall|j: int, k: int| 0 <= j < stack.len() && 0 <= k < stack[j].1 implies #[trigger] examined_ok(
        stack,
        state,
        successors,
        j,
        k,
    ) by {
        if j == top && k == c {
            let s = next.0 as int;
            if old_state[s] == VisitState::Unvisited {
                assert(stack[top + 1].0.0 == s);
            } else if old_state[s] == VisitState::OnPath {
                let i = choose|i: int| 0 <= i < old_stack.len() && (#[trigger] old_stack[i]).0.0 == s;
                assert(stack[i].0 == old_stack[i].0);
            }
        } else if j < old_stack.len() {
            assert(stack[j].0 == old_stack[j].0);
            assert(examined_ok(old_stack, old_state, successors, j, k));
            let s = successors[old_stack[j].0.0 as int]@[k].0 as int;
            assert(s < n);
            if old_state[s] != VisitState::Finished {
                let i = choose|i: int|
                    0 <= i <= j + 1 && i < old_stack.len() && (#[trigger] old_stack[i]).0.0 == s;
                assert(stack[i].0 == old_stack[i].0);
            }
        }
    }
}

/// Finishing the top entry keeps the search invariants and settles its edges.
proof fn lemma_finish(
    n: nat,
    successors: Seq<Vec<DeclIdx>>,
    old_stack: Seq<(DeclIdx, usize)>,
    old_state: Seq<VisitState>,
    old_finish: Seq<DeclIdx>,
    stack: Seq<(DeclIdx, usize)>,
    state: Seq<VisitState>,
    finish: Seq<DeclIdx>,
)
    requires
        successors_in_range(n, successors),
        old_state.len() == n,
        old_stack.len() > 0,
        old_stack.last().0.0 < n,
        old_stack.last().1 >= successors[old_stack.last().0.0 as int]@.len(),
        stack_is_walk(old_stack, successors),
        examined_edges_ok(old_stack, old_state, successors),
        finish_edges_settled(old_finish, successors),
        forall|j: int|
            0 <= j < old_stack.len() ==> (#[trigger] old_stack[j]).0.0 < n && old_stack[j].1
                <= successors[old_stack[j].0.0 as int]@.len(),
        forall|v: int|
            0 <= v < n && old_state[v] == VisitState::Finished ==> exists|k: int|
                0 <= k < old_finish.len() && (#[trigger] old_finish[k]).0 == v,
        stack == old_stack.drop_last(),
        state == old_state.update(old_stack.last().0.0 as int, VisitState::Finished),
        finish == old_finish.push(old_stack.last().0),
    ensures
        stack_is_walk(stack, successors),
        examined_edges_ok(stack, state, successors),
        finish_edges_settled(finish, successors),
{
    let top = old_stack.len() - 1;
    let node = old_stack[top].0;
    let a = old_finish.len() as int;
    assert forall|j: int| 0 < j < stack.len() implies is_edge(
        successors,
        stack[j - 1].0.0 as int,
        (#[trigger] stack[j]).0.0 as int,
    ) by {
        assert(stack[j] == old_stack[j]);
        assert(stack[j - 1] == old_stack[j - 1]);
    }
    assert forall|j: int, k: int| 0 <= j < stack.len() && 0 <= k < stack[j].1 implies #[trigger] examined_ok(
        stack,
        state,
        successors,
        j,
        k,
    ) by {
        assert(stack[j] == old_stack[j]);
        assert(examined_ok(old_stack, old_state, successors, j, k));
        let s = successors[old_stack[j].0.0 as int]@[k].0 as int;
        assert(s < n);
        if old_state[s] != VisitState::Finished {
            let i = choose|i: int|
                0 <= i <= j + 1 && i < old_stack.len() && (#[trigger] old_stack[i]).0.0 == s;
            if i < top {
                assert(stack[i] == old_stack[i]);
            } else {
                assert(s == node.0);
            }
        }
    }
    assert forall|b: int, k: int|
        0 <= b < finish.len() && 0 <= k < successors[finish[b].0 as int]@.len() implies #[trigger] edge_settled(
        finish,
        successors,
        b,
        k,
    ) by {
        let u = finish[b].0 as int;
        let s = successors[u]@[k].0 as int;
        if b < a {
            assert(finish[b] == old_finish[b]);
            assert(edge_settled(old_finish, successors, b, k));
            if finished_before(old_finish, b, s) {
                let w = choose|w: int| 0 <= w < b && (#[trigger] old_finish[w]).0 == s;
                assert(finish[w] == old_finish[w]);
            }
        } else {
            assert(u == node.0);
            assert(examined_ok(old_stack, old_state, successors, top, k));
            assert(s < n);
            if old_state[s] == VisitState::Finished {
                let w = choose|w: int| 0 <= w < old_finish.len() && (#[trigger] old_finish[w]).0 == s;
                assert(finish[w] == old_finish[w]);
                assert(finished_before(finish, b, s));
            } else {
                let i = choose|i: int|
                    0 <= i <= top + 1 && i < old_stack.len() && (#[trigger] old_stack[i]).0.0 == s;
                lemma_stack_reaches(old_stack, successors, i);
            }
        }
    }
}

/// Reversing a finishing order whose edges are all settled puts each node
/// before the nodes it feeds, except along edges that close a cycle.
proof fn lemma_reversed_finish(
    successors: Seq<Vec<DeclIdx>>,
    finish: Seq<DeclIdx>,
    order: Seq<DeclIdx>,
)
    requires
        finish_edges_settled(finish, successors),
        order.len() == finish.len(),
        forall|j: int| 0 <= j < order.len() ==> #[trigger] order[j] == finish[finish.len() - 1 - j],
        forall|k: int, l: int|
            0 <= k < finish.len() && 0 <= l < finish.len() && k != l ==> #[trigger] finish[k]
                != #[trigger] finish[l],
    ensures
        late_edges_close_cycles(order, successors),
        is_acyclic(successors) ==> sources_run_first(order, successors),
{
    let len = finish.len() as int;
    assert forall|i: int, j: int|
        #![trigger order[i], order[j]]
        0 <= j <= i < order.len() && is_edge(successors, order[i].0 as int, order[j].0 as int)
            implies reaches(successors, order[j].0 as int, order[i].0 as int) by {
        let a = len - 1 - i;
        let b = len - 1 - j;
        let u = order[i].0 as int;
        let v = order[j].0 as int;
        assert(finish[a] == order[i]);
        assert(finish[b] == order[j]);
        let k = choose|k: int| 0 <= k < successors[u]@.len() && (#[trigger] successors[u]@[k]).0 == v;
        assert(edge_settled(finish, successors, a, k));
        if finished_before(finish, a, v) {
            let w = choose|w: int| 0 <= w < a && (#[trigger] finish[w]).0 == v;
            assert(finish[w] == finish[b]);
            assert(false);
        }
    }
    if is_acyclic(successors) {
        assert forall|i: int, j: int|
            #![trigger order[i], order[j]]
            0 <= i < order.len() && 0 <= j < order.len() && is_edge(
                successors,
                order[i].0 as int,
                order[j].0 as int,
            ) implies i < j by {
            if j <= i {
                assert(reaches(successors, order[j].0 as int, order[i].0 as int));
            }
        }
    }
}

/// Number of nodes not reached yet.
pub open spec fn count_unvisited(s: Seq<VisitState>) -> nat
    decreases s.len(),
{
    if s.len() == 0 {
        0
    } else {
        count_unvisited(s.drop_last()) + if s.last() == VisitState::Unvisited {
            1nat
        } else {
            0nat
        }
    }
}

/// Edges still to be explored from the nodes on the DFS stack.
pub open spec fn pending_edges(stack: Seq<(DeclIdx, usize)>, successors: Seq<Vec<DeclIdx>>) -> nat
    decreases stack.len(),
{
    if stack.len() == 0 {
        0
    } else {
        let (node, cursor) = stack.last();
        let len = successors[node.0 as int]@.len();
        pending_edges(stack.drop_last(), successors) + if cursor <= len {
            (len - cursor) as nat
        } else {
            0nat
        }
    }
}

proof fn lemma_count_update(s: Seq<VisitState>, v: int, x: VisitState)
    requires
        0 <= v < s.len(),
    ensures
        count_unvisited(s.update(v, x)) + (if s[v] == VisitState::Unvisited {
            1int
        } else {
            0int
        }) == count_unvisited(s) + (if x == VisitState::Unvisited {
            1int
        } else {
            0int
        }),
    decreases s.len(),
{
    let t = s.update(v, x);
    if v == s.len() - 1 {
        assert(t.drop_last() =~= s.drop_last());
    } else {
        assert(t.drop_last() =~= s.drop_last().update(v, x));
        lemma_count_update(s.drop_last(), v, x);
    }
}

proof fn lemma_count_zero(s: Seq<VisitState>)
    requires
        forall|v: int| 0 <= v < s.len() ==> s[v] != VisitState::Unvisited,
    ensures
        count_unvisited(s) == 0,
    decreases s.len(),
{
    if s.len() > 0 {
        lemma_count_zero(s.drop_last());
    }
}

proof fn lemma_pending_update_top(
    stack: Seq<(DeclIdx, usize)>,
    successors: Seq<Vec<DeclIdx>>,
    cursor: usize,
)
    requires
        stack.len() > 0,
        cursor == stack.last().1 + 1,
        cursor <= successors[stack.last().0.0 as int]@.len(),
    ensures
        pending_edges(stack.update(stack.len() - 1, (stack.last().0, cursor)), successors) + 1
            == pending_edges(stack, successors),
{
    let t = stack.update(stack.len() - 1, (stack.last().0, cursor));
    assert(t.drop_last() =~= stack.drop_last());
}

proof fn lemma_pending_push(
    stack: Seq<(DeclIdx, usize)>,
    successors: Seq<Vec<DeclIdx>>,
    e: (DeclIdx, usize),
)
    ensures
        pending_edges(stack.push(e), successors) >= pending_edges(stack, successors),
{
    assert(stack.push(e).drop_last() =~= stack);
}

/// One step of the declaration-order search over a state made of the next
/// root to try, each node's visit state, the stack of (node, next edge)
/// pairs and the nodes finished so far: examine the next edge of the top
/// entry (descending into an unvisited target), finish the top entry when
/// its edges are done, or, with an empty stack, start from the next root.
pub open spec fn dfs_step(
    n: nat,
    successors: Seq<Vec<DeclIdx>>,
    s: (int, Seq<VisitState>, Seq<(DeclIdx, usize)>, Seq<DeclIdx>),
) -> (int, Seq<VisitState>, Seq<(DeclIdx, usize)>, Seq<DeclIdx>) {
    let (root, visit, stack, finished) = s;
    if stack.len() > 0 {
        let (node, cursor) = stack.last();
        let succs = successors[node.0 as int]@;
        if cursor < succs.len() {
            let next = succs[cursor as int];
            let advanced = stack.update(stack.len() - 1, (node, (cursor + 1) as usize));
            if visit[next.0 as int] == VisitState::Unvisited {
                (
                    root,
                    visit.update(next.0 as int, VisitState::OnPath),
                    advanced.push((next, 0usize)),
                    finished,
                )
            } else {
                (root, visit, advanced, finished)
            }
        } else {
            (root, visit.update(node.0 as int, VisitState::Finished), stack.drop_last(), finished.push(node))
        }
    } else if root < n {
        if visit[root] != VisitState::Unvisited {
            (root + 1, visit, stack, finished)
        } else {
            (
                root,
                visit.update(root, VisitState::OnPath),
                seq![(DeclIdx(root as usize), 0usize)],
                finished,
            )
        }
    } else {
        s
    }
}

/// The search state after `steps` steps from the start: root 0, every node
/// unvisited, nothing stacked or finished.
pub open spec fn dfs_run(n: nat, successors: Seq<Vec<DeclIdx>>, steps: nat) -> (
    int,
    Seq<VisitState>,
    Seq<(DeclIdx, usize)>,
    Seq<DeclIdx>,
)
    decreases steps,
{
    if steps == 0 {
        (0, Seq::new(n, |_j: int| VisitState::Unvisited), Seq::empty(), Seq::empty())
    } else {
        dfs_step(n, successors, dfs_run(n, successors, (steps - 1) as nat))
    }
}

/// The search has tried every root and emptied its stack.
pub open spec fn dfs_done(n: nat, s: (int, Seq<VisitState>, Seq<(DeclIdx, usize)>, Seq<DeclIdx>)) -> bool {
    s.2.len() == 0 && s.0 >= n
}

/// The finishing order of the declaration-order search.
pub open spec fn dfs_finish_order(n: nat, successors: Seq<Vec<DeclIdx>>) -> Seq<DeclIdx> {
    dfs_run(n, successors, choose|k: nat| dfs_done(n, dfs_run(n, successors, k))).3
}

/// The reverse finishing order of the search that tries roots in
/// declaration order and descends along each node's edges in list order.
pub open spec fn spec_dfs_order(n: nat, successors: Seq<Vec<DeclIdx>>) -> Seq<DeclIdx> {
    let f = dfs_finish_order(n, successors);
    Seq::new(f.len(), |j: int| f[f.len() - 1 - j])
}

/// Once the search is done, further steps change nothing.
proof fn lemma_dfs_done_stable(n: nat, successors: Seq<Vec<DeclIdx>>, a: nat, b: nat)
    requires
        a <= b,
        dfs_done(n, dfs_run(n, successors, a)),
    ensures
        dfs_run(n, successors, b) == dfs_run(n, successors, a),
    decreases b,
{
    if b > a {
        lemma_dfs_done_stable(n, successors, a, (b - 1) as nat);
    }
}

/// A search done after `k` steps finishes in the order it holds then.
proof fn lemma_dfs_finish_order(n: nat, successors: Seq<Vec<DeclIdx>>, k: nat)
    requires
        dfs_done(n, dfs_run(n, successors, k)),
    ensures
        dfs_finish_order(n, successors) == dfs_run(n, successors, k).3,
{
    let c = choose|c: nat| dfs_done(n, dfs_run(n, successors, c));
    if c <= k {
        lemma_dfs_done_stable(n, successors, c, k);
    } else {
        lemma_dfs_done_stable(n, successors, k, c);
    }
}

/// Compute an execution order for a possibly cyclic kernel body: DFS from
/// each node in declaration order, not descending through back edges, then
/// list the nodes in reverse finishing order. Every node appears exactly once.
pub fn execution_order(node_count: usize, successors: &[Vec<DeclIdx>]) -> (order: Vec<DeclIdx>)
    requires
        successors_in_range(node_count as nat, successors@),
    ensures
        is_permutation_of_nodes(order@, node_count as nat),
        late_edges_close_cycles(order@, successors@),
        is_acyclic(successors@) ==> sources_run_first(order@, successors@),
        order@ == spec_dfs_order(node_count as nat, successors@),
{
    let n = node_count;
    let mut state: Vec<VisitState> = Vec::new();
    let mut i: usize = 0;
    while i < n
        invariant
            i <= n,
            state@ == Seq::new(i as nat, |_j: int| VisitState::Unvisited),
        decreases n - i,
    {
        state.push(VisitState::Unvisited);
        i = i + 1;
        assert(state@ =~= Seq::new(i as nat, |_j: int| VisitState::Unvisited));
    }
    assert(count_unvisited(state@) == n) by {
        lemma_count_all(n as nat);
    }
    let mut finish_order: Vec<DeclIdx> = Vec::new();
    let mut root: usize = 0;
    let ghost mut steps: nat = 0;
    assert(dfs_run(n as nat, successors@, 0) == (
        0int,
        state@,
        Seq::<(DeclIdx, usize)>::empty(),
        finish_order@,
    ));
    while root < n
        invariant
            successors_in_range(n as nat, successors@),
            root <= n,
            dfs_run(n as nat, successors@, steps) == (
                root as int,
                state@,
                Seq::<(DeclIdx, usize)>::empty(),
                finish_order@,
            ),
            state@.len() == n,
            finish_order@.len() + count_unvisited(state@) == n,
            forall|v: int| 0 <= v < root ==> state@[v] != VisitState::Unvisited,
            forall|v: int| 0 <= v < n ==> state@[v] != VisitState::OnPath,
            finish_edges_settled(finish_order@, successors@),
            forall|k: int|
                0 <= k < finish_order@.len() ==> (#[trigger] finish_order@[k]).0 < n
                    && state@[finish_order@[k].0 as int] == VisitState::Finished,
            forall|k: int, l: int|
                0 <= k < finish_order@.len() && 0 <= l < finish_order@.len() && k != l
                    ==> #[trigger] finish_order@[k] != #[trigger] finish_order@[l],
            forall|v: int|
                0 <= v < n && state@[v] == VisitState::Finished ==> exists|k: int|
                    0 <= k < finish_order@.len() && (#[trigger] finish_order@[k]).0 == v,
        decreases n - root,
    {
        if state[root] != VisitState::Unvisited {
            proof {
                steps = steps + 1;
            }
            root = root + 1;
            continue;
        }
        let mut stack: Vec<(DeclIdx, usize)> = Vec::new();
        stack.push((DeclIdx(root), 0));
        proof {
            lemma_count_update(state@, root as int, VisitState::OnPath);
        }
        state.set(root, VisitState::OnPath);
        proof {
            steps = steps + 1;
            assert(stack@ =~= seq![(DeclIdx(root), 0usize)]);
        }
        assert forall|v: int| 0 <= v < n && state@[v] == VisitState::OnPath implies exists|j: int|
            0 <= j < stack@.len() && (#[trigger] stack@[j]).0.0 == v by {
            assert(stack@[0].0.0 == v);
        }
        while stack.len() > 0
            invariant
                successors_in_range(n as nat, successors@),
                root < n,
                dfs_run(n as nat, successors@, steps) == (root as int, state@, stack@, finish_order@),
                state@.len() == n,
                state@[root as int] != VisitState::Unvisited,
                finish_order@.len() + count_unvisited(state@) + stack@.len() == n,
                forall|v: int| 0 <= v < root ==> state@[v] != VisitState::Unvisited,
                forall|j: int|
                    0 <= j < stack@.len() ==> (#[trigger] stack@[j]).0.0 < n && state@[stack@[j].0.0 as int]
                        == VisitState::OnPath && stack@[j].1 <= successors@[stack@[j].0.0 as int]@.len(),
                forall|j: int, l: int|
                    0 <= j < stack@.len() && 0 <= l < stack@.len() && j != l ==> (#[trigger] stack@[j]).0
                        != (#[trigger] stack@[l]).0,
                forall|v: int|
                    0 <= v < n && state@[v] == VisitState::OnPath ==> exists|j: int|
                        0 <= j < stack@.len() && (#[trigger] stack@[j]).0.0 == v,
                forall|k: int|
                    0 <= k < finish_order@.len() ==> (#[trigger] finish_order@[k]).0 < n
                        && state@[finish_order@[k].0 as int] == VisitState::Finished,
                forall|k: int, l: int|
                    0 <= k < finish_order@.len() && 0 <= l < finish_order@.len() && k != l
                        ==> #[trigger] finish_order@[k] != #[trigger] finish_order@[l],
                forall|v: int|
                    0 <= v < n && state@[v] == VisitState::Finished ==> exists|k: int|
                        0 <= k < finish_order@.len() && (#[trigger] finish_order@[k]).0 == v,
                stack_is_walk(stack@, successors@),
                examined_edges_ok(stack@, state@, successors@),
                finish_edges_settled(finish_order@, successors@),
            decreases count_unvisited(state@), pending_edges(stack@, successors@), stack@.len(),
        {
            let top = stack.len() - 1;
            let (node, cursor) = stack[top];
            let succs = &successors[node.0];
            if cursor < succs.len() {
                let next = succs[cursor];
                proof {
                    lemma_pending_update_top(stack@, successors@, (cursor + 1) as usize);
                }
                let ghost old_stack = stack@;
                let ghost old_state = state@;
                stack.set(top, (node, cursor + 1));
                if state[next.0] == VisitState::Unvisited {
                    proof {
                        lemma_count_update(state@, next.0 as int, VisitState::OnPath);
                        lemma_pending_push(stack@, successors@, (next, 0usize));
                    }
                    state.set(next.0, VisitState::OnPath);
                    stack.push((next, 0));
                }
                proof {
                    steps = steps + 1;
                    lemma_examine(n as nat, successors@, old_stack, old_state, next, stack@, state@);
                    assert forall|v: int|
                        0 <= v < n && state@[v] == VisitState::OnPath implies exists|j: int|
                        0 <= j < stack@.len() && (#[trigger] stack@[j]).0.0 == v by {
                        if old_state[v] == VisitState::OnPath {
                            let j = choose|j: int|
                                0 <= j < old_stack.len() && (#[trigger] old_stack[j]).0.0 == v;
                            assert(stack@[j].0 == old_stack[j].0);
                        } else {
                            assert(v == next.0);
                            assert(stack@[stack@.len() - 1].0.0 == v);
                        }
                    }
                }
            } else {
                proof {
                    lemma_count_update(state@, node.0 as int, VisitState::Finished);
                    assert(stack@.drop_last() =~= stack@.take(top as int));
                }
                let ghost old_stack = stack@;
                let ghost old_finish = finish_order@;
                let ghost old_state = state@;
                state.set(node.0, VisitState::Finished);
                finish_order.push(node);
                stack.pop();
                proof {
                    steps = steps + 1;
                    lemma_finish(
                        n as nat,
                        successors@,
                        old_stack,
                        old_state,
                        old_finish,
                        stack@,
                        state@,
                        finish_order@,
                    );
                    assert(stack@ =~= old_stack.drop_last());
                    assert forall|v: int|
                        0 <= v < n && state@[v] == VisitState::OnPath implies exists|j: int|
                        0 <= j < stack@.len() && (#[trigger] stack@[j]).0.0 == v by {
                        let j = choose|j: int|
                            0 <= j < old_stack.len() && (#[trigger] old_stack[j]).0.0 == v;
                        assert(j != top);
                        assert(stack@[j] == old_stack[j]);
                    }
                    assert forall|v: int|
                        0 <= v < n && state@[v] == VisitState::Finished implies exists|k: int|
                        0 <= k < finish_order@.len() && (#[trigger] finish_order@[k]).0 == v by {
                        if v == node.0 {
                            assert(finish_order@[old_finish.len() as int].0 == v);
                        } else {
                            let k = choose|k: int|
                                0 <= k < old_finish.len() && (#[trigger] old_finish[k]).0 == v;
                            assert(finish_order@[k] == old_finish[k]);
                        }
                    }
                    assert forall|k: int, l: int|
                        0 <= k < finish_order@.len() && 0 <= l < finish_order@.len() && k != l
                        implies #[trigger] finish_order@[k] != #[trigger] finish_order@[l] by {
                        if k == old_finish.len() {
                            assert(state@[finish_order@[l].0 as int] == VisitState::Finished);
                        } else if l == old_finish.len() {
                            assert(state@[finish_order@[k].0 as int] == VisitState::Finished);
                        }
                    }
                }
            }
        }
        proof {
            steps = steps + 1;
        }
        root = root + 1;
    }
    proof {
        lemma_count_zero(state@);
        lemma_dfs_finish_order(n as nat, successors@, steps);
    }
    let mut order: Vec<DeclIdx> = Vec::new();
    let mut k: usize = finish_order.len();
    while k > 0
        invariant
            k <= finish_order@.len(),
            order@.len() + k == finish_order@.len(),
            forall|j: int|
                0 <= j < order@.len() ==> #[trigger] order@[j] == finish_order@[finish_order@.len() - 1 - j],
        decreases k,
    {
        k = k - 1;
        order.push(finish_order[k]);
    }
    assert forall|i: int, j: int|
        0 <= i < order@.len() && 0 <= j < order@.len() && i != j implies #[trigger] order@[i]
        != #[trigger] order@[j] by {
        let a = finish_order@.len() - 1 - i;
        let b = finish_order@.len() - 1 - j;
        assert(finish_order@[a] != finish_order@[b]);
    }
    proof {
        lemma_reversed_finish(successors@, finish_order@, order@);
        assert(order@ =~= spec_dfs_order(node_count as nat, successors@));
    }
    order
}

proof fn lemma_count_all(n: nat)
    ensures
        count_unvisited(Seq::new(n, |_j: int| VisitState::Unvisited)) == n,
    decreases n,
{
    if n > 0 {
        assert(Seq::new(n, |_j: int| VisitState::Unvisited).drop_last() =~= Seq::new(
            (n - 1) as nat,
            |_j: int| VisitState::Unvisited,
        ));
        lemma_count_all((n - 1) as nat);
    }
}

} // verus!
