//! The graph IR: nodes in insertion order under stable ids, directed edges
//! between their ports, and the index from aliases to nodes. Nodes are held
//! in an `IndexMap` keyed by the id's number, so that iteration follows
//! insertion order and removal swaps the last node into the gap.
use crate::ir::{ASTPipe, IREdge, IRNodeKind, NodeId, Object, Port};
use crate::names::NameMap;
use indexmap::IndexMap;
use std::collections::HashMap;
use vstd::prelude::*;
use vstd::relations::{sorted_by, total_ordering};

verus! {

broadcast use vstd::std_specs::hash::group_hash_axioms;

/// `indexmap::IndexMap`, an insertion-ordered hash map.
#[verifier::external_type_specification]
#[verifier::external_body]
#[verifier::reject_recursive_types(K)]
#[verifier::reject_recursive_types(V)]
#[verifier::reject_recursive_types(S)]
pub struct ExIndexMap<K, V, S>(IndexMap<K, V, S>);

/// A single node in the graph IR.
pub struct IRNode {
    pub id: NodeId,
    pub kind: IRNodeKind,
    /// Namespace this node was declared in (e.g. `"audio"`).
    pub namespace: String,
    /// Concrete node type or macro name.
    pub node_type: String,
    /// Alias as written in the source, or the fully-qualified name that
    /// macro expansion produces.
    pub alias: String,
    pub params: Object,
    pub pipes: Vec<ASTPipe>,
}

/// Name for what an `IndexMap` of nodes holds: its key-value pairs, in the
/// map's order.
pub uninterp spec fn node_entries(m: IndexMap<u32, IRNode>) -> Seq<(u32, IRNode)>;

/// No key occurs twice.
pub open spec fn keys_unique(entries: Seq<(u32, IRNode)>) -> bool {
    forall|i: int, j: int|
        0 <= i < entries.len() && 0 <= j < entries.len() && i != j ==> (#[trigger] entries[i]).0
            != (#[trigger] entries[j]).0
}

/// Where key `k` stands among `entries`, if it is there.
pub open spec fn key_position(entries: Seq<(u32, IRNode)>, k: u32) -> Option<int> {
    if exists|i: int| 0 <= i < entries.len() && (#[trigger] entries[i]).0 == k {
        Some(choose|i: int| 0 <= i < entries.len() && (#[trigger] entries[i]).0 == k)
    } else {
        None
    }
}

/// `IndexMap::new`: an empty map.
#[verifier::external_body]
fn node_map_new() -> (m: IndexMap<u32, IRNode>)
    ensures
        node_entries(m) == Seq::<(u32, IRNode)>::empty(),
{
    IndexMap::new()
}

/// `IndexMap::insert`: a present key keeps its place and takes the new
/// value, the old value coming back; a new key goes last.
#[verifier::external_body]
fn node_map_insert(m: &mut IndexMap<u32, IRNode>, k: u32, v: IRNode) -> (r: Option<IRNode>)
    ensures
        keys_unique(node_entries(*final(m))),
        match key_position(node_entries(*old(m)), k) {
            Some(i) => node_entries(*final(m)) == node_entries(*old(m)).update(i, (k, v)) && r
                == Some(node_entries(*old(m))[i].1),
            None => node_entries(*final(m)) == node_entries(*old(m)).push((k, v)) && r is None,
        },
{
    m.insert(k, v)
}

/// `IndexMap::swap_remove`: the pair with key `k` is replaced by the last
/// pair, which is popped; its value comes back.
#[verifier::external_body]
fn node_map_swap_remove(m: &mut IndexMap<u32, IRNode>, k: u32) -> (r: Option<IRNode>)
    ensures
        keys_unique(node_entries(*final(m))),
        match key_position(node_entries(*old(m)), k) {
            Some(i) => node_entries(*final(m)) == node_entries(*old(m)).update(
                i,
                node_entries(*old(m)).last(),
            ).drop_last() && r == Some(node_entries(*old(m))[i].1),
            None => node_entries(*final(m)) == node_entries(*old(m)) && r is None,
        },
{
    m.swap_remove(&k)
}

/// `IndexMap::get`: the value under `k`.
#[verifier::external_body]
fn node_map_get(m: &IndexMap<u32, IRNode>, k: u32) -> (r: Option<&IRNode>)
    ensures
        match key_position(node_entries(*m), k) {
            Some(i) => r is Some && *r->Some_0 == node_entries(*m)[i].1,
            None => r is None,
        },
{
    m.get(&k)
}

/// `IndexMap::get_index`: the value at position `i`.
#[verifier::external_body]
fn node_map_get_index(m: &IndexMap<u32, IRNode>, i: usize) -> (r: Option<&IRNode>)
    ensures
        i < node_entries(*m).len() ==> r is Some && *r->Some_0 == node_entries(*m)[i as int].1,
        i >= node_entries(*m).len() ==> r is None,
{
    m.get_index(i).map(|(_, v)| v)
}

/// `IndexMap::len`.
#[verifier::external_body]
fn node_map_len(m: &IndexMap<u32, IRNode>) -> (r: usize)
    ensures
        r == node_entries(*m).len(),
{
    m.len()
}

pub(crate) fn copy_edge(e: &IREdge) -> (r: IREdge)
    ensures
        r == *e,
{
    IREdge {
        source: e.source,
        source_port: e.source_port.duplicate(),
        sink: e.sink,
        sink_port: e.sink_port.duplicate(),
    }
}

/// The edge `e` does not touch the node `id`.
pub open spec fn edge_avoids(e: IREdge, id: NodeId) -> bool {
    e.source != id && e.sink != id
}


/// Ascending order on node id numbers.
pub open spec fn id_leq() -> spec_fn(u32, u32) -> bool {
    |a: u32, b: u32| a <= b
}

/// `slice::sort` on id numbers: the same numbers, ascending.
#[verifier::external_body]
fn sort_ids(v: &mut Vec<u32>)
    ensures
        final(v)@.to_multiset() == old(v)@.to_multiset(),
        sorted_by(final(v)@, id_leq()),
{
    v.sort()
}

/// Sorting id numbers gives the one ascending arrangement of them.
proof fn lemma_sorted_ids(before: Seq<u32>, after: Seq<u32>)
    requires
        after.to_multiset() == before.to_multiset(),
        sorted_by(after, id_leq()),
    ensures
        after == before.sort_by(id_leq()),
{
    assert(total_ordering(id_leq()));
    before.lemma_sort_by_ensures(id_leq());
    vstd::seq_lib::lemma_sorted_unique(after, before.sort_by(id_leq()), id_leq());
}

/// How many edges end at node number `k`.
pub open spec fn in_count(edges: Seq<IREdge>, k: u32) -> nat
    decreases edges.len(),
{
    if edges.len() == 0 {
        0
    } else {
        in_count(edges.drop_last(), k) + if edges.last().sink.0 == k {
            1nat
        } else {
            0nat
        }
    }
}

proof fn lemma_in_count_bound(edges: Seq<IREdge>, k: u32)
    ensures
        in_count(edges, k) <= edges.len(),
    decreases edges.len(),
{
    if edges.len() > 0 {
        lemma_in_count_bound(edges.drop_last(), k);
    }
}

/// The incoming-edge counts the sort starts from: every node, and every
/// edge's sink, with the number of edges ending there.
pub open spec fn kahn_degrees(keys: Seq<u32>, edges: Seq<IREdge>) -> Map<u32, usize> {
    Map::new(
        |k: u32| keys.contains(k) || in_count(edges, k) > 0,
        |k: u32| in_count(edges, k) as usize,
    )
}

/// Taking the edges out of node `id`, in edge order, from the counts `deg`:
/// each one lowers its sink's count, and sinks that reach zero are
/// collected; the flag records a count that was already zero.
pub open spec fn kahn_relax(edges: Seq<IREdge>, id: u32, deg: Map<u32, usize>) -> (
    Map<u32, usize>,
    Seq<u32>,
    bool,
)
    decreases edges.len(),
{
    if edges.len() == 0 {
        (deg, Seq::empty(), false)
    } else {
        let (d, next, bad) = kahn_relax(edges.drop_last(), id, deg);
        let e = edges.last();
        if e.source.0 == id && d.contains_key(e.sink.0) {
            if d[e.sink.0] == 0 {
                (d, next, true)
            } else {
                let v = (d[e.sink.0] - 1) as usize;
                (d.insert(e.sink.0, v), if v == 0 {
                    next.push(e.sink.0)
                } else {
                    next
                }, bad)
            }
        } else {
            (d, next, bad)
        }
    }
}

/// The state the sort starts in: the counts, the ready nodes (those no edge
/// ends at) in ascending order, nothing output, no count gone below zero.
pub open spec fn kahn_start(keys: Seq<u32>, edges: Seq<IREdge>) -> (Map<u32, usize>, Seq<u32>, Seq<u32>, bool) {
    (
        kahn_degrees(keys, edges),
        keys.filter(|k: u32| in_count(edges, k) == 0).sort_by(id_leq()),
        Seq::empty(),
        false,
    )
}

/// One step: output the first ready node, take its edges, and queue the
/// nodes they made ready, in ascending order.
pub open spec fn kahn_step(
    edges: Seq<IREdge>,
    st: (Map<u32, usize>, Seq<u32>, Seq<u32>, bool),
) -> (Map<u32, usize>, Seq<u32>, Seq<u32>, bool) {
    let (deg, queue, out, bad) = st;
    if queue.len() == 0 {
        st
    } else {
        let id = queue[0];
        let (d, next, b) = kahn_relax(edges, id, deg);
        (d, queue.drop_first() + next.sort_by(id_leq()), out.push(id), bad || b)
    }
}

/// The state after `steps` steps.
pub open spec fn kahn_run(keys: Seq<u32>, edges: Seq<IREdge>, steps: nat) -> (
    Map<u32, usize>,
    Seq<u32>,
    Seq<u32>,
    bool,
)
    decreases steps,
{
    if steps == 0 {
        kahn_start(keys, edges)
    } else {
        kahn_step(edges, kahn_run(keys, edges, (steps - 1) as nat))
    }
}

/// The sort runs out of ready nodes after some number of steps, never lowers
/// a zero count, and outputs as many nodes as the graph has.
pub open spec fn kahn_completes(keys: Seq<u32>, edges: Seq<IREdge>) -> bool {
    exists|k: nat|
        {
            let st = #[trigger] kahn_run(keys, edges, k);
            &&& st.1.len() == 0
            &&& !st.3
            &&& st.2.len() == keys.len()
        }
}

/// The order the sort outputs: producers before consumers, ties broken by
/// the smaller id first among the nodes made ready together.
pub open spec fn spec_topological_order(keys: Seq<u32>, edges: Seq<IREdge>) -> Seq<NodeId> {
    let k = choose|k: nat| (#[trigger] kahn_run(keys, edges, k)).1.len() == 0;
    kahn_run(keys, edges, k).2.map_values(|i: u32| NodeId(i))
}

/// Once the queue is empty, further steps change nothing.
proof fn lemma_kahn_stable(keys: Seq<u32>, edges: Seq<IREdge>, a: nat, b: nat)
    requires
        a <= b,
        kahn_run(keys, edges, a).1.len() == 0,
    ensures
        kahn_run(keys, edges, b) == kahn_run(keys, edges, a),
    decreases b,
{
    if b > a {
        lemma_kahn_stable(keys, edges, a, (b - 1) as nat);
    }
}

proof fn lemma_kahn_result(keys: Seq<u32>, edges: Seq<IREdge>, k: nat)
    requires
        kahn_run(keys, edges, k).1.len() == 0,
    ensures
        spec_topological_order(keys, edges) == kahn_run(keys, edges, k).2.map_values(|i: u32| NodeId(i)),
{
    let c = choose|c: nat| (#[trigger] kahn_run(keys, edges, c)).1.len() == 0;
    if c <= k {
        lemma_kahn_stable(keys, edges, c, k);
    } else {
        lemma_kahn_stable(keys, edges, k, c);
    }
}

/// Edges ending at `v` whose source is among `out`.
pub open spec fn settled_in(edges: Seq<IREdge>, out: Seq<u32>, v: u32) -> nat
    decreases edges.len(),
{
    if edges.len() == 0 {
        0
    } else {
        settled_in(edges.drop_last(), out, v) + if edges.last().sink.0 == v && out.contains(
            edges.last().source.0,
        ) {
            1nat
        } else {
            0nat
        }
    }
}

/// Edges from `id` to `v`.
pub open spec fn pair_count(edges: Seq<IREdge>, id: u32, v: u32) -> nat
    decreases edges.len(),
{
    if edges.len() == 0 {
        0
    } else {
        pair_count(edges.drop_last(), id, v) + if edges.last().source.0 == id && edges.last().sink.0
            == v {
            1nat
        } else {
            0nat
        }
    }
}

/// Every edge joins two nodes of the graph.
pub open spec fn edges_join_nodes(keys: Seq<u32>, edges: Seq<IREdge>) -> bool {
    forall|e: int|
        0 <= e < edges.len() ==> keys.contains((#[trigger] edges[e]).source.0) && keys.contains(
            edges[e].sink.0,
        )
}

proof fn lemma_contains_push(s: Seq<u32>, a: u32, x: u32)
    ensures
        s.push(a).contains(x) == (s.contains(x) || x == a),
{
    if s.push(a).contains(x) {
        let i = choose|i: int| 0 <= i < s.push(a).len() && s.push(a)[i] == x;
        if i < s.len() {
            assert(s[i] == x);
        }
    }
    if s.contains(x) {
        let i = choose|i: int| 0 <= i < s.len() && s[i] == x;
        assert(s.push(a)[i] == x);
    }
    if x == a {
        assert(s.push(a)[s.len() as int] == x);
    }
}

proof fn lemma_no_dup_push(s: Seq<u32>, a: u32)
    requires
        s.no_duplicates(),
        !s.contains(a),
    ensures
        s.push(a).no_duplicates(),
{
    let t = s.push(a);
    assert forall|i: int, j: int| 0 <= i < t.len() && 0 <= j < t.len() && i != j implies t[i] != t[j] by {
        if i < s.len() && j < s.len() {
            assert(t[i] == s[i] && t[j] == s[j]);
        } else if i < s.len() {
            assert(t[i] == s[i]);
        } else if j < s.len() {
            assert(t[j] == s[j]);
        }
    }
}

proof fn lemma_no_dup_concat(a: Seq<u32>, b: Seq<u32>)
    requires
        a.no_duplicates(),
        b.no_duplicates(),
        forall|x: u32| a.contains(x) ==> !b.contains(x),
    ensures
        (a + b).no_duplicates(),
        forall|x: u32| #[trigger] (a + b).contains(x) == (a.contains(x) || b.contains(x)),
{
    let t = a + b;
    assert forall|i: int, j: int| 0 <= i < t.len() && 0 <= j < t.len() && i != j implies t[i] != t[j] by {
        if i < a.len() && j < a.len() {
        } else if i >= a.len() && j >= a.len() {
            assert(t[i] == b[i - a.len()] && t[j] == b[j - a.len()]);
        } else if i < a.len() {
            assert(a.contains(t[i]));
            assert(b.contains(b[j - a.len()]));
        } else {
            assert(a.contains(t[j]));
            assert(b.contains(b[i - a.len()]));
        }
    }
    assert forall|x: u32| #[trigger] t.contains(x) == (a.contains(x) || b.contains(x)) by {
        if t.contains(x) {
            let i = choose|i: int| 0 <= i < t.len() && t[i] == x;
            if i < a.len() {
                assert(a[i] == x);
            } else {
                assert(b[i - a.len()] == x);
            }
        }
        if a.contains(x) {
            let i = choose|i: int| 0 <= i < a.len() && a[i] == x;
            assert(t[i] == x);
        }
        if b.contains(x) {
            let i = choose|i: int| 0 <= i < b.len() && b[i] == x;
            assert(t[i + a.len()] == x);
        }
    }
}

/// Sorting keeps the elements, and a sequence without repeats stays without.
proof fn lemma_sort_keeps(s: Seq<u32>)
    ensures
        forall|x: u32| #[trigger] s.sort_by(id_leq()).contains(x) == s.contains(x),
        s.no_duplicates() ==> s.sort_by(id_leq()).no_duplicates(),
{
    broadcast use vstd::seq_lib::group_to_multiset_ensures;

    assert(total_ordering(id_leq()));
    s.lemma_sort_by_ensures(id_leq());
    let t = s.sort_by(id_leq());
    assert forall|x: u32| #[trigger] t.contains(x) == s.contains(x) by {
        assert(t.to_multiset().count(x) == s.to_multiset().count(x));
    }
    if s.no_duplicates() {
        s.lemma_multiset_has_no_duplicates();
        t.lemma_multiset_has_no_duplicates_conv();
    }
}

proof fn lemma_settled_push(edges: Seq<IREdge>, out: Seq<u32>, id: u32, v: u32)
    requires
        !out.contains(id),
    ensures
        settled_in(edges, out.push(id), v) == settled_in(edges, out, v) + pair_count(edges, id, v),
    decreases edges.len(),
{
    if edges.len() > 0 {
        lemma_settled_push(edges.drop_last(), out, id, v);
        lemma_contains_push(out, id, edges.last().source.0);
    }
}

proof fn lemma_settled_empty(edges: Seq<IREdge>, v: u32)
    ensures
        settled_in(edges, Seq::empty(), v) == 0,
    decreases edges.len(),
{
    if edges.len() > 0 {
        lemma_settled_empty(edges.drop_last(), v);
    }
}

/// When every edge into `v` is settled, each of their sources is in `out`.
proof fn lemma_settled_full(edges: Seq<IREdge>, out: Seq<u32>, v: u32)
    ensures
        settled_in(edges, out, v) <= in_count(edges, v),
        settled_in(edges, out, v) == in_count(edges, v) ==> forall|e: int|
            0 <= e < edges.len() && (#[trigger] edges[e]).sink.0 == v ==> out.contains(edges[e].source.0),
    decreases edges.len(),
{
    if edges.len() > 0 {
        lemma_settled_full(edges.drop_last(), out, v);
        if settled_in(edges, out, v) == in_count(edges, v) {
            assert forall|e: int|
                0 <= e < edges.len() && (#[trigger] edges[e]).sink.0 == v implies out.contains(
                edges[e].source.0,
            ) by {
                if e < edges.len() - 1 {
                    assert(edges.drop_last()[e] == edges[e]);
                }
            }
        }
    }
}

/// A positive count means some edge ends there.
proof fn lemma_in_count_witness(edges: Seq<IREdge>, v: u32)
    requires
        in_count(edges, v) > 0,
    ensures
        exists|e: int| 0 <= e < edges.len() && (#[trigger] edges[e]).sink.0 == v,
    decreases edges.len(),
{
    if edges.last().sink.0 == v {
        assert(edges[edges.len() - 1].sink.0 == v);
    } else {
        lemma_in_count_witness(edges.drop_last(), v);
        let e = choose|e: int| 0 <= e < edges.drop_last().len() && (#[trigger] edges.drop_last()[e]).sink.0 == v;
        assert(edges[e] == edges.drop_last()[e]);
    }
}

/// What taking the edges out of `id` does, when no count goes below zero:
/// each count in the map drops by the number of edges from `id` to it, and
/// the collected nodes are, without repeats, those whose count went from
/// positive to zero.
proof fn lemma_relax(es: Seq<IREdge>, id: u32, deg: Map<u32, usize>)
    ensures
        ({
            let (d, next, b) = kahn_relax(es, id, deg);
            !b ==> {
                &&& d.dom() == deg.dom()
                &&& forall|v: u32|
                    #[trigger] d.contains_key(v) ==> d[v] as int == deg[v] as int - pair_count(
                        es,
                        id,
                        v,
                    )
                &&& next.no_duplicates()
                &&& forall|x: u32|
                    #[trigger] next.contains(x) ==> d.contains_key(x) && d[x] == 0 && deg[x] > 0
                &&& forall|v: u32|
                    #[trigger] d.contains_key(v) && deg[v] > 0 && d[v] == 0 ==> next.contains(v)
            }
        }),
    decreases es.len(),
{
    if es.len() > 0 {
        lemma_relax(es.drop_last(), id, deg);
        let (d0, n0, b0) = kahn_relax(es.drop_last(), id, deg);
        let (d, next, b) = kahn_relax(es, id, deg);
        let e = es.last();
        let s = e.sink.0;
        if !b {
            if e.source.0 == id && d0.contains_key(s) && d0[s] != 0 {
                let v = (d0[s] - 1) as usize;
                assert(d == d0.insert(s, v));
                assert(d.dom() =~= deg.dom());
                assert(!n0.contains(s));
                if v == 0 {
                    lemma_no_dup_push(n0, s);
                }
                assert forall|x: u32| #[trigger] next.contains(x) implies d.contains_key(x) && d[x] == 0
                    && deg[x] > 0 by {
                    if v == 0 {
                        lemma_contains_push(n0, s, x);
                    }
                    if x != s {
                        assert(n0.contains(x));
                    }
                }
                assert forall|u: u32|
                    #[trigger] d.contains_key(u) && deg[u] > 0 && d[u] == 0 implies next.contains(u) by {
                    if v == 0 {
                        lemma_contains_push(n0, s, u);
                    }
                }
            } else {
                assert(!b0);
            }
        }
    }
}

/// What every state of the sort keeps while no count has gone below zero:
/// the counts cover the nodes and edge sinks and say how many edges into each
/// node come from nodes not output yet; the queued and output nodes occur
/// once each and have count zero, and every zero count is queued or output;
/// and every edge into an output node comes from a node output before it.
spec fn kahn_inv(
    keys: Seq<u32>,
    edges: Seq<IREdge>,
    st: (Map<u32, usize>, Seq<u32>, Seq<u32>, bool),
) -> bool {
    let (deg, q, out, bad) = st;
    &&& forall|k: u32| #[trigger] deg.contains_key(k) <==> (keys.contains(k) || in_count(edges, k) > 0)
    &&& forall|v: u32|
        #[trigger] deg.contains_key(v) ==> deg[v] as int == in_count(edges, v) - settled_in(
            edges,
            out,
            v,
        )
    &&& (q + out).no_duplicates()
    &&& forall|x: u32| #[trigger] q.contains(x) ==> deg.contains_key(x) && deg[x] == 0
    &&& forall|x: u32| #[trigger] out.contains(x) ==> deg.contains_key(x) && deg[x] == 0
    &&& forall|v: u32| #[trigger] deg.contains_key(v) && deg[v] == 0 ==> (q + out).contains(v)
    &&& forall|b: int, e: int|
        #![trigger out[b], edges[e]]
        0 <= b < out.len() && 0 <= e < edges.len() && edges[e].sink.0 == out[b] ==> out.take(
            b,
        ).contains(edges[e].source.0)
}

proof fn lemma_kahn_inv_start(keys: Seq<u32>, edges: Seq<IREdge>)
    requires
        keys.no_duplicates(),
        edges.len() <= usize::MAX,
    ensures
        kahn_inv(keys, edges, kahn_start(keys, edges)),
{
    broadcast use vstd::seq_lib::group_filter_ensures;

    let (deg, q, out, bad) = kahn_start(keys, edges);
    let ready = |k: u32| in_count(edges, k) == 0;
    let f = keys.filter(ready);
    lemma_filter_no_dup(keys, ready);
    lemma_sort_keeps(f);
    assert(q + out =~= q);
    assert forall|v: u32| #[trigger] deg.contains_key(v) implies deg[v] as int == in_count(edges, v)
        - settled_in(edges, out, v) by {
        lemma_settled_empty(edges, v);
        lemma_in_count_bound(edges, v);
    }
    assert forall|x: u32| #[trigger] q.contains(x) implies deg.contains_key(x) && deg[x] == 0 by {
        assert(f.contains(x));
        keys.lemma_filter_contains_rev(ready, x);
        let i = choose|i: int| 0 <= i < f.len() && f[i] == x;
        assert(ready(f[i]));
    }
    assert forall|v: u32| #[trigger] deg.contains_key(v) && deg[v] == 0 implies (q + out).contains(v) by {
        lemma_in_count_bound(edges, v);
        assert(in_count(edges, v) == 0);
        let i = choose|i: int| 0 <= i < keys.len() && keys[i] == v;
        assert(f.contains(keys[i]));
    }
}

proof fn lemma_filter_no_dup(s: Seq<u32>, p: spec_fn(u32) -> bool)
    requires
        s.no_duplicates(),
    ensures
        s.filter(p).no_duplicates(),
    decreases s.len(),
{
    reveal_with_fuel(Seq::<_>::filter, 1);
    if s.len() > 0 {
        let r = s.drop_last();
        assert(r.no_duplicates());
        lemma_filter_no_dup(r, p);
        if p(s.last()) {
            if r.filter(p).contains(s.last()) {
                r.lemma_filter_contains_rev(p, s.last());
                let i = choose|i: int| 0 <= i < r.len() && r[i] == s.last();
                assert(s[i] == s[s.len() - 1]);
            }
            lemma_no_dup_push(r.filter(p), s.last());
        }
    }
}

proof fn lemma_kahn_inv_step(
    keys: Seq<u32>,
    edges: Seq<IREdge>,
    st: (Map<u32, usize>, Seq<u32>, Seq<u32>, bool),
)
    requires
        kahn_inv(keys, edges, st),
        !kahn_step(edges, st).3,
    ensures
        kahn_inv(keys, edges, kahn_step(edges, st)),
{
    let (deg, q, out, bad) = st;
    if q.len() > 0 {
        let id = q[0];
        let (d, next, b) = kahn_relax(edges, id, deg);
        lemma_relax(edges, id, deg);
        let sn = next.sort_by(id_leq());
        lemma_sort_keeps(next);
        let rest = q.drop_first();
        let q2 = rest + sn;
        let out2 = out.push(id);
        let (d_, q2_, out2_, bad2) = kahn_step(edges, st);
        assert(q2_ == q2 && out2_ == out2 && d_ == d);
        let qo = q + out;
        assert(qo[0] == id);
        // id is not output yet, and the rest of the queue is neither id nor output
        assert(!out.contains(id)) by {
            if out.contains(id) {
                let j = choose|j: int| 0 <= j < out.len() && out[j] == id;
                assert(qo[q.len() + j] == id);
            }
        }
        assert forall|x: u32| #[trigger] rest.contains(x) implies q.contains(x) && x != id && !out.contains(x) by {
            let i = choose|i: int| 0 <= i < rest.len() && rest[i] == x;
            assert(q[i + 1] == x);
            assert(qo[i + 1] == x);
            if out.contains(x) {
                let j = choose|j: int| 0 <= j < out.len() && out[j] == x;
                assert(qo[q.len() + j] == x);
            }
        }
        assert forall|x: u32| #[trigger] q.contains(x) implies x == id || rest.contains(x) by {
            let i = choose|i: int| 0 <= i < q.len() && q[i] == x;
            if i > 0 {
                assert(rest[i - 1] == x);
            }
        }
        assert forall|x: u32| #[trigger] out.contains(x) implies qo.contains(x) by {
            let j = choose|j: int| 0 <= j < out.len() && out[j] == x;
            assert(qo[q.len() + j] == x);
        }
        assert forall|x: u32| #[trigger] q.contains(x) implies qo.contains(x) by {
            let i = choose|i: int| 0 <= i < q.len() && q[i] == x;
            assert(qo[i] == x);
        }
        assert forall|x: u32| #[trigger] qo.contains(x) implies q.contains(x) || out.contains(x) by {
            let i = choose|i: int| 0 <= i < qo.len() && qo[i] == x;
            if i < q.len() {
                assert(q[i] == x);
            } else {
                assert(out[i - q.len()] == x);
            }
        }
        // counts of queued and output nodes stay zero
        assert forall|x: u32| deg.contains_key(x) && deg[x] == 0 implies d.contains_key(x) && d[x] == 0 by {
            assert(d.contains_key(x));
        }
        // the parts of the new queue and output occur once each
        assert(rest.no_duplicates()) by {
            assert forall|i: int, j: int| 0 <= i < rest.len() && 0 <= j < rest.len() && i != j implies rest[i] != rest[j] by {
                assert(qo[i + 1] == rest[i] && qo[j + 1] == rest[j]);
            }
        }
        assert(out.no_duplicates()) by {
            assert forall|i: int, j: int| 0 <= i < out.len() && 0 <= j < out.len() && i != j implies out[i] != out[j] by {
                assert(qo[q.len() + i] == out[i] && qo[q.len() + j] == out[j]);
            }
        }
        lemma_no_dup_push(out, id);
        assert forall|x: u32| rest.contains(x) implies !sn.contains(x) by {
            assert(deg[x] == 0);
        }
        lemma_no_dup_concat(rest, sn);
        assert(q.contains(id)) by {
            assert(q[0] == id);
        }
        assert forall|x: u32| q2.contains(x) implies !out2.contains(x) by {
            lemma_contains_push(out, id, x);
            assert(rest.contains(x) || sn.contains(x));
            if !rest.contains(x) {
                assert(next.contains(x));
                assert(deg[x] > 0);
                if x == id {
                    assert(deg[id] == 0);
                }
                if out.contains(x) {
                    assert(deg[x] == 0);
                }
            }
        }
        lemma_no_dup_concat(q2, out2);
        assert forall|v: u32| #[trigger] d.contains_key(v) implies d[v] as int == in_count(edges, v)
            - settled_in(edges, out2, v) by {
            lemma_settled_push(edges, out, id, v);
        }
        assert forall|x: u32| #[trigger] q2.contains(x) implies d.contains_key(x) && d[x] == 0 by {
            if rest.contains(x) {
                assert(q.contains(x));
            } else {
                assert(next.contains(x));
            }
        }
        assert forall|x: u32| #[trigger] out2.contains(x) implies d.contains_key(x) && d[x] == 0 by {
            lemma_contains_push(out, id, x);
            if x == id {
                assert(q.contains(id));
            }
        }
        assert forall|v: u32| #[trigger] d.contains_key(v) && d[v] == 0 implies (q2 + out2).contains(v) by {
            lemma_contains_push(out, id, v);
            if deg[v] == 0 {
                assert(qo.contains(v));
                if q.contains(v) {
                    if v != id {
                        assert(rest.contains(v));
                    }
                }
            } else {
                assert(next.contains(v));
            }
        }
        assert forall|bi: int, e: int|
            #![trigger out2[bi], edges[e]]
            0 <= bi < out2.len() && 0 <= e < edges.len() && edges[e].sink.0 == out2[bi] implies out2.take(
            bi,
        ).contains(edges[e].source.0) by {
            if bi < out.len() {
                assert(out2[bi] == out[bi]);
                assert(out2.take(bi) =~= out.take(bi));
            } else {
                assert(out2.take(bi) =~= out);
                assert(deg[id] == 0);
                lemma_settled_full(edges, out, id);
            }
        }
    }
}

/// Every state of the sort up to a point where no count has gone below zero
/// keeps the invariant.
proof fn lemma_kahn_inv_run(keys: Seq<u32>, edges: Seq<IREdge>, k: nat)
    requires
        keys.no_duplicates(),
        edges.len() <= usize::MAX,
        !kahn_run(keys, edges, k).3,
    ensures
        kahn_inv(keys, edges, kahn_run(keys, edges, k)),
    decreases k,
{
    if k == 0 {
        lemma_kahn_inv_start(keys, edges);
    } else {
        let prev = kahn_run(keys, edges, (k - 1) as nat);
        assert(!prev.3);
        lemma_kahn_inv_run(keys, edges, (k - 1) as nat);
        lemma_kahn_inv_step(keys, edges, prev);
    }
}

/// What the sort outputs once it has run out of ready nodes with no count
/// below zero and as many nodes as the graph has: each node once, only nodes
/// and edge sinks, every edge's source before its sink, and, when every edge
/// joins nodes of the graph, every node.
proof fn lemma_kahn_law(keys: Seq<u32>, edges: Seq<IREdge>, k: nat)
    requires
        keys.no_duplicates(),
        edges.len() <= usize::MAX,
        !kahn_run(keys, edges, k).3,
        kahn_run(keys, edges, k).1.len() == 0,
        kahn_run(keys, edges, k).2.len() == keys.len(),
    ensures
        ({
            let out = kahn_run(keys, edges, k).2;
            &&& out.no_duplicates()
            &&& forall|i: int|
                0 <= i < out.len() ==> keys.contains(#[trigger] out[i]) || in_count(edges, out[i])
                    > 0
            &&& forall|b: int, e: int|
                #![trigger out[b], edges[e]]
                0 <= b < out.len() && 0 <= e < edges.len() && edges[e].sink.0 == out[b] ==> exists|
                    a: int,
                | 0 <= a < b && #[trigger] out[a] == edges[e].source.0
            &&& edges_join_nodes(keys, edges) ==> forall|x: u32| #[trigger] keys.contains(x) ==> out.contains(x)
        }),
{
    lemma_kahn_inv_run(keys, edges, k);
    let (deg, q, out, bad) = kahn_run(keys, edges, k);
    assert(q + out =~= out);
    assert forall|i: int| 0 <= i < out.len() implies keys.contains(#[trigger] out[i]) || in_count(edges, out[i]) > 0 by {
        assert(out.contains(out[i]));
    }
    assert forall|b: int, e: int|
        #![trigger out[b], edges[e]]
        0 <= b < out.len() && 0 <= e < edges.len() && edges[e].sink.0 == out[b] implies exists|
            a: int,
        | 0 <= a < b && #[trigger] out[a] == edges[e].source.0 by {
        assert(out.take(b).contains(edges[e].source.0));
        let a = choose|a: int| 0 <= a < b && out.take(b)[a] == edges[e].source.0;
        assert(out[a] == out.take(b)[a]);
    }
    if edges_join_nodes(keys, edges) {
        broadcast use vstd::seq_lib::seq_to_set_is_finite;

        assert forall|x: u32| #[trigger] out.to_set().contains(x) implies keys.to_set().contains(x) by {
            let i = choose|i: int| 0 <= i < out.len() && out[i] == x;
            assert(out.contains(out[i]));
            if !keys.contains(x) {
                assert(in_count(edges, x) > 0);
                lemma_in_count_witness(edges, x);
                let e = choose|e: int| 0 <= e < edges.len() && (#[trigger] edges[e]).sink.0 == x;
                assert(keys.contains(edges[e].sink.0));
            }
        }
        out.unique_seq_to_set();
        keys.unique_seq_to_set();
        vstd::set_lib::lemma_subset_equality(out.to_set(), keys.to_set());
        assert forall|x: u32| #[trigger] keys.contains(x) implies out.contains(x) by {
            assert(keys.to_set().contains(x));
            assert(out.to_set().contains(x));
        }
    }
}

/// Once a count has gone below zero, every later state records it.
proof fn lemma_kahn_bad_sticky(keys: Seq<u32>, edges: Seq<IREdge>, a: nat, b: nat)
    requires
        a <= b,
        kahn_run(keys, edges, a).3,
    ensures
        kahn_run(keys, edges, b).3,
    decreases b,
{
    if b > a {
        lemma_kahn_bad_sticky(keys, edges, a, (b - 1) as nat);
    }
}

/// Nodes and edge sinks, each taken once, number at most the nodes plus the
/// edges.
proof fn lemma_domain_bound(keys: Seq<u32>, edges: Seq<IREdge>, s: Seq<u32>)
    requires
        s.no_duplicates(),
        forall|x: u32| #[trigger] s.contains(x) ==> keys.contains(x) || in_count(edges, x) > 0,
    ensures
        s.len() <= keys.len() + edges.len(),
{
    broadcast use vstd::seq_lib::seq_to_set_is_finite;

    let all = keys + edges.map_values(|e: IREdge| e.sink.0);
    assert forall|x: u32| #[trigger] s.to_set().contains(x) implies all.to_set().contains(x) by {
        if keys.contains(x) {
            let i = choose|i: int| 0 <= i < keys.len() && keys[i] == x;
            assert(all[i] == x);
        } else {
            lemma_in_count_witness(edges, x);
            let e = choose|e: int| 0 <= e < edges.len() && (#[trigger] edges[e]).sink.0 == x;
            assert(all[keys.len() + e] == x);
        }
    }
    s.unique_seq_to_set();
    vstd::set_lib::lemma_len_subset(s.to_set(), all.to_set());
    all.lemma_cardinality_of_set();
}

/// The law of a topological order `r` of the graph with node numbers `keys`
/// and edges `edges`: it lists as many ids as the graph has nodes, each once,
/// only ids of nodes or edge sinks, each edge's source before its sink, and,
/// when every edge joins nodes of the graph, every node.
pub open spec fn topo_law(keys: Seq<u32>, edges: Seq<IREdge>, r: Seq<NodeId>) -> bool {
    &&& r.len() == keys.len()
    &&& r.no_duplicates()
    &&& forall|i: int|
        0 <= i < r.len() ==> keys.contains((#[trigger] r[i]).0) || in_count(edges, r[i].0) > 0
    &&& forall|b: int, e: int|
        #![trigger r[b], edges[e]]
        0 <= b < r.len() && 0 <= e < edges.len() && edges[e].sink == r[b] ==> exists|a: int|
            0 <= a < b && #[trigger] r[a] == edges[e].source
    &&& edges_join_nodes(keys, edges) ==> forall|k: u32| #[trigger] keys.contains(k) ==> r.contains(NodeId(k))
}

proof fn lemma_topo_law_ids(keys: Seq<u32>, edges: Seq<IREdge>, out: Seq<u32>, r: Seq<NodeId>)
    requires
        r == out.map_values(|i: u32| NodeId(i)),
        out.len() == keys.len(),
        out.no_duplicates(),
        forall|i: int|
            0 <= i < out.len() ==> keys.contains(#[trigger] out[i]) || in_count(edges, out[i]) > 0,
        forall|b: int, e: int|
            #![trigger out[b], edges[e]]
            0 <= b < out.len() && 0 <= e < edges.len() && edges[e].sink.0 == out[b] ==> exists|a: int|
                0 <= a < b && #[trigger] out[a] == edges[e].source.0,
        edges_join_nodes(keys, edges) ==> forall|x: u32| #[trigger] keys.contains(x) ==> out.contains(x),
    ensures
        topo_law(keys, edges, r),
{
    assert forall|i: int, j: int| 0 <= i < r.len() && 0 <= j < r.len() && i != j implies r[i] != r[j] by {
        assert(out[i] != out[j]);
    }
    assert forall|i: int| 0 <= i < r.len() implies keys.contains((#[trigger] r[i]).0) || in_count(edges, r[i].0) > 0 by {
        assert(r[i].0 == out[i]);
    }
    assert forall|b: int, e: int|
        #![trigger r[b], edges[e]]
        0 <= b < r.len() && 0 <= e < edges.len() && edges[e].sink == r[b] implies exists|a: int|
            0 <= a < b && #[trigger] r[a] == edges[e].source by {
        assert(edges[e].sink.0 == out[b]);
        let a = choose|a: int| 0 <= a < b && #[trigger] out[a] == edges[e].source.0;
        assert(r[a] == NodeId(out[a]));
    }
    if edges_join_nodes(keys, edges) {
        assert forall|k: u32| #[trigger] keys.contains(k) implies r.contains(NodeId(k)) by {
            assert(out.contains(k));
            let i = choose|i: int| 0 <= i < out.len() && out[i] == k;
            assert(r[i] == NodeId(k));
        }
    }
}

/// The edge `e` leaves `src` and enters `snk`, where each given end must
/// match.
pub open spec fn edge_between(e: IREdge, src: Option<NodeId>, snk: Option<NodeId>) -> bool {
    &&& (src matches Some(a) ==> e.source == a)
    &&& (snk matches Some(b) ==> e.sink == b)
}

/// Taking the edges out of `id` never lowers a zero count when each count
/// is at least the number of those edges ending there.
proof fn lemma_relax_no_underflow(es: Seq<IREdge>, id: u32, deg: Map<u32, usize>)
    requires
        forall|v: u32| #[trigger] deg.contains_key(v) ==> deg[v] >= pair_count(es, id, v),
    ensures
        !kahn_relax(es, id, deg).2,
    decreases es.len(),
{
    if es.len() > 0 {
        let pre = es.drop_last();
        assert forall|v: u32| #[trigger] deg.contains_key(v) implies deg[v] >= pair_count(pre, id, v) by {
        }
        lemma_relax_no_underflow(pre, id, deg);
        lemma_relax(pre, id, deg);
    }
}

/// From a state keeping the invariant, a step never lowers a zero count.
proof fn lemma_kahn_step_sound(
    keys: Seq<u32>,
    edges: Seq<IREdge>,
    st: (Map<u32, usize>, Seq<u32>, Seq<u32>, bool),
)
    requires
        kahn_inv(keys, edges, st),
        !st.3,
    ensures
        !kahn_step(edges, st).3,
{
    let (deg, q, out, bad) = st;
    if q.len() > 0 {
        let id = q[0];
        assert(!out.contains(id)) by {
            let qo = q + out;
            assert(qo[0] == id);
            if out.contains(id) {
                let j = choose|j: int| 0 <= j < out.len() && out[j] == id;
                assert(qo[q.len() + j] == id);
            }
        }
        assert forall|v: u32| #[trigger] deg.contains_key(v) implies deg[v] >= pair_count(edges, id, v) by {
            lemma_settled_push(edges, out, id, v);
            lemma_settled_full(edges, out.push(id), v);
        }
        lemma_relax_no_underflow(edges, id, deg);
    }
}

/// No count of the sort ever goes below zero, so every state keeps the
/// invariant.
proof fn lemma_kahn_always_sound(keys: Seq<u32>, edges: Seq<IREdge>, k: nat)
    requires
        keys.no_duplicates(),
        edges.len() <= usize::MAX,
    ensures
        !kahn_run(keys, edges, k).3,
        kahn_inv(keys, edges, kahn_run(keys, edges, k)),
    decreases k,
{
    if k == 0 {
        lemma_kahn_inv_start(keys, edges);
    } else {
        lemma_kahn_always_sound(keys, edges, (k - 1) as nat);
        let prev = kahn_run(keys, edges, (k - 1) as nat);
        lemma_kahn_step_sound(keys, edges, prev);
        lemma_kahn_inv_step(keys, edges, prev);
    }
}

/// Until the queue empties, each step outputs one node.
proof fn lemma_kahn_progress(keys: Seq<u32>, edges: Seq<IREdge>, k: nat)
    ensures
        kahn_run(keys, edges, k).1.len() == 0 || kahn_run(keys, edges, k).2.len() == k,
    decreases k,
{
    if k > 0 {
        lemma_kahn_progress(keys, edges, (k - 1) as nat);
    }
}

/// The queue is empty after as many steps as there are nodes and edges,
/// plus one.
proof fn lemma_kahn_ends(keys: Seq<u32>, edges: Seq<IREdge>)
    requires
        keys.no_duplicates(),
        edges.len() <= usize::MAX,
    ensures
        kahn_run(keys, edges, (keys.len() + edges.len() + 1) as nat).1.len() == 0,
{
    let k = (keys.len() + edges.len() + 1) as nat;
    lemma_kahn_progress(keys, edges, k);
    lemma_kahn_always_sound(keys, edges, k);
    let (deg, q, out, bad) = kahn_run(keys, edges, k);
    if q.len() > 0 {
        let both = q + out;
        assert forall|x: u32| #[trigger] both.contains(x) implies keys.contains(x) || in_count(edges, x) > 0 by {
            let i = choose|i: int| 0 <= i < both.len() && both[i] == x;
            if i < q.len() {
                assert(q[i] == x);
                assert(q.contains(x));
            } else {
                assert(out[i - q.len()] == x);
                assert(out.contains(x));
            }
        }
        lemma_domain_bound(keys, edges, both);
    }
}

/// An edge leads from node number `u` to node number `v`.
pub open spec fn ir_edge(edges: Seq<IREdge>, u: u32, v: u32) -> bool {
    exists|e: int| 0 <= e < edges.len() && (#[trigger] edges[e]).source.0 == u && edges[e].sink.0 == v
}

/// `w` is a nonempty walk along edges.
pub open spec fn is_ir_walk(edges: Seq<IREdge>, w: Seq<u32>) -> bool {
    &&& w.len() > 0
    &&& forall|t: int| 0 <= t < w.len() - 1 ==> ir_edge(edges, #[trigger] w[t], w[t + 1])
}

/// No walk of at least one edge returns to where it started.
pub open spec fn ir_acyclic(edges: Seq<IREdge>) -> bool {
    forall|w: Seq<u32>| #[trigger] is_ir_walk(edges, w) && w.len() > 1 ==> w[0] != w.last()
}

/// A node not output, whose edges are not all from output nodes, has an
/// edge from a node not output.
proof fn lemma_unsettled_edge(edges: Seq<IREdge>, out: Seq<u32>, v: u32)
    requires
        settled_in(edges, out, v) < in_count(edges, v),
    ensures
        exists|e: int|
            0 <= e < edges.len() && (#[trigger] edges[e]).sink.0 == v && !out.contains(edges[e].source.0),
    decreases edges.len(),
{
    let e = edges.last();
    if e.sink.0 == v && !out.contains(e.source.0) {
        assert(edges[edges.len() - 1] == e);
    } else {
        lemma_unsettled_edge(edges.drop_last(), out, v);
        let i = choose|i: int|
            0 <= i < edges.drop_last().len() && (#[trigger] edges.drop_last()[i]).sink.0 == v
                && !out.contains(edges.drop_last()[i].source.0);
        assert(edges[i] == edges.drop_last()[i]);
    }
}

/// A node with an edge into it from a node not output.
spec fn pending_pred(edges: Seq<IREdge>, out: Seq<u32>, v: u32) -> u32 {
    let e = choose|e: int|
        0 <= e < edges.len() && (#[trigger] edges[e]).sink.0 == v && !out.contains(edges[e].source.0);
    edges[e].source.0
}

/// The walk of `n` steps back from `v` through nodes not output.
spec fn back_walk(edges: Seq<IREdge>, out: Seq<u32>, v: u32, n: nat) -> Seq<u32>
    decreases n,
{
    if n == 0 {
        seq![v]
    } else {
        back_walk(edges, out, pending_pred(edges, out, v), (n - 1) as nat).push(v)
    }
}

/// In a finished state, every node not output has an edge from a node not
/// output, so one can walk back from it through such nodes for as long as
/// one likes.
proof fn lemma_back_walk(
    keys: Seq<u32>,
    edges: Seq<IREdge>,
    st: (Map<u32, usize>, Seq<u32>, Seq<u32>, bool),
    v: u32,
    n: nat,
)
    requires
        kahn_inv(keys, edges, st),
        st.1.len() == 0,
        edges_join_nodes(keys, edges),
        keys.contains(v),
        !st.2.contains(v),
    ensures
        is_ir_walk(edges, back_walk(edges, st.2, v, n)),
        back_walk(edges, st.2, v, n).len() == n + 1,
        back_walk(edges, st.2, v, n).last() == v,
        forall|i: int|
            0 <= i < back_walk(edges, st.2, v, n).len() ==> keys.contains(
                #[trigger] back_walk(edges, st.2, v, n)[i],
            ) && !st.2.contains(back_walk(edges, st.2, v, n)[i]),
    decreases n,
{
    let (deg, q, out, bad) = st;
    if n > 0 {
        // v is not output, so its count is not zero: some edge into it comes
        // from a node not output.
        assert(q + out =~= out);
        assert(deg.contains_key(v));
        assert(deg[v] != 0);
        lemma_settled_full(edges, out, v);
        lemma_unsettled_edge(edges, out, v);
        let u = pending_pred(edges, out, v);
        let e = choose|e: int|
            0 <= e < edges.len() && (#[trigger] edges[e]).sink.0 == v && !out.contains(edges[e].source.0);
        assert(u == edges[e].source.0);
        assert(keys.contains(u));
        lemma_back_walk(keys, edges, st, u, (n - 1) as nat);
        let w0 = back_walk(edges, out, u, (n - 1) as nat);
        let w = back_walk(edges, out, v, n);
        assert(w == w0.push(v));
        assert(ir_edge(edges, u, v));
        assert forall|t: int| 0 <= t < w.len() - 1 implies ir_edge(edges, #[trigger] w[t], w[t + 1]) by {
            if t < w0.len() - 1 {
                assert(w[t] == w0[t] && w[t + 1] == w0[t + 1]);
            } else {
                assert(w[t] == u && w[t + 1] == v);
            }
        }
        assert forall|i: int| 0 <= i < w.len() implies keys.contains(#[trigger] w[i]) && !out.contains(w[i]) by {
            if i < w0.len() {
                assert(w[i] == w0[i]);
            }
        }
    }
}

/// On a graph whose edges join its nodes and which has no cycle, the sort
/// outputs every node: it completes.
pub proof fn lemma_acyclic_sort_completes(keys: Seq<u32>, edges: Seq<IREdge>)
    requires
        keys.no_duplicates(),
        edges.len() <= usize::MAX,
        edges_join_nodes(keys, edges),
        ir_acyclic(edges),
    ensures
        kahn_completes(keys, edges),
{
    broadcast use vstd::seq_lib::seq_to_set_is_finite;

    let k = (keys.len() + edges.len() + 1) as nat;
    lemma_kahn_ends(keys, edges);
    lemma_kahn_always_sound(keys, edges, k);
    let st = kahn_run(keys, edges, k);
    let (deg, q, out, bad) = st;
    assert(q + out =~= out);
    // every node is output
    assert forall|x: u32| keys.contains(x) implies out.contains(x) by {
        if !out.contains(x) {
            let n = keys.len();
            lemma_back_walk(keys, edges, st, x, n);
            let w = back_walk(edges, out, x, n);
            if w.no_duplicates() {
                assert forall|y: u32| #[trigger] w.to_set().contains(y) implies keys.to_set().contains(y) by {
                    let i = choose|i: int| 0 <= i < w.len() && w[i] == y;
                    assert(keys.contains(w[i]));
                }
                w.unique_seq_to_set();
                vstd::set_lib::lemma_len_subset(w.to_set(), keys.to_set());
                keys.lemma_cardinality_of_set();
            } else {
                let (i, j) = choose|i: int, j: int| 0 <= i < w.len() && 0 <= j < w.len() && i != j && w[i] == w[j];
                let a = if i < j { i } else { j };
                let b = if i < j { j } else { i };
                let c = w.subrange(a, b + 1);
                assert forall|t: int| 0 <= t < c.len() - 1 implies ir_edge(edges, #[trigger] c[t], c[t + 1]) by {
                    assert(c[t] == w[a + t] && c[t + 1] == w[a + t + 1]);
                }
                assert(is_ir_walk(edges, c));
                assert(c[0] == c.last());
            }
        }
    }
    // and only nodes are output, once each: as many as there are nodes
    assert forall|y: u32| #[trigger] out.to_set().contains(y) implies keys.to_set().contains(y) by {
        assert(out.contains(y));
        assert(deg.contains_key(y));
        if !keys.contains(y) {
            lemma_in_count_witness(edges, y);
            let e = choose|e: int| 0 <= e < edges.len() && (#[trigger] edges[e]).sink.0 == y;
            assert(keys.contains(edges[e].sink.0));
        }
    }
    assert(keys.to_set() =~= out.to_set());
    assert(out.no_duplicates());
    out.unique_seq_to_set();
    keys.unique_seq_to_set();
    assert(kahn_run(keys, edges, k).1.len() == 0 && !kahn_run(keys, edges, k).3 && kahn_run(keys, edges, k).2.len() == keys.len());
}

/// Directed graph of nodes and their connections: the central data
/// structure the DSL passes transform.
pub struct IRGraph {
    nodes: IndexMap<u32, IRNode>,
    edges: Vec<IREdge>,
    alias_index: NameMap<NodeId>,
    next_id: u32,
    pub sink: Option<NodeId>,
    pub source: Option<NodeId>,
}

impl IRGraph {
    /// The nodes with their id numbers, in the graph's order.
    pub closed spec fn entries(&self) -> Seq<(u32, IRNode)> {
        node_entries(self.nodes)
    }

    /// The node id numbers, in the graph's order.
    pub open spec fn keys(&self) -> Seq<u32> {
        self.entries().map_values(|e: (u32, IRNode)| e.0)
    }

    /// The edges, in insertion order.
    pub closed spec fn edge_list(&self) -> Seq<IREdge> {
        self.edges@
    }

    /// The node an alias names.
    pub closed spec fn lookup(&self, alias: Seq<char>) -> Option<NodeId> {
        self.alias_index.lookup(alias)
    }

    /// The node marked as the graph's sink.
    pub closed spec fn sink_node(&self) -> Option<NodeId> {
        self.sink
    }

    /// The node marked as the graph's source.
    pub closed spec fn source_node(&self) -> Option<NodeId> {
        self.source
    }

    /// The id the next node receives.
    pub closed spec fn next_id(&self) -> nat {
        self.next_id as nat
    }

    /// Each node sits under its own id's number, no number twice, every id
    /// below the next one handed out.
    pub closed spec fn wf(&self) -> bool {
        &&& keys_unique(node_entries(self.nodes))
        &&& forall|i: int|
            0 <= i < node_entries(self.nodes).len() ==> (#[trigger] node_entries(self.nodes)[i]).0
                == node_entries(self.nodes)[i].1.id.0 && node_entries(self.nodes)[i].0
                < self.next_id
        &&& self.alias_index.wf()
    }

    /// A well-formed graph whose edges join its nodes and which has no cycle
    /// can be sorted: `topological_sort` may be called on it.
    pub proof fn lemma_acyclic_graph_sorts(&self)
        requires
            self.wf(),
            edges_join_nodes(self.keys(), self.edge_list()),
            ir_acyclic(self.edge_list()),
        ensures
            kahn_completes(self.keys(), self.edge_list()),
    {
        let keys = self.keys();
        assert forall|a: int, b: int| 0 <= a < keys.len() && 0 <= b < keys.len() && a != b implies keys[a] != keys[b] by {
            assert(keys[a] == self.entries()[a].0 && keys[b] == self.entries()[b].0);
        }
        assert(self.edges@.len() == self.edges.len());
        lemma_acyclic_sort_completes(keys, self.edge_list());
    }

    /// An empty graph.
    pub fn new() -> (g: Self)
        ensures
            g.wf(),
            g.entries().len() == 0,
            g.edge_list().len() == 0,
            forall|a: Seq<char>| #[trigger] g.lookup(a) is None,
            g.next_id() == 0,
            g.sink_node() is None,
            g.source_node() is None,
    {
        IRGraph {
            nodes: node_map_new(),
            edges: Vec::new(),
            alias_index: NameMap::new(),
            next_id: 0,
            sink: None,
            source: None,
        }
    }

    /// Insert a node under the next id and return that id; the alias now
    /// names it.
    pub fn add_node(
        &mut self,
        kind: IRNodeKind,
        namespace: String,
        node_type: String,
        alias: String,
        params: Object,
        pipes: Vec<ASTPipe>,
    ) -> (id: NodeId)
        requires
            old(self).wf(),
            old(self).next_id() < u32::MAX,
        ensures
            final(self).wf(),
            id == NodeId(old(self).next_id() as u32),
            !old(self).keys().contains(id.0),
            final(self).next_id() == old(self).next_id() + 1,
            final(self).entries() == old(self).entries().push(
                (id.0, (IRNode { id, kind, namespace, node_type, alias, params, pipes })),
            ),
            final(self).lookup(alias@) == Some(id),
            forall|a: Seq<char>| a != alias@ ==> #[trigger] final(self).lookup(a) == old(self).lookup(a),
            final(self).edge_list() == old(self).edge_list(),
            final(self).sink_node() == old(self).sink_node(),
            final(self).source_node() == old(self).source_node(),
    {
        let id = NodeId(self.next_id);
        self.next_id = self.next_id + 1;
        let alias_key = alias.clone();
        let ghost old_entries = node_entries(self.nodes);
        proof {
            assert forall|i: int| 0 <= i < old(self).keys().len() implies old(self).keys()[i] != id.0 by {
                assert(old(self).keys()[i] == old_entries[i].0);
            }
            if key_position(old_entries, id.0) is Some {
                let i = choose|i: int| 0 <= i < old_entries.len() && (#[trigger] old_entries[i]).0 == id.0;
                assert(old_entries[i].0 < old(self).next_id);
            }
        }
        let _ = node_map_insert(
            &mut self.nodes,
            id.0,
            IRNode { id, kind, namespace, node_type, alias, params, pipes },
        );
        self.alias_index.insert(alias_key, id);
        id
    }

    /// The id the next node receives.
    pub fn next_id_value(&self) -> (r: u32)
        ensures
            r == self.next_id(),
    {
        self.next_id
    }

    /// The node marked as the graph's sink.
    pub fn sink_id(&self) -> (r: Option<NodeId>)
        ensures
            r == self.sink_node(),
    {
        self.sink
    }

    /// The node marked as the graph's source.
    pub fn source_id(&self) -> (r: Option<NodeId>)
        ensures
            r == self.source_node(),
    {
        self.source
    }

    /// Mark `sink` and `source` as the graph's output and input nodes.
    pub fn set_ends(&mut self, sink: Option<NodeId>, source: Option<NodeId>)
        ensures
            final(self).sink_node() == sink,
            final(self).source_node() == source,
            final(self).entries() == old(self).entries(),
            final(self).edge_list() == old(self).edge_list(),
            final(self).next_id() == old(self).next_id(),
            final(self).wf() == old(self).wf(),
            forall|a: Seq<char>| #[trigger] final(self).lookup(a) == old(self).lookup(a),
    {
        self.sink = sink;
        self.source = source;
    }

    /// Add a directed edge.
    pub fn connect(&mut self, source: NodeId, source_port: Port, sink: NodeId, sink_port: Port)
        ensures
            final(self).edge_list() == old(self).edge_list().push(
                (IREdge { source, source_port, sink, sink_port }),
            ),
            final(self).entries() == old(self).entries(),
            forall|a: Seq<char>| #[trigger] final(self).lookup(a) == old(self).lookup(a),
            final(self).next_id() == old(self).next_id(),
            final(self).wf() == old(self).wf(),
            final(self).sink_node() == old(self).sink_node(),
            final(self).source_node() == old(self).source_node(),
    {
        self.edges.push(IREdge { source, source_port, sink, sink_port });
    }

    /// Splice a new leaf node into the edge at `edge_index`: the edge
    /// `A -> B` becomes `A -> new` (keeping A's port) and `new -> B`
    /// (keeping B's port), both appended after the remaining edges.
    pub fn insert_between(
        &mut self,
        edge_index: usize,
        namespace: String,
        node_type: String,
        alias: String,
        params: Object,
    ) -> (id: NodeId)
        requires
            old(self).wf(),
            old(self).next_id() < u32::MAX,
            edge_index < old(self).edge_list().len(),
        ensures
            final(self).wf(),
            id == NodeId(old(self).next_id() as u32),
            !old(self).keys().contains(id.0),
            final(self).next_id() == old(self).next_id() + 1,
            final(self).entries().len() == old(self).entries().len() + 1,
            final(self).entries().drop_last() == old(self).entries(),
            ({
                let (k, n) = final(self).entries().last();
                &&& k == id.0
                &&& n.id == id
                &&& n.kind == IRNodeKind::Leaf
                &&& n.namespace == namespace
                &&& n.node_type == node_type
                &&& n.alias == alias
                &&& n.params == params
                &&& n.pipes@.len() == 0
            }),
            ({
                let e = old(self).edge_list()[edge_index as int];
                final(self).edge_list() == old(self).edge_list().remove(edge_index as int).push(
                    (IREdge {
                        source: e.source,
                        source_port: e.source_port,
                        sink: id,
                        sink_port: Port::Omitted,
                    }),
                ).push(
                    (IREdge {
                        source: id,
                        source_port: Port::Omitted,
                        sink: e.sink,
                        sink_port: e.sink_port,
                    }),
                )
            }),
            final(self).lookup(alias@) == Some(id),
            forall|a: Seq<char>| a != alias@ ==> #[trigger] final(self).lookup(a) == old(self).lookup(a),
            final(self).sink_node() == old(self).sink_node(),
            final(self).source_node() == old(self).source_node(),
    {
        let edge = self.edges.remove(edge_index);
        let ghost names_before = self.alias_index;
        assert(names_before == old(self).alias_index);
        let ghost alias_view = alias@;
        let new_id = self.add_node(IRNodeKind::Leaf, namespace, node_type, alias, params, Vec::new());
        let ghost names_after = self.alias_index;
        assert forall|a: Seq<char>| a != alias_view implies #[trigger] names_after.lookup(a) == names_before.lookup(a) by {
            assert(self.lookup(a) == old(self).lookup(a));
        }
        self.edges.push(
            IREdge {
                source: edge.source,
                source_port: edge.source_port,
                sink: new_id,
                sink_port: Port::Omitted,
            },
        );
        self.edges.push(
            IREdge {
                source: new_id,
                source_port: Port::Omitted,
                sink: edge.sink,
                sink_port: edge.sink_port,
            },
        );
        assert(self.alias_index == names_after);
        new_id
    }

    /// Remove a node and every edge touching it. The last node takes the
    /// removed node's place in the order, and the removed node's alias is
    /// forgotten.
    pub fn remove_node(&mut self, id: NodeId)
        requires
            old(self).wf(),
        ensures
            final(self).wf(),
            match key_position(old(self).entries(), id.0) {
                Some(i) => {
                    &&& final(self).entries() == old(self).entries().update(
                        i,
                        old(self).entries().last(),
                    ).drop_last()
                    &&& final(self).lookup(old(self).entries()[i].1.alias@) is None
                    &&& forall|a: Seq<char>|
                        a != old(self).entries()[i].1.alias@ ==> #[trigger] final(self).lookup(a)
                            == old(self).lookup(a)
                },
                None => {
                    &&& final(self).entries() == old(self).entries()
                    &&& forall|a: Seq<char>| #[trigger] final(self).lookup(a) == old(self).lookup(a)
                },
            },
            final(self).edge_list() == old(self).edge_list().filter(|e: IREdge| edge_avoids(e, id)),
            final(self).next_id() == old(self).next_id(),
            final(self).sink_node() == old(self).sink_node(),
            final(self).source_node() == old(self).source_node(),
    {
        let ghost old_entries = node_entries(self.nodes);
        let removed = node_map_swap_remove(&mut self.nodes, id.0);
        proof {
            let e = node_entries(self.nodes);
            assert forall|i: int| 0 <= i < e.len() implies (#[trigger] e[i]).0 == e[i].1.id.0
                && e[i].0 < self.next_id by {
                if key_position(old_entries, id.0) is Some {
                    let k = key_position(old_entries, id.0)->Some_0;
                    if i == k {
                        assert(e[i] == old_entries[old_entries.len() - 1]);
                    } else {
                        assert(e[i] == old_entries[i]);
                    }
                }
            }
        }
        match removed {
            Some(node) => {
                self.alias_index.remove(node.alias.as_str());
            },
            None => {},
        }
        let ghost old_edges = self.edges@;
        let ghost keep = |e: IREdge| edge_avoids(e, id);
        let mut kept: Vec<IREdge> = Vec::new();
        let mut i: usize = 0;
        while i < self.edges.len()
            invariant
                self.edges@ == old_edges,
                i <= old_edges.len(),
                kept@ == old_edges.take(i as int).filter(keep),
                keep == (|e: IREdge| edge_avoids(e, id)),
            decreases old_edges.len() - i,
        {
            proof {
                reveal_with_fuel(Seq::<_>::filter, 1);
                assert(old_edges.take(i + 1).drop_last() =~= old_edges.take(i as int));
            }
            if self.edges[i].source != id && self.edges[i].sink != id {
                kept.push(copy_edge(&self.edges[i]));
            }
            i = i + 1;
        }
        assert(old_edges.take(i as int) =~= old_edges);
        self.edges = kept;
    }

    /// Number of nodes.
    pub fn node_count(&self) -> (r: usize)
        ensures
            r == self.entries().len(),
    {
        node_map_len(&self.nodes)
    }

    /// The edges, in insertion order.
    pub fn edges(&self) -> (r: &[IREdge])
        ensures
            r@ == self.edge_list(),
    {
        self.edges.as_slice()
    }

    /// In a well-formed graph each node sits under its own id's number.
    pub proof fn lemma_entry_id(&self, i: int)
        requires
            self.wf(),
            0 <= i < self.entries().len(),
        ensures
            self.entries()[i].0 == self.entries()[i].1.id.0,
            self.keys()[i] == self.entries()[i].0,
    {
        assert(node_entries(self.nodes)[i].0 == node_entries(self.nodes)[i].1.id.0);
    }

    /// In a well-formed graph every id number is below the next one handed
    /// out.
    pub proof fn lemma_keys_below_next(&self)
        requires
            self.wf(),
        ensures
            forall|i: int| 0 <= i < self.entries().len() ==> #[trigger] self.entries()[i].0 < self.next_id(),
    {
        assert forall|i: int| 0 <= i < self.entries().len() implies #[trigger] self.entries()[i].0 < self.next_id() by {
            assert(node_entries(self.nodes)[i].0 < self.next_id);
        }
    }

    /// In a well-formed graph no id number occurs twice.
    pub proof fn lemma_keys_unique(&self)
        requires
            self.wf(),
        ensures
            keys_unique(self.entries()),
    {
    }

    /// The node at position `i` in the graph's order.
    pub fn node_at(&self, i: usize) -> (r: &IRNode)
        requires
            i < self.entries().len(),
        ensures
            *r == self.entries()[i as int].1,
    {
        let r = node_map_get_index(&self.nodes, i);
        r.unwrap()
    }

    /// Number of edges.
    pub fn edge_count(&self) -> (r: usize)
        ensures
            r == self.edge_list().len(),
    {
        self.edges.len()
    }

    /// The node under `id`, if there is one.
    pub fn get_node(&self, id: NodeId) -> (r: Option<&IRNode>)
        ensures
            match key_position(self.entries(), id.0) {
                Some(i) => r matches Some(n) && *n == self.entries()[i].1,
                None => r is None,
            },
    {
        node_map_get(&self.nodes, id.0)
    }

    /// The node an alias names.
    pub fn resolve_alias(&self, alias: &str) -> (r: Option<NodeId>)
        requires
            self.wf(),
        ensures
            r == self.lookup(alias@),
    {
        self.alias_index.get(alias)
    }

    /// Whether any macro reference is left unexpanded.
    pub fn has_unresolved_macros(&self) -> (r: bool)
        ensures
            r == exists|i: int|
                0 <= i < self.entries().len() && (#[trigger] self.entries()[i]).1.kind
                    == IRNodeKind::MacroRef,
    {
        let n = node_map_len(&self.nodes);
        let mut i: usize = 0;
        while i < n
            invariant
                n == self.entries().len(),
                i <= n,
                forall|j: int| 0 <= j < i ==> (#[trigger] self.entries()[j]).1.kind != IRNodeKind::MacroRef,
            decreases n - i,
        {
            match node_map_get_index(&self.nodes, i) {
                Some(node) => {
                    if node.kind == IRNodeKind::MacroRef {
                        return true;
                    }
                },
                None => {},
            }
            i = i + 1;
        }
        false
    }

    /// Topological sort (Kahn's algorithm): node ids in producer-before-
    /// consumer order. The nodes no edge ends at start ready, in ascending
    /// id order; each output node's edges are taken in edge order, and the
    /// nodes they make ready join the queue in ascending id order. A graph
    /// whose edges join its nodes and which has no cycle always sorts (see
    /// `lemma_acyclic_graph_sorts`).
    pub fn topological_sort(&self) -> (r: Vec<NodeId>)
        requires
            self.wf(),
            kahn_completes(self.keys(), self.edge_list()),
        ensures
            r@ == spec_topological_order(self.keys(), self.edge_list()),
            topo_law(self.keys(), self.edge_list(), r@),
    {
        match self.checked_topological_sort() {
            Some(v) => v,
            None => Vec::new(),
        }
    }

    /// The topological sort, or `None` on the graphs where it cannot list
    /// every node once: a cycle (or an edge from a missing node) leaves nodes
    /// never ready, and an edge into a node already output is counted twice.
    pub fn checked_topological_sort(&self) -> (r: Option<Vec<NodeId>>)
        requires
            self.wf(),
        ensures
            match r {
                Some(v) => {
                    &&& kahn_completes(self.keys(), self.edge_list())
                    &&& v@ == spec_topological_order(self.keys(), self.edge_list())
                    &&& topo_law(self.keys(), self.edge_list(), v@)
                },
                None => !kahn_completes(self.keys(), self.edge_list()),
            },
    {
        let ghost keys = self.keys();
        let ghost edges = self.edges@;
        proof {
            assert forall|a: int, b: int| 0 <= a < keys.len() && 0 <= b < keys.len() && a != b implies keys[a] != keys[b] by {
                assert(keys[a] == self.entries()[a].0 && keys[b] == self.entries()[b].0);
            }
        }
        let n = node_map_len(&self.nodes);
        // Every node starts at zero, then each edge counts against its sink.
        let mut in_degree: HashMap<u32, usize> = HashMap::new();
        let mut i: usize = 0;
        while i < n
            invariant
                n == keys.len(),
                keys == self.keys(),
                self.wf(),
                i <= n,
                in_degree@ == Map::new(|k: u32| keys.take(i as int).contains(k), |k: u32| 0usize),
            decreases n - i,
        {
            match node_map_get_index(&self.nodes, i) {
                Some(node) => {
                    in_degree.insert(node.id.0, 0);
                },
                None => {},
            }
            proof {
                assert(keys[i as int] == self.entries()[i as int].0);
                assert forall|k: u32| #[trigger] keys.take(i + 1).contains(k) == (keys.take(
                    i as int,
                ).contains(k) || k == keys[i as int]) by {
                    if keys.take(i + 1).contains(k) {
                        let w = choose|w: int| 0 <= w < i + 1 && #[trigger] keys.take(i + 1)[w] == k;
                        if w < i {
                            assert(keys.take(i as int)[w] == k);
                        }
                    }
                    if keys.take(i as int).contains(k) {
                        let w = choose|w: int| 0 <= w < i && #[trigger] keys.take(i as int)[w] == k;
                        assert(keys.take(i + 1)[w] == k);
                    }
                    if k == keys[i as int] {
                        assert(keys.take(i + 1)[i as int] == k);
                    }
                }
                assert(in_degree@ =~= Map::new(|k: u32| keys.take(i + 1).contains(k), |k: u32| 0usize));
            }
            i = i + 1;
        }
        assert(keys.take(n as int) =~= keys);
        let mut j: usize = 0;
        while j < self.edges.len()
            invariant
                edges == self.edges@,
                j <= edges.len(),
                in_degree@ == Map::new(
                    |k: u32| keys.contains(k) || in_count(edges.take(j as int), k) > 0,
                    |k: u32| in_count(edges.take(j as int), k) as usize,
                ),
            decreases edges.len() - j,
        {
            let s = self.edges[j].sink.0;
            proof {
                assert(edges.take(j + 1).drop_last() =~= edges.take(j as int));
                lemma_in_count_bound(edges.take(j as int), s);
            }
            let c: usize = match in_degree.get(&s) {
                Some(d) => *d,
                None => 0,
            };
            in_degree.insert(s, c + 1);
            j = j + 1;
            proof {
                assert(in_degree@ =~= Map::new(
                    |k: u32| keys.contains(k) || in_count(edges.take(j as int), k) > 0,
                    |k: u32| in_count(edges.take(j as int), k) as usize,
                ));
            }
        }
        assert(edges.take(j as int) =~= edges);
        // The nodes no edge ends at are ready, in ascending order.
        let edge_total = self.edges.len();
        let ghost ready = |k: u32| in_count(edges, k) == 0;
        let mut queue: Vec<u32> = Vec::new();
        let mut i: usize = 0;
        while i < n
            invariant
                n == keys.len(),
                keys == self.keys(),
                self.wf(),
                i <= n,
                in_degree@ == kahn_degrees(keys, edges),
                edges == self.edges@,
                edges.len() == edge_total,
                ready == (|k: u32| in_count(edges, k) == 0),
                queue@ == keys.take(i as int).filter(ready),
            decreases n - i,
        {
            proof {
                reveal_with_fuel(Seq::<_>::filter, 1);
                assert(keys.take(i + 1).drop_last() =~= keys.take(i as int));
                assert(keys[i as int] == self.entries()[i as int].0);
                assert(keys.contains(keys[i as int]));
                lemma_in_count_bound(edges, keys[i as int]);
            }
            match node_map_get_index(&self.nodes, i) {
                Some(node) => {
                    let k = node.id.0;
                    assert(k == keys[i as int]);
                    assert(in_degree@.contains_key(k));
                    match in_degree.get(&k) {
                        Some(d) => {
                            assert(*d == in_count(edges, k) as usize);
                            assert((*d == 0) == ready(k));
                            if *d == 0 {
                                queue.push(k);
                            }
                        },
                        None => {},
                    }
                },
                None => {},
            }
            assert(keys.take(i + 1).last() == keys[i as int]);
            i = i + 1;
        }
        assert(keys.take(n as int) =~= keys);
        let ghost unsorted = queue@;
        sort_ids(&mut queue);
        proof {
            lemma_sorted_ids(unsorted, queue@);
        }
        let mut head: usize = 0;
        let mut out: Vec<u32> = Vec::new();
        let ghost bad = false;
        let ghost mut steps: nat = 0;
        assert(kahn_run(keys, edges, 0) == (in_degree@, queue@.skip(head as int), out@, bad)) by {
            assert(queue@.skip(0) =~= queue@);
        }
        while head < queue.len()
            invariant
                edges == self.edges@,
                edges.len() == edge_total,
                n == keys.len(),
                keys == self.keys(),
                keys.no_duplicates(),
                head <= queue@.len(),
                !bad,
                kahn_run(keys, edges, steps) == (in_degree@, queue@.skip(head as int), out@, bad),
            decreases n + edge_total - out@.len(),
        {
            proof {
                lemma_kahn_inv_run(keys, edges, steps);
                let rest = queue@.skip(head as int);
                let both = rest + out@;
                assert forall|x: u32| #[trigger] both.contains(x) implies keys.contains(x) || in_count(edges, x) > 0 by {
                    let i = choose|i: int| 0 <= i < both.len() && both[i] == x;
                    if i < rest.len() {
                        assert(rest[i] == x);
                        assert(rest.contains(x));
                    } else {
                        assert(out@[i - rest.len()] == x);
                        assert(out@.contains(x));
                    }
                }
                lemma_domain_bound(keys, edges, both);
            }
            let id = queue[head];
            head = head + 1;
            out.push(id);
            let ghost deg_at_pop = in_degree@;
            let mut next: Vec<u32> = Vec::new();
            let mut underflow = false;
            let mut j: usize = 0;
            while j < self.edges.len()
                invariant
                    edges == self.edges@,
                    j <= edges.len(),
                    (in_degree@, next@, underflow) == kahn_relax(edges.take(j as int), id, deg_at_pop),
                decreases edges.len() - j,
            {
                proof {
                    assert(edges.take(j + 1).drop_last() =~= edges.take(j as int));
                    assert(edges.take(j + 1).last() == edges[j as int]);
                }
                if self.edges[j].source.0 == id {
                    let s = self.edges[j].sink.0;
                    match in_degree.get(&s) {
                        Some(d) => {
                            let d = *d;
                            if d == 0 {
                                underflow = true;
                            } else {
                                in_degree.insert(s, d - 1);
                                if d - 1 == 0 {
                                    next.push(s);
                                }
                            }
                        },
                        None => {},
                    }
                }
                j = j + 1;
            }
            assert(edges.take(j as int) =~= edges);
            let ghost unsorted_next = next@;
            sort_ids(&mut next);
            proof {
                lemma_sorted_ids(unsorted_next, next@);
            }
            let ghost old_queue = queue@;
            queue.append(&mut next);
            proof {
                assert(queue@.skip(head as int) =~= old_queue.skip(head - 1).drop_first()
                    + unsorted_next.sort_by(id_leq()));
                steps = steps + 1;
            }
            if underflow {
                // The count of a node already output would go below zero.
                proof {
                    assert(kahn_run(keys, edges, steps).3);
                    if kahn_completes(keys, edges) {
                        let k = choose|k: nat|
                            {
                                let st = #[trigger] kahn_run(keys, edges, k);
                                &&& st.1.len() == 0
                                &&& !st.3
                                &&& st.2.len() == keys.len()
                            };
                        if k <= steps {
                            lemma_kahn_stable(keys, edges, k, steps);
                        } else {
                            lemma_kahn_bad_sticky(keys, edges, steps, k);
                        }
                    }
                }
                return None;
            }
        }
        if out.len() != n {
            // Some node never became ready.
            proof {
                if kahn_completes(keys, edges) {
                    let k = choose|k: nat|
                        {
                            let st = #[trigger] kahn_run(keys, edges, k);
                            &&& st.1.len() == 0
                            &&& !st.3
                            &&& st.2.len() == keys.len()
                        };
                    if k <= steps {
                        lemma_kahn_stable(keys, edges, k, steps);
                    } else {
                        lemma_kahn_stable(keys, edges, steps, k);
                    }
                }
            }
            return None;
        }
        proof {
            assert(queue@.skip(head as int).len() == 0);
            assert(kahn_run(keys, edges, steps).2.len() == keys.len());
            assert(kahn_completes(keys, edges)) by {
                let st = kahn_run(keys, edges, steps);
                assert(st.1.len() == 0 && !st.3 && st.2.len() == keys.len());
            }
            lemma_kahn_result(keys, edges, steps);
            lemma_kahn_law(keys, edges, steps);
        }
        let mut r: Vec<NodeId> = Vec::new();
        let mut k: usize = 0;
        while k < out.len()
            invariant
                k <= out@.len(),
                r@ == out@.take(k as int).map_values(|i: u32| NodeId(i)),
            decreases out@.len() - k,
        {
            r.push(NodeId(out[k]));
            k = k + 1;
            assert(r@ =~= out@.take(k as int).map_values(|i: u32| NodeId(i)));
        }
        assert(out@.take(k as int) =~= out@);
        proof {
            lemma_topo_law_ids(keys, edges, out@, r@);
        }
        Some(r)
    }

    /// Copies of the edges between the given ends, in edge order.
    fn edges_where(&self, src: Option<NodeId>, snk: Option<NodeId>) -> (r: Vec<IREdge>)
        ensures
            r@ == self.edge_list().filter(|e: IREdge| edge_between(e, src, snk)),
    {
        let ghost keep = |e: IREdge| edge_between(e, src, snk);
        let mut r: Vec<IREdge> = Vec::new();
        let mut i: usize = 0;
        while i < self.edges.len()
            invariant
                i <= self.edges@.len(),
                r@ == self.edges@.take(i as int).filter(keep),
                keep == (|e: IREdge| edge_between(e, src, snk)),
            decreases self.edges@.len() - i,
        {
            proof {
                reveal_with_fuel(Seq::<_>::filter, 1);
                assert(self.edges@.take(i + 1).drop_last() =~= self.edges@.take(i as int));
            }
            let e = &self.edges[i];
            let src_ok = match src {
                Some(a) => e.source == a,
                None => true,
            };
            let snk_ok = match snk {
                Some(b) => e.sink == b,
                None => true,
            };
            if src_ok && snk_ok {
                r.push(copy_edge(e));
            }
            i = i + 1;
        }
        assert(self.edges@.take(i as int) =~= self.edges@);
        r
    }

    /// The edges from the node `src_alias` names to the node `snk_alias`
    /// names, in edge order; none when either alias names no node.
    pub fn find_edges_between(&self, src_alias: &str, snk_alias: &str) -> (r: Vec<IREdge>)
        requires
            self.wf(),
        ensures
            match (self.lookup(src_alias@), self.lookup(snk_alias@)) {
                (Some(a), Some(b)) => r@ == self.edge_list().filter(
                    |e: IREdge| edge_between(e, Some(a), Some(b)),
                ),
                _ => r@.len() == 0,
            },
    {
        match (self.alias_index.get(src_alias), self.alias_index.get(snk_alias)) {
            (Some(a), Some(b)) => self.edges_where(Some(a), Some(b)),
            _ => Vec::new(),
        }
    }

    /// The edges leaving the node `src_alias` names, in edge order; none
    /// when the alias names no node.
    pub fn find_edges_from(&self, src_alias: &str) -> (r: Vec<IREdge>)
        requires
            self.wf(),
        ensures
            match self.lookup(src_alias@) {
                Some(a) => r@ == self.edge_list().filter(|e: IREdge| edge_between(e, Some(a), None)),
                None => r@.len() == 0,
            },
    {
        match self.alias_index.get(src_alias) {
            Some(a) => self.edges_where(Some(a), None),
            None => Vec::new(),
        }
    }

    /// The edges entering the node `snk_alias` names, in edge order; none
    /// when the alias names no node.
    pub fn find_edges_to(&self, snk_alias: &str) -> (r: Vec<IREdge>)
        requires
            self.wf(),
        ensures
            match self.lookup(snk_alias@) {
                Some(b) => r@ == self.edge_list().filter(|e: IREdge| edge_between(e, None, Some(b))),
                None => r@.len() == 0,
            },
    {
        match self.alias_index.get(snk_alias) {
            Some(b) => self.edges_where(None, Some(b)),
            None => Vec::new(),
        }
    }

    /// The sinks of the edges leaving `id`, in edge order.
    pub fn successors(&self, id: NodeId) -> (r: Vec<NodeId>)
        ensures
            r@ == self.edge_list().filter(|e: IREdge| e.source == id).map_values(|e: IREdge| e.sink),
    {
        let ghost keep = |e: IREdge| e.source == id;
        let ghost sink_of = |e: IREdge| e.sink;
        let mut r: Vec<NodeId> = Vec::new();
        let mut i: usize = 0;
        while i < self.edges.len()
            invariant
                i <= self.edges@.len(),
                r@ == self.edges@.take(i as int).filter(keep).map_values(sink_of),
                keep == (|e: IREdge| e.source == id),
                sink_of == (|e: IREdge| e.sink),
            decreases self.edges@.len() - i,
        {
            proof {
                reveal_with_fuel(Seq::<_>::filter, 1);
                assert(self.edges@.take(i + 1).drop_last() =~= self.edges@.take(i as int));
            }
            if self.edges[i].source == id {
                r.push(self.edges[i].sink);
                proof {
                    let f = self.edges@.take(i as int).filter(keep);
                    assert(f.push(self.edges@[i as int]).map_values(sink_of) =~= f.map_values(
                        sink_of,
                    ).push(self.edges@[i as int].sink));
                }
            }
            i = i + 1;
        }
        assert(self.edges@.take(i as int) =~= self.edges@);
        r
    }
}

} // verus!
