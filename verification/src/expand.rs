//! Expansion of a macro reference into the nodes and edges of the macro's
//! body, rewiring the edges that reached the reference through its virtual
//! input ports and out of its sink.
use crate::error::ValidationError;
use crate::ir::{IREdge, IRNodeKind, NodeId, Object, Port, copied_pipe, duplicate_pipes, substituted, has_param};
use crate::ir_graph::{IRGraph, IRNode, copy_edge, edge_avoids, key_position};
use crate::plan::{IRMacro, decl_index, macro_joined};
use crate::text::{push_str, str_eq};
use vstd::prelude::*;

verus! {

/// Expands macro references into the nodes of the macro's body.
pub struct MacroExpansionPass;

/// Position of the first name equal to `name`, or -1.
pub open spec fn first_pos(names: Seq<Seq<char>>, name: Seq<char>) -> int
    decreases names.len(),
{
    if names.len() == 0 {
        -1
    } else {
        let p = first_pos(names.drop_last(), name);
        if p >= 0 {
            p
        } else if names.last() == name {
            names.len() - 1
        } else {
            -1
        }
    }
}

pub proof fn lemma_first_pos(names: Seq<Seq<char>>, name: Seq<char>)
    ensures
        -1 <= first_pos(names, name) < names.len(),
        first_pos(names, name) >= 0 ==> names[first_pos(names, name)] == name,
    decreases names.len(),
{
    if names.len() > 0 {
        lemma_first_pos(names.drop_last(), name);
    }
}

pub proof fn lemma_first_pos_prefix(names: Seq<Seq<char>>, name: Seq<char>, n: int)
    requires
        0 <= n <= names.len(),
    ensures
        first_pos(names.take(n), name) >= 0 ==> first_pos(names, name) == first_pos(names.take(n), name),
        first_pos(names.take(n), name) == -1 ==> (first_pos(names, name) == -1 || first_pos(names, name) >= n),
    decreases names.len() - n,
{
    if n < names.len() {
        lemma_first_pos_prefix(names, name, n + 1);
        assert(names.take(n + 1).drop_last() == names.take(n));
    } else {
        assert(names.take(n) == names);
    }
}

/// The names of the macros in a registry.
pub open spec fn macro_names(registry: Seq<IRMacro>) -> Seq<Seq<char>> {
    registry.map_values(|m: IRMacro| m.name@)
}

/// The names of a macro's virtual inputs.
pub open spec fn virtual_names(m: IRMacro) -> Seq<Seq<char>> {
    m.virtual_input_map@.map_values(|v: (String, Vec<(NodeId, Port)>)| v.0@)
}

/// The position of the first macro named `name` in `registry`.
pub(crate) fn find_macro(registry: &Vec<IRMacro>, name: &str) -> (r: Option<usize>)
    ensures
        match r {
            Some(j) => first_pos(macro_names(registry@), name@) == j && j < registry@.len(),
            None => first_pos(macro_names(registry@), name@) == -1,
        },
{
    let ghost names = macro_names(registry@);
    let mut i: usize = 0;
    while i < registry.len()
        invariant
            names == macro_names(registry@),
            i <= registry@.len(),
            first_pos(names.take(i as int), name@) == -1,
        decreases registry.len() - i,
    {
        assert(names.take(i as int + 1).drop_last() =~= names.take(i as int));
        if str_eq(registry[i].name.as_str(), name) {
            proof {
                lemma_first_pos_prefix(names, name@, i as int + 1);
            }
            return Some(i);
        }
        proof {
            lemma_first_pos_prefix(names, name@, i as int + 1);
        }
        i = i + 1;
    }
    assert(names.take(i as int) =~= names);
    None
}

fn find_virtual(m: &IRMacro, name: &str) -> (r: Option<usize>)
    ensures
        match r {
            Some(j) => first_pos(virtual_names(*m), name@) == j && j < m.virtual_input_map@.len(),
            None => first_pos(virtual_names(*m), name@) == -1,
        },
{
    let ghost names = virtual_names(*m);
    let mut i: usize = 0;
    while i < m.virtual_input_map.len()
        invariant
            names == virtual_names(*m),
            i <= m.virtual_input_map@.len(),
            first_pos(names.take(i as int), name@) == -1,
        decreases m.virtual_input_map.len() - i,
    {
        assert(names.take(i as int + 1).drop_last() =~= names.take(i as int));
        if str_eq(m.virtual_input_map[i].0.as_str(), name) {
            proof {
                lemma_first_pos_prefix(names, name@, i as int + 1);
            }
            return Some(i);
        }
        proof {
            lemma_first_pos_prefix(names, name@, i as int + 1);
        }
        i = i + 1;
    }
    assert(names.take(i as int) =~= names);
    None
}

/// The id the clone of body node `id` receives when ids from `base` on are
/// handed out in declaration order.
pub open spec fn remap(m: IRMacro, base: nat, id: NodeId) -> NodeId {
    NodeId((base + decl_index(m.body.entries(), id.0)) as u32)
}

/// The body's edges between the clones.
pub open spec fn cloned_body_edges(m: IRMacro, base: nat) -> Seq<IREdge> {
    m.body.edge_list().map_values(
        |e: IREdge|
            IREdge {
                source: remap(m, base, e.source),
                source_port: e.source_port,
                sink: remap(m, base, e.sink),
                sink_port: e.sink_port,
            },
    )
}

/// Edge `from` redirected to each body port that virtual input `x` feeds.
pub open spec fn to_targets(m: IRMacro, base: nat, from: IREdge, x: int) -> Seq<IREdge> {
    m.virtual_input_map@[x].1@.map_values(
        |t: (NodeId, Port)|
            IREdge { source: from.source, source_port: from.source_port, sink: remap(m, base, t.0), sink_port: t.1 },
    )
}

/// What an edge into the macro reference becomes: a named or numbered
/// virtual input leads to the body ports it feeds, an omitted port to those
/// of the first virtual input; any other port goes to the new sink.
pub open spec fn rewired_in(m: IRMacro, base: nat, new_sink: NodeId, e: IREdge) -> Seq<IREdge> {
    let into_sink = seq![IREdge { source: e.source, source_port: e.source_port, sink: new_sink, sink_port: e.sink_port }];
    match e.sink_port {
        Port::Named(name) => {
            let x = first_pos(virtual_names(m), name@);
            if x >= 0 {
                to_targets(m, base, e, x)
            } else {
                into_sink
            }
        },
        Port::Index(i) => if i < m.virtual_input_map@.len() {
            to_targets(m, base, e, i as int)
        } else {
            into_sink
        },
        Port::Omitted => if m.virtual_input_map@.len() > 0 {
            to_targets(m, base, e, 0)
        } else {
            into_sink
        },
        _ => Seq::empty(),
    }
}

/// All incoming edges rewired, in order.
pub open spec fn all_rewired_in(m: IRMacro, base: nat, new_sink: NodeId, inc: Seq<IREdge>) -> Seq<IREdge>
    decreases inc.len(),
{
    if inc.len() == 0 {
        Seq::empty()
    } else {
        all_rewired_in(m, base, new_sink, inc.drop_last()) + rewired_in(m, base, new_sink, inc.last())
    }
}

/// The outgoing edges, now leaving the new sink.
pub open spec fn rewired_out(new_sink: NodeId, out: Seq<IREdge>) -> Seq<IREdge> {
    out.map_values(
        |e: IREdge| IREdge { source: new_sink, source_port: e.source_port, sink: e.sink, sink_port: e.sink_port },
    )
}

/// An edge that addresses a virtual input by slice or stride.
pub open spec fn sliced_into(e: IREdge) -> bool {
    e.sink_port is Slice || e.sink_port is Stride
}

/// Node `n` is the clone, under id `id`, of body node `d` of `m` for the
/// instance `prefix`, its templates filled from `resolved`.
pub open spec fn cloned_node(m: IRMacro, d: int, prefix: Seq<char>, resolved: Seq<(String, crate::ir::Value)>, id: NodeId, n: IRNode) -> bool {
    let b = m.body.entries()[d].1;
    &&& n.id == id
    &&& n.kind == b.kind
    &&& n.namespace == b.namespace
    &&& n.node_type == b.node_type
    &&& n.alias@ == prefix + "."@ + b.alias@
    &&& n.params@.len() == b.params@.len()
    &&& forall|j: int| 0 <= j < b.params@.len() ==> (#[trigger] n.params@[j]).0@ == b.params@[j].0@ && substituted(
        b.params@[j].1,
        resolved,
        n.params@[j].1,
    )
    &&& n.pipes@.len() == b.pipes@.len()
    &&& forall|j: int| 0 <= j < b.pipes@.len() ==> copied_pipe(b.pipes@[j], #[trigger] n.pipes@[j])
}


/// The edges of `g` that end at `id`, in order.
pub open spec fn incoming(g: IRGraph, id: NodeId) -> Seq<IREdge> {
    g.edge_list().filter(|e: IREdge| e.sink == id)
}

/// The edges of `g` that start at `id`, in order.
pub open spec fn outgoing(g: IRGraph, id: NodeId) -> Seq<IREdge> {
    g.edge_list().filter(|e: IREdge| e.source == id)
}

fn edges_touching(graph: &IRGraph, id: NodeId, into: bool) -> (r: Vec<IREdge>)
    ensures
        into ==> r@ == incoming(*graph, id),
        !into ==> r@ == outgoing(*graph, id),
{
    let edges = graph.edges();
    let ghost keep = if into { |e: IREdge| e.sink == id } else { |e: IREdge| e.source == id };
    let mut r: Vec<IREdge> = Vec::new();
    let mut i: usize = 0;
    while i < edges.len()
        invariant
            edges@ == graph.edge_list(),
            i <= edges@.len(),
            r@ == edges@.take(i as int).filter(keep),
            keep == (if into { |e: IREdge| e.sink == id } else { |e: IREdge| e.source == id }),
        decreases edges.len() - i,
    {
        proof {
            reveal_with_fuel(Seq::<_>::filter, 1);
            assert(edges@.take(i + 1).drop_last() =~= edges@.take(i as int));
        }
        let hit = if into { edges[i].sink == id } else { edges[i].source == id };
        if hit {
            r.push(copy_edge(&edges[i]));
        }
        i = i + 1;
    }
    assert(edges@.take(i as int) =~= edges@);
    r
}

/// Add a clone of each body node of `m`, under the alias prefix `prefix`
/// and with templates filled from `resolved`, then the body's edges between
/// the clones. Returns the clones' ids in declaration order.
fn clone_body(graph: &mut IRGraph, m: &IRMacro, prefix: &String, resolved: &Object) -> (ids: Vec<NodeId>)
    requires
        old(graph).wf(),
        macro_joined(*m),
        old(graph).next_id() + m.body.entries().len() < u32::MAX,
    ensures
        final(graph).wf(),
        ids@.len() == m.body.entries().len(),
        forall|d: int| 0 <= d < ids@.len() ==> #[trigger] ids@[d] == NodeId((old(graph).next_id() + d) as u32),
        final(graph).entries().len() == old(graph).entries().len() + m.body.entries().len(),
        final(graph).entries().take(old(graph).entries().len() as int) == old(graph).entries(),
        forall|d: int| 0 <= d < m.body.entries().len() ==> {
            let e = #[trigger] final(graph).entries()[old(graph).entries().len() + d];
            &&& e.0 == old(graph).next_id() + d
            &&& cloned_node(*m, d, prefix@, resolved@, NodeId((old(graph).next_id() + d) as u32), e.1)
        },
        final(graph).next_id() == old(graph).next_id() + m.body.entries().len(),
        final(graph).edge_list() == old(graph).edge_list() + cloned_body_edges(*m, old(graph).next_id()),
        final(graph).sink_node() == old(graph).sink_node(),
        final(graph).source_node() == old(graph).source_node(),
{
    let n = m.body.node_count();
    let ghost base = old(graph).next_id();
    let ghost e0 = old(graph).entries();
    let mut ids: Vec<NodeId> = Vec::new();
    let mut d: usize = 0;
    while d < n
        invariant
            n == m.body.entries().len(),
            d <= n,
            graph.wf(),
            macro_joined(*m),
            base + n < u32::MAX,
            graph.next_id() == base + d,
            ids@.len() == d,
            forall|j: int| 0 <= j < d ==> #[trigger] ids@[j] == NodeId((base + j) as u32),
            graph.entries().len() == e0.len() + d,
            graph.entries().take(e0.len() as int) == e0,
            forall|j: int| 0 <= j < d ==> {
                let e = #[trigger] graph.entries()[e0.len() + j];
                &&& e.0 == base + j
                &&& cloned_node(*m, j, prefix@, resolved@, NodeId((base + j) as u32), e.1)
            },
            graph.edge_list() == old(graph).edge_list(),
            graph.sink_node() == old(graph).sink_node(),
            graph.source_node() == old(graph).source_node(),
        decreases n - d,
    {
        let b = m.body.node_at(d);
        let mut alias = prefix.clone();
        push_str(&mut alias, ".");
        push_str(&mut alias, b.alias.as_str());
        let params = b.params.substitute_templates(resolved);
        let pipes = duplicate_pipes(&b.pipes);
        let ghost before = graph.entries();
        let id = graph.add_node(b.kind, b.namespace.clone(), b.node_type.clone(), alias, params, pipes);
        ids.push(id);
        proof {
            assert(graph.entries() == before.push((id.0, IRNode { id, kind: b.kind, namespace: b.namespace, node_type: b.node_type, alias, params, pipes })));
            assert forall|j: int| 0 <= j < d + 1 implies {
                let e = #[trigger] graph.entries()[e0.len() + j];
                &&& e.0 == base + j
                &&& cloned_node(*m, j, prefix@, resolved@, NodeId((base + j) as u32), e.1)
            } by {
                if j < d {
                    assert(graph.entries()[e0.len() + j] == before[e0.len() + j]);
                } else {
                    assert(alias@ =~= prefix@ + "."@ + b.alias@);
                }
            }
            assert(graph.entries().take(e0.len() as int) =~= e0) by {
                assert(before.take(e0.len() as int) == e0);
            }
        }
        d = d + 1;
    }
    let ghost e1 = graph.entries();
    let body_ids = crate::plan::collect_ids(&m.body);
    let edges = m.body.edges();
    let mut i: usize = 0;
    while i < edges.len()
        invariant
            n == m.body.entries().len(),
            macro_joined(*m),
            body_ids@ == m.body.keys(),
            edges@ == m.body.edge_list(),
            i <= edges@.len(),
            graph.wf(),
            ids@.len() == n,
            forall|j: int| 0 <= j < n ==> #[trigger] ids@[j] == NodeId((base + j) as u32),
            graph.edge_list() == old(graph).edge_list() + cloned_body_edges(*m, base).take(i as int),
            graph.entries() == e1,
            graph.next_id() == base + n,
            graph.sink_node() == old(graph).sink_node(),
            graph.source_node() == old(graph).source_node(),
        decreases edges.len() - i,
    {
        let e = &edges[i];
        assert(m.body.keys().contains(edges@[i as int].source.0) && m.body.keys().contains(edges@[i as int].sink.0));
        let s = crate::plan::decl_of(&body_ids, e.source);
        let t = crate::plan::decl_of(&body_ids, e.sink);
        proof {
            m.body.lemma_keys_unique();
            m.body.lemma_entry_id(s as int);
            m.body.lemma_entry_id(t as int);
            crate::plan::lemma_key_position_of(m.body.entries(), m.body.keys(), s as int);
            crate::plan::lemma_key_position_of(m.body.entries(), m.body.keys(), t as int);
        }
        let ghost before = graph.edge_list();
        graph.connect(ids[s], e.source_port.duplicate(), ids[t], e.sink_port.duplicate());
        proof {
            assert(cloned_body_edges(*m, base).take(i as int + 1) =~= cloned_body_edges(*m, base).take(i as int).push(
                cloned_body_edges(*m, base)[i as int],
            ));
        }
        i = i + 1;
    }
    assert(cloned_body_edges(*m, base).take(i as int) =~= cloned_body_edges(*m, base));
    ids
}


/// The message for a sliced or strided edge into a virtual input.
pub open spec fn sliced_text(macro_type: Seq<char>) -> Seq<char> {
    "slice and stride ports are not supported on the virtual ports of patch '"@ + macro_type + "'"@
}

/// The message for a macro reference whose macro is not registered.
pub open spec fn unregistered_text(macro_type: Seq<char>) -> Seq<char> {
    "macro '"@ + macro_type + "' is not in the registry"@
}

fn connect_to_targets(
    graph: &mut IRGraph,
    m: &IRMacro,
    ids: &Vec<NodeId>,
    body_ids: &Vec<u32>,
    e: &IREdge,
    x: usize,
    Ghost(base): Ghost<nat>,
)
    requires
        macro_joined(*m),
        body_ids@ == m.body.keys(),
        x < m.virtual_input_map@.len(),
        ids@.len() == m.body.entries().len(),
        forall|j: int| 0 <= j < ids@.len() ==> #[trigger] ids@[j] == NodeId((base + j) as u32),
    ensures
        final(graph).edge_list() == old(graph).edge_list() + to_targets(*m, base, *e, x as int),
        final(graph).entries() == old(graph).entries(),
        final(graph).next_id() == old(graph).next_id(),
        final(graph).wf() == old(graph).wf(),
        final(graph).sink_node() == old(graph).sink_node(),
        final(graph).source_node() == old(graph).source_node(),
{
    let targets = &m.virtual_input_map[x].1;
    let mut t: usize = 0;
    while t < targets.len()
        invariant
            macro_joined(*m),
            body_ids@ == m.body.keys(),
            x < m.virtual_input_map@.len(),
            *targets == m.virtual_input_map@[x as int].1,
            ids@.len() == m.body.entries().len(),
            forall|j: int| 0 <= j < ids@.len() ==> #[trigger] ids@[j] == NodeId((base + j) as u32),
            t <= targets@.len(),
            graph.edge_list() == old(graph).edge_list() + to_targets(*m, base, *e, x as int).take(t as int),
            graph.entries() == old(graph).entries(),
            graph.next_id() == old(graph).next_id(),
            graph.wf() == old(graph).wf(),
            graph.sink_node() == old(graph).sink_node(),
            graph.source_node() == old(graph).source_node(),
        decreases targets.len() - t,
    {
        let (tid, tport) = &targets[t];
        assert(m.body.keys().contains(m.virtual_input_map@[x as int].1@[t as int].0.0));
        let d = crate::plan::decl_of(body_ids, *tid);
        proof {
            m.body.lemma_keys_unique();
            m.body.lemma_entry_id(d as int);
            crate::plan::lemma_key_position_of(m.body.entries(), m.body.keys(), d as int);
        }
        graph.connect(e.source, e.source_port.duplicate(), ids[d], tport.duplicate());
        proof {
            assert(to_targets(*m, base, *e, x as int).take(t as int + 1) =~= to_targets(*m, base, *e, x as int).take(t as int).push(
                to_targets(*m, base, *e, x as int)[t as int],
            ));
        }
        t = t + 1;
    }
    assert(to_targets(*m, base, *e, x as int).take(t as int) =~= to_targets(*m, base, *e, x as int));
}

/// Rewire the edges that reached the macro reference, in order.
fn connect_incoming(
    graph: &mut IRGraph,
    m: &IRMacro,
    ids: &Vec<NodeId>,
    new_sink: NodeId,
    inc: &Vec<IREdge>,
    macro_type: &str,
    Ghost(base): Ghost<nat>,
) -> (r: Result<(), ValidationError>)
    requires
        macro_joined(*m),
        ids@.len() == m.body.entries().len(),
        forall|j: int| 0 <= j < ids@.len() ==> #[trigger] ids@[j] == NodeId((base + j) as u32),
    ensures
        final(graph).entries() == old(graph).entries(),
        final(graph).next_id() == old(graph).next_id(),
        final(graph).wf() == old(graph).wf(),
        final(graph).sink_node() == old(graph).sink_node(),
        final(graph).source_node() == old(graph).source_node(),
        r is Ok <==> forall|i: int| 0 <= i < inc@.len() ==> !sliced_into(#[trigger] inc@[i]),
        r is Ok ==> final(graph).edge_list() == old(graph).edge_list() + all_rewired_in(*m, base, new_sink, inc@),
        r matches Err(err) ==> err == ValidationError::Expansion(err->Expansion_0) && err->Expansion_0@ == sliced_text(macro_type@),
{
    let body_ids = crate::plan::collect_ids(&m.body);
    let mut i: usize = 0;
    while i < inc.len()
        invariant
            macro_joined(*m),
            body_ids@ == m.body.keys(),
            ids@.len() == m.body.entries().len(),
            forall|j: int| 0 <= j < ids@.len() ==> #[trigger] ids@[j] == NodeId((base + j) as u32),
            i <= inc@.len(),
            forall|j: int| 0 <= j < i ==> !sliced_into(#[trigger] inc@[j]),
            graph.edge_list() == old(graph).edge_list() + all_rewired_in(*m, base, new_sink, inc@.take(i as int)),
            graph.entries() == old(graph).entries(),
            graph.next_id() == old(graph).next_id(),
            graph.wf() == old(graph).wf(),
            graph.sink_node() == old(graph).sink_node(),
            graph.source_node() == old(graph).source_node(),
        decreases inc.len() - i,
    {
        let e = &inc[i];
        let ghost before = graph.edge_list();
        proof {
            assert(inc@.take(i as int + 1).drop_last() =~= inc@.take(i as int));
            assert(inc@.take(i as int + 1).last() == inc@[i as int]);
        }
        match &e.sink_port {
            Port::Named(name) => {
                match find_virtual(m, name.as_str()) {
                    Some(x) => connect_to_targets(graph, m, ids, &body_ids, e, x, Ghost(base)),
                    None => graph.connect(e.source, e.source_port.duplicate(), new_sink, e.sink_port.duplicate()),
                }
            },
            Port::Index(k) => {
                if *k < m.virtual_input_map.len() {
                    connect_to_targets(graph, m, ids, &body_ids, e, *k, Ghost(base));
                } else {
                    graph.connect(e.source, e.source_port.duplicate(), new_sink, e.sink_port.duplicate());
                }
            },
            Port::Omitted => {
                if m.virtual_input_map.len() > 0 {
                    connect_to_targets(graph, m, ids, &body_ids, e, 0, Ghost(base));
                } else {
                    graph.connect(e.source, e.source_port.duplicate(), new_sink, Port::Omitted);
                }
            },
            _ => {
                let mut msg = String::new();
                push_str(&mut msg, "slice and stride ports are not supported on the virtual ports of patch '");
                push_str(&mut msg, macro_type);
                push_str(&mut msg, "'");
                assert(msg@ =~= sliced_text(macro_type@));
                assert(sliced_into(inc@[i as int]));
                return Err(ValidationError::Expansion(msg));
            },
        }
        proof {
            assert(graph.edge_list() =~= before + rewired_in(*m, base, new_sink, inc@[i as int]));
        }
        i = i + 1;
    }
    assert(inc@.take(i as int) =~= inc@);
    Ok(())
}


/// `resolved` holds exactly the params that the macro declares or the
/// reference sets.
pub open spec fn resolved_from(m: IRMacro, node: IRNode, resolved: Object) -> bool {
    forall|k: Seq<char>|
        #![trigger has_param(resolved@, k)]
        has_param(resolved@, k) <==> (match m.default_params {
            Some(d) => has_param(d@, k),
            None => false,
        }) || has_param(node.params@, k)
}

/// The graph after a successful expansion of `node_id` into `m`.
pub open spec fn expanded(old_g: IRGraph, g: IRGraph, node_id: NodeId, m: IRMacro) -> bool {
    let e0 = old_g.entries();
    let i0 = key_position(e0, node_id.0)->0;
    let node = e0[i0].1;
    let base = old_g.next_id();
    let new_sink = remap(m, base, m.sink);
    let e1 = e0.update(i0, e0.last()).drop_last();
    &&& g.entries().len() == e1.len() + m.body.entries().len()
    &&& g.entries().take(e1.len() as int) == e1
    &&& exists|resolved: Object|
        #[trigger] resolved_from(m, node, resolved) && forall|d: int|
            0 <= d < m.body.entries().len() ==> {
                let e = #[trigger] g.entries()[e1.len() + d];
                &&& e.0 == base + d
                &&& cloned_node(m, d, node.alias@, resolved@, NodeId((base + d) as u32), e.1)
            }
    &&& g.edge_list() == old_g.edge_list().filter(|e: IREdge| edge_avoids(e, node_id)) + cloned_body_edges(m, base)
        + all_rewired_in(m, base, new_sink, incoming(old_g, node_id)) + rewired_out(new_sink, outgoing(old_g, node_id))
    &&& g.sink_node() == (if old_g.sink_node() == Some(node_id) { Some(new_sink) } else { old_g.sink_node() })
    &&& g.source_node() == (if old_g.source_node() == Some(node_id) { Some(new_sink) } else { old_g.source_node() })
    &&& g.next_id() == base + m.body.entries().len()
}

impl MacroExpansionPass {
    /// Replace the macro reference `node_id` by a clone of its macro's body
    /// from `registry`: each body node under the alias `<reference>.<node>`
    /// with templates filled from the macro's defaults overridden by the
    /// reference's params, the body's edges between the clones, each edge
    /// into the reference led to the body ports its virtual input feeds, and
    /// each edge out of it leaving the clone of the body's sink, which also
    /// takes the reference's place as the graph's sink or source.
    pub fn expand_macro(&self, graph: &mut IRGraph, registry: &Vec<IRMacro>, node_id: NodeId) -> (r: Result<(), ValidationError>)
        requires
            old(graph).wf(),
            key_position(old(graph).entries(), node_id.0) is Some,
            forall|j: int| 0 <= j < registry@.len() ==> macro_joined(#[trigger] registry@[j]),
            forall|j: int| 0 <= j < registry@.len() ==> old(graph).next_id() + (#[trigger] registry@[j]).body.entries().len() < u32::MAX,
        ensures
            final(graph).wf(),
            ({
                let node = old(graph).entries()[key_position(old(graph).entries(), node_id.0)->0].1;
                let j = first_pos(macro_names(registry@), node.node_type@);
                &&& j == -1 ==> (r matches Err(ValidationError::NodeNotFound(msg)) && msg@ == unregistered_text(node.node_type@)
                    && *final(graph) == *old(graph))
                &&& j >= 0 ==> (r is Ok <==> forall|i: int| 0 <= i < incoming(*old(graph), node_id).len() ==> !sliced_into(
                    #[trigger] incoming(*old(graph), node_id)[i],
                ))
                &&& j >= 0 ==> (r matches Err(err) ==> err == ValidationError::Expansion(err->Expansion_0)
                    && err->Expansion_0@ == sliced_text(node.node_type@))
                &&& r is Ok ==> expanded(*old(graph), *final(graph), node_id, registry@[j])
                &&& r is Ok ==> forall|i: int|
                    0 <= i < outgoing(*old(graph), node_id).len() ==> {
                        let e = #[trigger] final(graph).edge_list()[final(graph).edge_list().len()
                            - outgoing(*old(graph), node_id).len() + i];
                        let o = outgoing(*old(graph), node_id)[i];
                        &&& e.source == remap(registry@[j], old(graph).next_id(), registry@[j].sink)
                        &&& e.source_port == o.source_port
                        &&& e.sink == o.sink
                        &&& e.sink_port == o.sink_port
                    }
                &&& r is Ok ==> forall|i: int, t: int|
                    #![trigger input_target(registry@[j], incoming(*old(graph), node_id)[i].sink_port, t)]
                    0 <= i < incoming(*old(graph), node_id).len()
                        && addressed_input(registry@[j], incoming(*old(graph), node_id)[i].sink_port) >= 0
                        && 0 <= t < registry@[j].virtual_input_map@[addressed_input(
                            registry@[j],
                            incoming(*old(graph), node_id)[i].sink_port,
                        )].1@.len() ==> exists|k: int| 0 <= k < final(graph).edge_list().len() && {
                        let e = #[trigger] final(graph).edge_list()[k];
                        let o = incoming(*old(graph), node_id)[i];
                        let target = input_target(registry@[j], o.sink_port, t);
                        &&& e.source == o.source
                        &&& e.source_port == o.source_port
                        &&& e.sink == remap(registry@[j], old(graph).next_id(), target.0)
                        &&& e.sink_port == target.1
                    }
                &&& r is Ok ==> forall|i: int|
                    0 <= i < incoming(*old(graph), node_id).len()
                        && addressed_input(registry@[j], incoming(*old(graph), node_id)[i].sink_port) < 0
                        ==> exists|k: int| 0 <= k < final(graph).edge_list().len() && {
                        let e = #[trigger] final(graph).edge_list()[k];
                        let o = incoming(*old(graph), node_id)[i];
                        &&& e.source == o.source
                        &&& e.source_port == o.source_port
                        &&& e.sink == remap(registry@[j], old(graph).next_id(), registry@[j].sink)
                        &&& e.sink_port == o.sink_port
                    }
            }),
    {
        let ghost g0 = *graph;
        let ghost i0 = key_position(g0.entries(), node_id.0)->0;
        let node = graph.get_node(node_id).unwrap();
        let node_type = node.node_type.clone();
        let alias = node.alias.clone();
        let nparams = node.params.duplicate();
        let ghost gnode = *node;
        let j = match find_macro(registry, node_type.as_str()) {
            Some(j) => j,
            None => {
                let mut msg = String::new();
                push_str(&mut msg, "macro '");
                push_str(&mut msg, node_type.as_str());
                push_str(&mut msg, "' is not in the registry");
                assert(msg@ =~= unregistered_text(gnode.node_type@));
                return Err(ValidationError::NodeNotFound(msg));
            },
        };
        proof {
            lemma_first_pos(macro_names(registry@), gnode.node_type@);
        }
        let m = &registry[j];
        let resolved = match &m.default_params {
            Some(d) => d.overridden_by(&nparams),
            None => Object::new().overridden_by(&nparams),
        };
        proof {
            assert forall|k: Seq<char>| #![trigger has_param(resolved@, k)] has_param(resolved@, k) <==> (match m.default_params {
                Some(d) => has_param(d@, k),
                None => false,
            }) || has_param(gnode.params@, k) by {
                if has_param(nparams@, k) {
                    let a = choose|a: int| 0 <= a < nparams@.len() && (#[trigger] nparams@[a]).0@ == k;
                    assert(gnode.params@[a].0@ == k);
                }
                if has_param(gnode.params@, k) {
                    let a = choose|a: int| 0 <= a < gnode.params@.len() && (#[trigger] gnode.params@[a]).0@ == k;
                    assert(nparams@[a].0@ == k);
                }
            }
            assert(resolved_from(*m, gnode, resolved));
        }
        let inc = edges_touching(graph, node_id, true);
        let out = edges_touching(graph, node_id, false);
        graph.remove_node(node_id);
        let ghost g1 = *graph;
        let ghost base = g1.next_id();
        let ids = clone_body(graph, m, &alias, &resolved);
        let ghost g2 = *graph;
        let body_ids = crate::plan::collect_ids(&m.body);
        let sd = crate::plan::decl_of(&body_ids, m.sink);
        proof {
            m.body.lemma_keys_unique();
            m.body.lemma_entry_id(sd as int);
            crate::plan::lemma_key_position_of(m.body.entries(), m.body.keys(), sd as int);
        }
        let new_sink = ids[sd];
        match connect_incoming(graph, m, &ids, new_sink, &inc, node_type.as_str(), Ghost(base)) {
            Ok(()) => {},
            Err(e) => return Err(e),
        }
        let ghost g3 = *graph;
        let mut i: usize = 0;
        while i < out.len()
            invariant
                i <= out@.len(),
                graph.wf(),
                graph.edge_list() == g3.edge_list() + rewired_out(new_sink, out@.take(i as int)),
                graph.entries() == g3.entries(),
                graph.next_id() == g3.next_id(),
                graph.sink_node() == g3.sink_node(),
                graph.source_node() == g3.source_node(),
            decreases out.len() - i,
        {
            let e = &out[i];
            graph.connect(new_sink, e.source_port.duplicate(), e.sink, e.sink_port.duplicate());
            proof {
                assert(rewired_out(new_sink, out@.take(i as int + 1)) =~= rewired_out(new_sink, out@.take(i as int)).push(
                    rewired_out(new_sink, out@)[i as int],
                ));
            }
            i = i + 1;
        }
        assert(out@.take(i as int) =~= out@);
        let sink = match graph.sink_id() {
            Some(s) => if s == node_id { Some(new_sink) } else { Some(s) },
            None => None,
        };
        let source = match graph.source_id() {
            Some(s) => if s == node_id { Some(new_sink) } else { Some(s) },
            None => None,
        };
        graph.set_ends(sink, source);
        proof {
            assert(expanded(g0, *graph, node_id, *m));
            lemma_expansion_keeps_outgoing(g0, *graph, node_id, *m);
            lemma_expansion_keeps_incoming(g0, *graph, node_id, *m);
            assert forall|i: int| 0 <= i < incoming(g0, node_id).len() implies !sliced_into(#[trigger] incoming(g0, node_id)[i]) by {}
        }
        Ok(())
    }
}


/// Each edge out of an expanded reference reappears, in order, at the end of
/// the edge list: it now leaves the clone of the body's sink, with its output
/// port, its sink and its sink's port unchanged.
pub proof fn lemma_expansion_keeps_outgoing(old_g: IRGraph, g: IRGraph, node_id: NodeId, m: IRMacro)
    requires
        expanded(old_g, g, node_id, m),
    ensures
        g.edge_list().len() >= outgoing(old_g, node_id).len(),
        forall|i: int|
            0 <= i < outgoing(old_g, node_id).len() ==> {
                let e = #[trigger] g.edge_list()[g.edge_list().len() - outgoing(old_g, node_id).len() + i];
                let o = outgoing(old_g, node_id)[i];
                &&& e.source == remap(m, old_g.next_id(), m.sink)
                &&& e.source_port == o.source_port
                &&& e.sink == o.sink
                &&& e.sink_port == o.sink_port
            },
{
    let out = outgoing(old_g, node_id);
    let new_sink = remap(m, old_g.next_id(), m.sink);
    let front = old_g.edge_list().filter(|e: IREdge| edge_avoids(e, node_id)) + cloned_body_edges(m, old_g.next_id())
        + all_rewired_in(m, old_g.next_id(), new_sink, incoming(old_g, node_id));
    let back = rewired_out(new_sink, out);
    assert(g.edge_list() == front + back);
    assert forall|i: int| 0 <= i < out.len() implies (#[trigger] g.edge_list()[g.edge_list().len() - out.len() + i]) == back[i] by {
        assert(g.edge_list().len() - out.len() + i == front.len() + i);
    }
}

/// The virtual input an edge into the reference addresses by its sink port:
/// a named input, a numbered one, or the first for an omitted port; `-1`
/// where the port addresses none.
pub open spec fn addressed_input(m: IRMacro, port: Port) -> int {
    match port {
        Port::Named(name) => first_pos(virtual_names(m), name@),
        Port::Index(i) => if i < m.virtual_input_map@.len() { i as int } else { -1 },
        Port::Omitted => if m.virtual_input_map@.len() > 0 { 0 } else { -1 },
        _ => -1,
    }
}

/// The `t`-th body port fed by the virtual input that `port` addresses.
pub open spec fn input_target(m: IRMacro, port: Port, t: int) -> (NodeId, Port) {
    m.virtual_input_map@[addressed_input(m, port)].1@[t]
}

proof fn lemma_all_rewired_in_holds(m: IRMacro, base: nat, new_sink: NodeId, inc: Seq<IREdge>, i: int, y: int)
    requires
        0 <= i < inc.len(),
        0 <= y < rewired_in(m, base, new_sink, inc[i]).len(),
    ensures
        exists|k: int| 0 <= k < all_rewired_in(m, base, new_sink, inc).len()
            && #[trigger] all_rewired_in(m, base, new_sink, inc)[k] == rewired_in(m, base, new_sink, inc[i])[y],
    decreases inc.len(),
{
    let front = all_rewired_in(m, base, new_sink, inc.drop_last());
    let whole = all_rewired_in(m, base, new_sink, inc);
    assert(whole == front + rewired_in(m, base, new_sink, inc.last()));
    if i == inc.len() - 1 {
        assert(whole[front.len() + y] == rewired_in(m, base, new_sink, inc[i])[y]);
    } else {
        assert(inc.drop_last()[i] == inc[i]);
        lemma_all_rewired_in_holds(m, base, new_sink, inc.drop_last(), i, y);
        let k = choose|k: int| 0 <= k < front.len() && #[trigger] front[k] == rewired_in(m, base, new_sink, inc[i])[y];
        assert(whole[k] == front[k]);
    }
}

/// Each edge into an expanded reference that addresses a virtual input
/// reappears once for every body port that input feeds, from the same
/// source and output port, into the clone of that body node at that port;
/// one that addresses no virtual input goes, unchanged but for its sink, to
/// the clone of the body's sink.
pub proof fn lemma_expansion_keeps_incoming(old_g: IRGraph, g: IRGraph, node_id: NodeId, m: IRMacro)
    requires
        expanded(old_g, g, node_id, m),
    ensures
        forall|i: int, t: int|
            #![trigger input_target(m, incoming(old_g, node_id)[i].sink_port, t)]
            0 <= i < incoming(old_g, node_id).len() && !sliced_into(incoming(old_g, node_id)[i])
                && addressed_input(m, incoming(old_g, node_id)[i].sink_port) >= 0
                && 0 <= t < m.virtual_input_map@[addressed_input(m, incoming(old_g, node_id)[i].sink_port)].1@.len()
                ==> exists|k: int| 0 <= k < g.edge_list().len() && {
                    let e = #[trigger] g.edge_list()[k];
                    let o = incoming(old_g, node_id)[i];
                    let target = input_target(m, o.sink_port, t);
                    &&& e.source == o.source
                    &&& e.source_port == o.source_port
                    &&& e.sink == remap(m, old_g.next_id(), target.0)
                    &&& e.sink_port == target.1
                },
        forall|i: int|
            0 <= i < incoming(old_g, node_id).len() && !sliced_into(incoming(old_g, node_id)[i])
                && addressed_input(m, incoming(old_g, node_id)[i].sink_port) < 0
                ==> exists|k: int| 0 <= k < g.edge_list().len() && {
                    let e = #[trigger] g.edge_list()[k];
                    let o = incoming(old_g, node_id)[i];
                    &&& e.source == o.source
                    &&& e.source_port == o.source_port
                    &&& e.sink == remap(m, old_g.next_id(), m.sink)
                    &&& e.sink_port == o.sink_port
                },
{
    let inc = incoming(old_g, node_id);
    let base = old_g.next_id();
    let new_sink = remap(m, base, m.sink);
    let front = old_g.edge_list().filter(|e: IREdge| edge_avoids(e, node_id)) + cloned_body_edges(m, base);
    let mid = all_rewired_in(m, base, new_sink, inc);
    let back = rewired_out(new_sink, outgoing(old_g, node_id));
    assert(g.edge_list() == front + mid + back);
    assert forall|i: int, t: int|
        #![trigger input_target(m, inc[i].sink_port, t)]
        0 <= i < inc.len() && !sliced_into(inc[i]) && addressed_input(m, inc[i].sink_port) >= 0
            && 0 <= t < m.virtual_input_map@[addressed_input(m, inc[i].sink_port)].1@.len()
        implies exists|k: int| 0 <= k < g.edge_list().len() && {
            let e = #[trigger] g.edge_list()[k];
            let o = inc[i];
            let target = input_target(m, o.sink_port, t);
            &&& e.source == o.source
            &&& e.source_port == o.source_port
            &&& e.sink == remap(m, base, target.0)
            &&& e.sink_port == target.1
        } by {
        let o = inc[i];
        let x = addressed_input(m, o.sink_port);
        assert(rewired_in(m, base, new_sink, o) == to_targets(m, base, o, x));
        lemma_all_rewired_in_holds(m, base, new_sink, inc, i, t);
        let k = choose|k: int| 0 <= k < mid.len() && #[trigger] mid[k] == rewired_in(m, base, new_sink, o)[t];
        assert(g.edge_list()[front.len() + k] == mid[k]);
    }
    assert forall|i: int|
        0 <= i < inc.len() && !sliced_into(inc[i]) && addressed_input(m, inc[i].sink_port) < 0
        implies exists|k: int| 0 <= k < g.edge_list().len() && {
            let e = #[trigger] g.edge_list()[k];
            let o = inc[i];
            &&& e.source == o.source
            &&& e.source_port == o.source_port
            &&& e.sink == new_sink
            &&& e.sink_port == o.sink_port
        } by {
        let o = inc[i];
        assert(rewired_in(m, base, new_sink, o) == seq![IREdge { source: o.source, source_port: o.source_port, sink: new_sink, sink_port: o.sink_port }]);
        lemma_all_rewired_in_holds(m, base, new_sink, inc, i, 0);
        let k = choose|k: int| 0 <= k < mid.len() && #[trigger] mid[k] == rewired_in(m, base, new_sink, o)[0];
        assert(g.edge_list()[front.len() + k] == mid[k]);
    }
}

/// The expansion depth past which references are taken to be mutually
/// recursive.
pub const MAXIMUM_DEPTH: u8 = 16;

/// Expanding a macro reference leaves no node under the reference's id.
pub proof fn lemma_expansion_removes_reference(old_g: IRGraph, g: IRGraph, node_id: NodeId, m: IRMacro)
    requires
        old_g.wf(),
        key_position(old_g.entries(), node_id.0) is Some,
        expanded(old_g, g, node_id, m),
    ensures
        key_position(g.entries(), node_id.0) is None,
{
    let e0 = old_g.entries();
    let i0 = key_position(e0, node_id.0)->0;
    let e1 = e0.update(i0, e0.last()).drop_last();
    old_g.lemma_keys_unique();
    old_g.lemma_keys_below_next();
    let w = choose|w: int| 0 <= w < e0.len() && (#[trigger] e0[w]).0 == node_id.0;
    assert(e0[w].0 == node_id.0);
    assert(e0[i0].0 == node_id.0);
    if key_position(g.entries(), node_id.0) is Some {
        let p = choose|p: int| 0 <= p < g.entries().len() && (#[trigger] g.entries()[p]).0 == node_id.0;
        if p < e1.len() {
            assert(g.entries()[p] == g.entries().take(e1.len() as int)[p]);
            let q = if p == i0 { e0.len() - 1 } else { p };
            assert(e1[p] == e0[q]);
            assert(q != i0);
        } else {
            let d = p - e1.len();
            assert(g.entries()[e1.len() + d].0 == old_g.next_id() + d);
            assert(e0[i0].0 < old_g.next_id());
        }
    }
}

/// Removing node `id` and appending nodes keeps every other node.
proof fn lemma_others_kept(e0: Seq<(u32, IRNode)>, e1: Seq<(u32, IRNode)>, e2: Seq<(u32, IRNode)>, i0: int, k: u32)
    requires
        0 <= i0 < e0.len(),
        e1 == e0.update(i0, e0.last()).drop_last(),
        e2.len() >= e1.len(),
        e2.take(e1.len() as int) == e1,
        key_position(e0, k) is Some,
        e0[i0].0 != k,
    ensures
        key_position(e2, k) is Some,
{
    let p = choose|p: int| 0 <= p < e0.len() && (#[trigger] e0[p]).0 == k;
    let q = if p == e0.len() - 1 { i0 } else { p };
    assert(e1[q] == e0[p]);
    assert(e2[q] == e2.take(e1.len() as int)[q]);
    assert(e2[q].0 == k);
}

/// The ids of the macro references in `g`, in the graph's order.
fn macro_ids(g: &IRGraph) -> (r: Vec<NodeId>)
    requires
        g.wf(),
    ensures
        forall|i: int| 0 <= i < r@.len() ==> key_position(g.entries(), (#[trigger] r@[i]).0) is Some,
        forall|i: int, j: int| 0 <= i < j < r@.len() ==> r@[i] != r@[j],
{
    let n = g.node_count();
    let mut r: Vec<NodeId> = Vec::new();
    let mut k: usize = 0;
    while k < n
        invariant
            g.wf(),
            n == g.entries().len(),
            k <= n,
            forall|i: int| 0 <= i < r@.len() ==> exists|p: int| 0 <= p < k && (#[trigger] g.entries()[p]).0 == (#[trigger] r@[i]).0,
            forall|i: int, j: int| 0 <= i < j < r@.len() ==> r@[i] != r@[j],
        decreases n - k,
    {
        let node = g.node_at(k);
        proof {
            g.lemma_entry_id(k as int);
            g.lemma_keys_unique();
        }
        if node.kind == IRNodeKind::MacroRef {
            let ghost before = r@;
            r.push(node.id);
            proof {
                assert forall|i: int| 0 <= i < r@.len() implies exists|p: int| 0 <= p < k + 1 && (#[trigger] g.entries()[p]).0 == (#[trigger] r@[i]).0 by {
                    if i < before.len() {
                        assert(r@[i] == before[i]);
                        let p = choose|p: int| 0 <= p < k && (#[trigger] g.entries()[p]).0 == before[i].0;
                        assert(g.entries()[p].0 == r@[i].0);
                    } else {
                        assert(g.entries()[k as int].0 == r@[i].0);
                    }
                }
                assert forall|i: int, j: int| 0 <= i < j < r@.len() implies r@[i] != r@[j] by {
                    if j == before.len() {
                        let p = choose|p: int| 0 <= p < k && (#[trigger] g.entries()[p]).0 == before[i].0;
                        assert(g.entries()[p].0 != g.entries()[k as int].0);
                        assert(r@[i] == before[i]);
                    } else {
                        assert(r@[i] == before[i] && r@[j] == before[j]);
                    }
                }
            }
        }
        k = k + 1;
    }
    proof {
        assert forall|i: int| 0 <= i < r@.len() implies key_position(g.entries(), (#[trigger] r@[i]).0) is Some by {
            let p = choose|p: int| 0 <= p < k && (#[trigger] g.entries()[p]).0 == r@[i].0;
            assert(g.entries()[p].0 == r@[i].0);
        }
    }
    r
}

impl MacroExpansionPass {
    /// Expand macro references round by round until none is left; a graph
    /// still holding references after `MAXIMUM_DEPTH` rounds is refused as
    /// mutually recursive. The first failing expansion's error is returned.
    /// Expansion stops with an error before the node ids would run out.
    pub fn run(&self, graph: IRGraph, registry: &Vec<IRMacro>) -> (r: Result<IRGraph, ValidationError>)
        requires
            graph.wf(),
            forall|j: int| 0 <= j < registry@.len() ==> macro_joined(#[trigger] registry@[j]),
        ensures
            r matches Ok(g) ==> g.wf() && !exists|i: int|
                0 <= i < g.entries().len() && (#[trigger] g.entries()[i]).1.kind == IRNodeKind::MacroRef,
    {
        let mut widest: usize = 0;
        let mut j: usize = 0;
        while j < registry.len()
            invariant
                j <= registry@.len(),
                forall|q: int| 0 <= q < j ==> (#[trigger] registry@[q]).body.entries().len() <= widest,
            decreases registry.len() - j,
        {
            let w = registry[j].body.node_count();
            if w > widest {
                widest = w;
            }
            j = j + 1;
        }
        let mut graph = graph;
        let mut depth: u8 = 0;
        while graph.has_unresolved_macros()
            invariant
                graph.wf(),
                depth <= MAXIMUM_DEPTH,
                forall|j: int| 0 <= j < registry@.len() ==> macro_joined(#[trigger] registry@[j]),
                forall|q: int| 0 <= q < registry@.len() ==> (#[trigger] registry@[q]).body.entries().len() <= widest,
            decreases MAXIMUM_DEPTH - depth,
        {
            if depth >= MAXIMUM_DEPTH {
                let mut msg = String::new();
                push_str(&mut msg, "macro expansion exceeded depth 16 — patches may be mutually recursive");
                return Err(ValidationError::Expansion(msg));
            }
            let ids = macro_ids(&graph);
            let mut k: usize = 0;
            while k < ids.len()
                invariant
                    graph.wf(),
                    k <= ids@.len(),
                    forall|i: int| k <= i < ids@.len() ==> key_position(graph.entries(), (#[trigger] ids@[i]).0) is Some,
                    forall|i: int, j: int| 0 <= i < j < ids@.len() ==> ids@[i] != ids@[j],
                    forall|j: int| 0 <= j < registry@.len() ==> macro_joined(#[trigger] registry@[j]),
                    forall|q: int| 0 <= q < registry@.len() ==> (#[trigger] registry@[q]).body.entries().len() <= widest,
                decreases ids.len() - k,
            {
                let next = graph.next_id_value();
                if widest >= (u32::MAX as usize) || next >= u32::MAX - (widest as u32) {
                    let mut msg = String::new();
                    push_str(&mut msg, "macro expansion ran out of node ids");
                    return Err(ValidationError::Expansion(msg));
                }
                let ghost g0 = graph;
                let id = ids[k];
                match self.expand_macro(&mut graph, registry, id) {
                    Ok(()) => {},
                    Err(e) => return Err(e),
                }
                proof {
                    let e0 = g0.entries();
                    let i0 = key_position(e0, id.0)->0;
                    let node = e0[i0].1;
                    let jj = first_pos(macro_names(registry@), node.node_type@);
                    assert(jj >= 0);
                    let m = registry@[jj];
                    assert(expanded(g0, graph, id, m));
                    let e1 = e0.update(i0, e0.last()).drop_last();
                    assert forall|i: int| k + 1 <= i < ids@.len() implies key_position(graph.entries(), (#[trigger] ids@[i]).0) is Some by {
                        assert(ids@[i] != ids@[k as int]);
                        let w = choose|w: int| 0 <= w < e0.len() && (#[trigger] e0[w]).0 == id.0;
                        assert(e0[i0].0 == id.0) by {
                            assert(e0[w].0 == id.0);
                        }
                        lemma_others_kept(e0, e1, graph.entries(), i0, ids@[i].0);
                    }
                }
                k = k + 1;
            }
            depth = depth + 1;
        }
        Ok(graph)
    }
}

} // verus!
