//! Lowering of a macro definition from the DSL's syntax tree into an
//! [`IRMacro`]: a body graph, its virtual input ports and its sink.
use crate::expand::{find_macro, first_pos, lemma_first_pos, lemma_first_pos_prefix, macro_names};
use crate::ir::{
    ASTPipe, Ast, Connection, DeclarationScope, IREdge, IRNodeKind, Macro, NodeDeclaration, NodeId, Object, Port,
    copied_pipe, copied_value, duplicate_pipes,
};
use crate::ir_graph::{IRGraph, IRNode};
use crate::plan::IRMacro;
use crate::text::str_eq;
use vstd::prelude::*;

verus! {

/// The declarations of all scopes, in order, each with its namespace.
pub open spec fn flat_decls(scopes: Seq<DeclarationScope>) -> Seq<(String, NodeDeclaration)>
    decreases scopes.len(),
{
    if scopes.len() == 0 {
        Seq::empty()
    } else {
        flat_decls(scopes.drop_last()) + scopes.last().declarations@.map_values(
            |d: NodeDeclaration| (scopes.last().namespace, d),
        )
    }
}

/// The alias a declaration goes by: its own, or else its node type.
pub open spec fn decl_alias(d: NodeDeclaration) -> Seq<char> {
    match d.alias {
        Some(a) => a@,
        None => d.node_type@,
    }
}

/// Position of the last declaration going by alias `a`, or -1.
pub open spec fn last_alias(flat: Seq<(String, NodeDeclaration)>, a: Seq<char>) -> int
    decreases flat.len(),
{
    if flat.len() == 0 {
        -1
    } else if decl_alias(flat.last().1) == a {
        flat.len() - 1
    } else {
        last_alias(flat.drop_last(), a)
    }
}

/// `name` is one of the macro's virtual input ports.
pub open spec fn is_virtual(m: Macro, name: Seq<char>) -> bool {
    exists|i: int| 0 <= i < m.virtual_ports_in@.len() && (#[trigger] m.virtual_ports_in@[i])@ == name
}

/// The id the declaration going by alias `a` receives.
pub open spec fn decl_id(m: Macro, a: Seq<char>) -> NodeId {
    NodeId(last_alias(flat_decls(m.declarations@), a) as u32)
}

/// The body's edges: each connection that does not leave a virtual port,
/// between the declarations its ends name.
pub open spec fn body_edges_of(m: Macro, conns: Seq<Connection>) -> Seq<IREdge>
    decreases conns.len(),
{
    if conns.len() == 0 {
        Seq::empty()
    } else {
        let r = body_edges_of(m, conns.drop_last());
        let c = conns.last();
        if is_virtual(m, c.source.node@) {
            r
        } else {
            r.push(
                IREdge {
                    source: decl_id(m, c.source.node@),
                    source_port: c.source.port,
                    sink: decl_id(m, c.sink.node@),
                    sink_port: c.sink.port,
                },
            )
        }
    }
}

/// The virtual input map seen as (name, targets).
pub open spec fn vmap_view(v: Seq<(String, Vec<(NodeId, Port)>)>) -> Seq<(Seq<char>, Seq<(NodeId, Port)>)> {
    v.map_values(|x: (String, Vec<(NodeId, Port)>)| (x.0@, x.1@))
}

/// The virtual input map: each virtual port, in order of first use, with
/// the body ports the connections from it reach.
pub open spec fn virtual_map_of(m: Macro, conns: Seq<Connection>) -> Seq<(Seq<char>, Seq<(NodeId, Port)>)>
    decreases conns.len(),
{
    if conns.len() == 0 {
        Seq::empty()
    } else {
        let r = virtual_map_of(m, conns.drop_last());
        let c = conns.last();
        if !is_virtual(m, c.source.node@) {
            r
        } else {
            let t = (decl_id(m, c.sink.node@), c.sink.port);
            let x = first_pos(r.map_values(|e: (Seq<char>, Seq<(NodeId, Port)>)| e.0), c.source.node@);
            if x >= 0 {
                r.update(x, (r[x].0, r[x].1.push(t)))
            } else {
                r.push((c.source.node@, seq![t]))
            }
        }
    }
}

/// Every connection end that must name a declaration does, as does the
/// macro's sink.
pub open spec fn macro_resolvable(m: Macro) -> bool {
    let flat = flat_decls(m.declarations@);
    &&& forall|i: int|
        0 <= i < m.connections@.len() ==> {
            &&& (!is_virtual(m, (#[trigger] m.connections@[i]).source.node@) ==> last_alias(flat, m.connections@[i].source.node@) >= 0)
            &&& last_alias(flat, m.connections@[i].sink.node@) >= 0
        }
    &&& last_alias(flat, m.sink@) >= 0
    &&& flat.len() < u32::MAX
}

/// Body node `n`, under id `id`, is declaration `(ns, d)`: a macro reference
/// where `known` holds a macro of that type, a leaf otherwise.
pub open spec fn declared_node(known: Seq<IRMacro>, ns: String, d: NodeDeclaration, id: NodeId, n: IRNode) -> bool {
    &&& n.id == id
    &&& n.kind == (if first_pos(macro_names(known), d.node_type@) >= 0 {
        IRNodeKind::MacroRef
    } else {
        IRNodeKind::Leaf
    })
    &&& n.namespace == ns
    &&& n.node_type == d.node_type
    &&& n.alias@ == decl_alias(d)
    &&& match d.params {
        Some(p) => n.params@.len() == p@.len() && forall|j: int|
            0 <= j < p@.len() ==> (#[trigger] n.params@[j]).0@ == p@[j].0@ && copied_value(p@[j].1, n.params@[j].1),
        None => n.params@.len() == 0,
    }
    &&& n.pipes@.len() == d.pipes@.len()
    &&& forall|j: int| 0 <= j < d.pipes@.len() ==> copied_pipe(d.pipes@[j], #[trigger] n.pipes@[j])
}

proof fn lemma_last_alias(flat: Seq<(String, NodeDeclaration)>, a: Seq<char>)
    ensures
        -1 <= last_alias(flat, a) < flat.len(),
        last_alias(flat, a) >= 0 ==> decl_alias(flat[last_alias(flat, a)].1) == a,
    decreases flat.len(),
{
    if flat.len() > 0 {
        lemma_last_alias(flat.drop_last(), a);
    }
}

fn is_virtual_port(m: &Macro, name: &String) -> (r: bool)
    ensures
        r == is_virtual(*m, name@),
{
    let mut i: usize = 0;
    while i < m.virtual_ports_in.len()
        invariant
            i <= m.virtual_ports_in@.len(),
            forall|j: int| 0 <= j < i ==> (#[trigger] m.virtual_ports_in@[j])@ != name@,
        decreases m.virtual_ports_in.len() - i,
    {
        if str_eq(m.virtual_ports_in[i].as_str(), name.as_str()) {
            return true;
        }
        i = i + 1;
    }
    false
}

fn copy_params(p: &Option<Object>) -> (r: Object)
    ensures
        match *p {
            Some(o) => r@.len() == o@.len() && forall|j: int|
                0 <= j < o@.len() ==> (#[trigger] r@[j]).0@ == o@[j].0@ && copied_value(o@[j].1, r@[j].1),
            None => r@.len() == 0,
        },
{
    match p {
        Some(o) => {
            let r = o.duplicate();
            assert forall|j: int| 0 <= j < o@.len() implies (#[trigger] r@[j]).0@ == o@[j].0@ && copied_value(o@[j].1, r@[j].1) by {
                assert(r@[j].0@ == o@[j].0@);
            }
            r
        },
        None => Object::new(),
    }
}


proof fn lemma_flat_step(scopes: Seq<DeclarationScope>, s: int)
    requires
        0 <= s < scopes.len(),
    ensures
        flat_decls(scopes.take(s + 1)) == flat_decls(scopes.take(s)) + scopes[s].declarations@.map_values(
            |d: NodeDeclaration| (scopes[s].namespace, d),
        ),
{
    assert(scopes.take(s + 1).drop_last() =~= scopes.take(s));
    assert(scopes.take(s + 1).last() == scopes[s]);
}

proof fn lemma_flat_prefix_len(scopes: Seq<DeclarationScope>, s: int)
    requires
        0 <= s <= scopes.len(),
    ensures
        flat_decls(scopes.take(s)).len() <= flat_decls(scopes).len(),
    decreases scopes.len() - s,
{
    if s < scopes.len() {
        lemma_flat_step(scopes, s);
        lemma_flat_prefix_len(scopes, s + 1);
    } else {
        assert(scopes.take(s) =~= scopes);
    }
}

fn find_virtual_entry(v: &Vec<(String, Vec<(NodeId, Port)>)>, name: &String) -> (r: Option<usize>)
    ensures
        match r {
            Some(j) => first_pos(vmap_view(v@).map_values(|e: (Seq<char>, Seq<(NodeId, Port)>)| e.0), name@) == j && j < v@.len(),
            None => first_pos(vmap_view(v@).map_values(|e: (Seq<char>, Seq<(NodeId, Port)>)| e.0), name@) == -1,
        },
{
    let ghost names = vmap_view(v@).map_values(|e: (Seq<char>, Seq<(NodeId, Port)>)| e.0);
    let mut i: usize = 0;
    while i < v.len()
        invariant
            names == vmap_view(v@).map_values(|e: (Seq<char>, Seq<(NodeId, Port)>)| e.0),
            i <= v@.len(),
            first_pos(names.take(i as int), name@) == -1,
        decreases v.len() - i,
    {
        assert(names.take(i as int + 1).drop_last() =~= names.take(i as int));
        assert(names[i as int] == v@[i as int].0@);
        if str_eq(v[i].0.as_str(), name.as_str()) {
            proof {
                lemma_first_pos_prefix(names, name@, i as int + 1);
            }
            return Some(i);
        }
        proof {
            lemma_first_pos_prefix(names, name@, i as int + 1);
        }
        i = i + 1;
    }
    assert(names.take(i as int) =~= names);
    None
}

/// A fresh graph holding one node per declaration, in order: a macro
/// reference where `known` holds a macro of its type, a leaf otherwise.
fn graph_of_declarations(scopes: &Vec<DeclarationScope>, known: &Vec<IRMacro>) -> (body: IRGraph)
    requires
        flat_decls(scopes@).len() < u32::MAX,
    ensures
        body.wf(),
        body.next_id() == flat_decls(scopes@).len(),
        body.entries().len() == flat_decls(scopes@).len(),
        forall|d: int|
            0 <= d < body.entries().len() ==> {
                let e = #[trigger] body.entries()[d];
                &&& e.0 == d
                &&& declared_node(known@, flat_decls(scopes@)[d].0, flat_decls(scopes@)[d].1, NodeId(d as u32), e.1)
            },
        forall|a: Seq<char>|
            #[trigger] body.lookup(a) == (if last_alias(flat_decls(scopes@), a) >= 0 {
                Some(NodeId(last_alias(flat_decls(scopes@), a) as u32))
            } else {
                None
            }),
        body.edge_list().len() == 0,
        body.sink_node() is None,
        body.source_node() is None,
{
    let mut body = IRGraph::new();
    let mut s: usize = 0;
    while s < scopes.len()
        invariant
            flat_decls(scopes@).len() < u32::MAX,
            s <= scopes@.len(),
            body.wf(),
            body.next_id() == flat_decls(scopes@.take(s as int)).len(),
            body.entries().len() == flat_decls(scopes@.take(s as int)).len(),
            forall|d: int|
                0 <= d < body.entries().len() ==> {
                    let e = #[trigger] body.entries()[d];
                    &&& e.0 == d
                    &&& declared_node(known@, flat_decls(scopes@.take(s as int))[d].0, flat_decls(scopes@.take(s as int))[d].1, NodeId(d as u32), e.1)
                },
            forall|a: Seq<char>|
                #[trigger] body.lookup(a) == (if last_alias(flat_decls(scopes@.take(s as int)), a) >= 0 {
                    Some(NodeId(last_alias(flat_decls(scopes@.take(s as int)), a) as u32))
                } else {
                    None
                }),
            body.edge_list().len() == 0,
            body.sink_node() is None,
            body.source_node() is None,
        decreases scopes.len() - s,
    {
        let scope = &scopes[s];
        let ghost fs = flat_decls(scopes@.take(s as int));
        proof {
            lemma_flat_step(scopes@, s as int);
            lemma_flat_prefix_len(scopes@, s as int + 1);
        }
        let ghost decls = scope.declarations@.map_values(|d: NodeDeclaration| (scope.namespace, d));
        let mut k: usize = 0;
        while k < scope.declarations.len()
            invariant
                *scope == scopes@[s as int],
                decls == scope.declarations@.map_values(|d: NodeDeclaration| (scope.namespace, d)),
                fs.len() + decls.len() < u32::MAX,
                k <= scope.declarations@.len(),
                body.wf(),
                body.next_id() == fs.len() + k,
                body.entries().len() == fs.len() + k,
                forall|d: int|
                    0 <= d < body.entries().len() ==> {
                        let e = #[trigger] body.entries()[d];
                        &&& e.0 == d
                        &&& declared_node(known@, (fs + decls.take(k as int))[d].0, (fs + decls.take(k as int))[d].1, NodeId(d as u32), e.1)
                    },
                forall|a: Seq<char>|
                    #[trigger] body.lookup(a) == (if last_alias(fs + decls.take(k as int), a) >= 0 {
                        Some(NodeId(last_alias(fs + decls.take(k as int), a) as u32))
                    } else {
                        None
                    }),
                body.edge_list().len() == 0,
                body.sink_node() is None,
                body.source_node() is None,
            decreases scope.declarations.len() - k,
        {
            let decl = &scope.declarations[k];
            let alias = match &decl.alias {
                Some(a) => a.clone(),
                None => decl.node_type.clone(),
            };
            let kind = match find_macro(known, decl.node_type.as_str()) {
                Some(_) => IRNodeKind::MacroRef,
                None => IRNodeKind::Leaf,
            };
            let params = copy_params(&decl.params);
            let pipes = duplicate_pipes(&decl.pipes);
            let ghost before = body.entries();
            let ghost f0 = fs + decls.take(k as int);
            let ghost f1 = fs + decls.take(k as int + 1);
            proof {
                assert(f1 =~= f0.push((scope.namespace, *decl)));
                assert(f1.drop_last() =~= f0);
            }
            let id = body.add_node(kind, scope.namespace.clone(), decl.node_type.clone(), alias, params, pipes);
            proof {
                assert forall|d: int| 0 <= d < body.entries().len() implies {
                    let e = #[trigger] body.entries()[d];
                    &&& e.0 == d
                    &&& declared_node(known@, f1[d].0, f1[d].1, NodeId(d as u32), e.1)
                } by {
                    if d < before.len() {
                        assert(body.entries()[d] == before[d]);
                        assert(f1[d] == f0[d]);
                    }
                }
                assert forall|a: Seq<char>| #[trigger] body.lookup(a) == (if last_alias(f1, a) >= 0 {
                    Some(NodeId(last_alias(f1, a) as u32))
                } else {
                    None
                }) by {
                    assert(f1.last() == (scope.namespace, *decl));
                }
            }
            k = k + 1;
        }
        assert(decls.take(k as int) =~= decls);
        s = s + 1;
    }
    assert(scopes@.take(s as int) =~= scopes@);
    body
}

/// Lower macro definition `m` into an [`IRMacro`]: one body node per
/// declaration, in order, going by its alias (or else its node type) and
/// being a macro reference where `known` holds a macro of its type; one body
/// edge per connection that does not leave a virtual port, between the last
/// declarations going by its ends' names; and the virtual input map, each
/// virtual port with the body ports its connections reach.
pub fn convert_macro(m: Macro, known: &Vec<IRMacro>) -> (r: IRMacro)
    requires
        macro_resolvable(m),
    ensures
        r.name == m.name,
        r.default_params == m.default_params,
        r.body.wf(),
        r.body.entries().len() == flat_decls(m.declarations@).len(),
        forall|d: int|
            0 <= d < flat_decls(m.declarations@).len() ==> {
                let e = #[trigger] r.body.entries()[d];
                &&& e.0 == d
                &&& declared_node(known@, flat_decls(m.declarations@)[d].0, flat_decls(m.declarations@)[d].1, NodeId(d as u32), e.1)
            },
        r.body.edge_list() == body_edges_of(m, m.connections@),
        vmap_view(r.virtual_input_map@) == virtual_map_of(m, m.connections@),
        r.sink == decl_id(m, m.sink@),
        r.body.sink_node() == Some(r.sink),
        r.body.source_node() is None,
        crate::plan::macro_joined(r),
{
    let ghost flat_all = flat_decls(m.declarations@);
    let mut body = graph_of_declarations(&m.declarations, known);
    let mut vmap: Vec<(String, Vec<(NodeId, Port)>)> = Vec::new();
    let mut i: usize = 0;
    while i < m.connections.len()
        invariant
            macro_resolvable(m),
            flat_all == flat_decls(m.declarations@),
            i <= m.connections@.len(),
            body.wf(),
            body.entries().len() == flat_all.len(),
            forall|d: int|
                0 <= d < flat_all.len() ==> {
                    let e = #[trigger] body.entries()[d];
                    &&& e.0 == d
                    &&& declared_node(known@, flat_all[d].0, flat_all[d].1, NodeId(d as u32), e.1)
                },
            forall|a: Seq<char>|
                #[trigger] body.lookup(a) == (if last_alias(flat_all, a) >= 0 {
                    Some(NodeId(last_alias(flat_all, a) as u32))
                } else {
                    None
                }),
            body.edge_list() == body_edges_of(m, m.connections@.take(i as int)),
            vmap_view(vmap@) == virtual_map_of(m, m.connections@.take(i as int)),
            body.sink_node() is None,
            body.source_node() is None,
            forall|e: int| 0 <= e < body.edge_list().len() ==> (#[trigger] body.edge_list()[e]).source.0 < flat_all.len()
                && body.edge_list()[e].sink.0 < flat_all.len(),
            forall|x: int, t: int| 0 <= x < vmap@.len() && 0 <= t < vmap@[x].1@.len() ==> (#[trigger] vmap@[x].1@[t]).0.0 < flat_all.len(),
        decreases m.connections.len() - i,
    {
        let c = &m.connections[i];
        proof {
            assert(m.connections@.take(i as int + 1).drop_last() =~= m.connections@.take(i as int));
            assert(m.connections@.take(i as int + 1).last() == m.connections@[i as int]);
        }
        let snk = body.resolve_alias(c.sink.node.as_str()).unwrap();
        proof {
            lemma_last_alias(flat_all, c.sink.node@);
        }
        let ghost old_edges = body.edge_list();
        let ghost old_vm = vmap@;
        if is_virtual_port(&m, &c.source.node) {
            let t = (snk, c.sink.port.duplicate());
            let ghost old_v = vmap_view(vmap@);
            match find_virtual_entry(&vmap, &c.source.node) {
                Some(x) => {
                    let (name, mut ts) = vmap.remove(x);
                    let ghost old_ts = ts@;
                    ts.push(t);
                    vmap.insert(x, (name, ts));
                    proof {
                        assert(vmap_view(vmap@) =~= old_v.update(x as int, (old_v[x as int].0, old_v[x as int].1.push((t.0, t.1)))));
                        assert forall|xx: int, tt: int| 0 <= xx < vmap@.len() && 0 <= tt < vmap@[xx].1@.len() implies (#[trigger] vmap@[xx].1@[tt]).0.0 < flat_all.len() by {
                            if xx != x {
                                assert(vmap@[xx] == old_vm[xx]);
                            } else if tt < old_ts.len() {
                                assert(vmap@[xx].1@[tt] == old_ts[tt]);
                                assert(old_ts == old_vm[xx].1@);
                            }
                        }
                    }
                },
                None => {
                    let mut ts: Vec<(NodeId, Port)> = Vec::new();
                    ts.push(t);
                    vmap.push((c.source.node.clone(), ts));
                    proof {
                        assert(vmap_view(vmap@) =~= old_v.push((c.source.node@, seq![(t.0, t.1)])));
                        assert forall|xx: int, tt: int| 0 <= xx < vmap@.len() && 0 <= tt < vmap@[xx].1@.len() implies (#[trigger] vmap@[xx].1@[tt]).0.0 < flat_all.len() by {
                            if xx < old_vm.len() {
                                assert(vmap@[xx] == old_vm[xx]);
                            }
                        }
                    }
                },
            }
        } else {
            let src = body.resolve_alias(c.source.node.as_str()).unwrap();
            proof {
                lemma_last_alias(flat_all, c.source.node@);
            }
            body.connect(src, c.source.port.duplicate(), snk, c.sink.port.duplicate());
            proof {
                assert forall|e: int| 0 <= e < body.edge_list().len() implies (#[trigger] body.edge_list()[e]).source.0 < flat_all.len()
                    && body.edge_list()[e].sink.0 < flat_all.len() by {
                    if e < old_edges.len() {
                        assert(body.edge_list()[e] == old_edges[e]);
                    }
                }
            }
        }
        i = i + 1;
    }
    assert(m.connections@.take(i as int) =~= m.connections@);
    let sink = body.resolve_alias(m.sink.as_str()).unwrap();
    body.set_ends(Some(sink), None);
    proof {
        lemma_last_alias(flat_all, m.sink@);
        assert forall|v: u32| v < flat_all.len() implies body.keys().contains(v) by {
            assert(body.entries()[v as int].0 == v);
            assert(body.keys()[v as int] == v);
        }
    }
    IRMacro {
        name: m.name,
        default_params: m.default_params,
        virtual_input_map: vmap,
        body,
        sink,
    }
}


/// Number of macros still waiting to be lowered.
pub open spec fn waiting(p: Seq<Option<Macro>>) -> nat
    decreases p.len(),
{
    if p.len() == 0 {
        0
    } else {
        waiting(p.drop_last()) + (if p.last() is Some {
            1nat
        } else {
            0nat
        })
    }
}

/// Every waiting macro can be lowered.
pub open spec fn all_resolvable(p: Seq<Option<Macro>>) -> bool {
    forall|k: int| 0 <= k < p.len() && (#[trigger] p[k]) is Some ==> macro_resolvable(p[k]->Some_0)
}

proof fn lemma_waiting_take(p: Seq<Option<Macro>>, j: int)
    requires
        0 <= j < p.len(),
        p[j] is Some,
    ensures
        waiting(p.update(j, None)) + 1 == waiting(p),
    decreases p.len(),
{
    if j == p.len() - 1 {
        assert(p.update(j, None).drop_last() =~= p.drop_last());
    } else {
        assert(p.update(j, None).drop_last() =~= p.drop_last().update(j, None));
        lemma_waiting_take(p.drop_last(), j);
    }
}

proof fn lemma_waiting_none(p: Seq<Option<Macro>>)
    requires
        forall|k: int| 0 <= k < p.len() ==> (#[trigger] p[k]) is None,
    ensures
        waiting(p) == 0,
    decreases p.len(),
{
    if p.len() > 0 {
        lemma_waiting_none(p.drop_last());
    }
}

fn find_waiting(pending: &Vec<Option<Macro>>, name: &String) -> (r: Option<usize>)
    ensures
        r matches Some(w) ==> w < pending@.len() && pending@[w as int] is Some && pending@[w as int]->Some_0.name@ == name@,
{
    let mut k: usize = 0;
    while k < pending.len()
        invariant
            k <= pending@.len(),
        decreases pending.len() - k,
    {
        match &pending[k] {
            Some(pm) => {
                if str_eq(pm.name.as_str(), name.as_str()) {
                    return Some(k);
                }
            },
            None => {},
        }
        k = k + 1;
    }
    None
}

/// Lower the waiting macro `j`, after first lowering each waiting macro that
/// one of its declarations names.
fn lower_waiting(j: usize, pending: &mut Vec<Option<Macro>>, done: &mut Vec<IRMacro>)
    requires
        j < old(pending)@.len(),
        old(pending)@[j as int] is Some,
        all_resolvable(old(pending)@),
        forall|i: int| 0 <= i < old(done)@.len() ==> crate::plan::macro_joined(#[trigger] old(done)@[i]),
    ensures
        forall|i: int| 0 <= i < final(done)@.len() ==> crate::plan::macro_joined(#[trigger] final(done)@[i]),
        final(pending)@.len() == old(pending)@.len(),
        all_resolvable(final(pending)@),
        forall|k: int| 0 <= k < final(pending)@.len() && (#[trigger] final(pending)@[k]) is Some ==> final(pending)@[k] == old(pending)@[k],
        final(pending)@[j as int] is None,
        waiting(final(pending)@) < waiting(old(pending)@),
        final(done)@.len() + waiting(final(pending)@) == old(done)@.len() + waiting(old(pending)@),
    decreases waiting(old(pending)@),
{
    proof {
        lemma_waiting_take(pending@, j as int);
    }
    let m = pending.remove(j).unwrap();
    pending.insert(j, None);
    let ghost start_pending = pending@;
    let ghost start_done = done@.len();
    assert(pending@ =~= old(pending)@.update(j as int, None));
    let mut s: usize = 0;
    while s < m.declarations.len()
        invariant
            s <= m.declarations@.len(),
            j < old(pending)@.len(),
            forall|i: int| 0 <= i < done@.len() ==> crate::plan::macro_joined(#[trigger] done@[i]),
            pending@.len() == old(pending)@.len(),
            all_resolvable(pending@),
            forall|k: int| 0 <= k < pending@.len() && (#[trigger] pending@[k]) is Some ==> pending@[k] == old(pending)@[k],
            pending@[j as int] is None,
            waiting(pending@) < waiting(old(pending)@),
            done@.len() + waiting(pending@) + 1 == old(done)@.len() + waiting(old(pending)@),
        decreases m.declarations.len() - s,
    {
        let scope = &m.declarations[s];
        let mut k: usize = 0;
        while k < scope.declarations.len()
            invariant
                k <= scope.declarations@.len(),
                j < old(pending)@.len(),
            forall|i: int| 0 <= i < done@.len() ==> crate::plan::macro_joined(#[trigger] done@[i]),
                pending@.len() == old(pending)@.len(),
                all_resolvable(pending@),
                forall|q: int| 0 <= q < pending@.len() && (#[trigger] pending@[q]) is Some ==> pending@[q] == old(pending)@[q],
                pending@[j as int] is None,
                waiting(pending@) < waiting(old(pending)@),
                done@.len() + waiting(pending@) + 1 == old(done)@.len() + waiting(old(pending)@),
            decreases scope.declarations.len() - k,
        {
            match find_waiting(pending, &scope.declarations[k].node_type) {
                Some(w) => {
                    let ghost before = pending@;
                    lower_waiting(w, pending, done);
                    proof {
                        if pending@[j as int] is Some {
                            assert(pending@[j as int] == before[j as int]);
                        }
                    }
                    assert forall|q: int| 0 <= q < pending@.len() && (#[trigger] pending@[q]) is Some implies pending@[q] == old(pending)@[q] by {
                        assert(pending@[q] == before[q]);
                    }
                },
                None => {},
            }
            k = k + 1;
        }
        s = s + 1;
    }
    let ir = convert_macro(m, done);
    let ghost before = done@;
    done.push(ir);
    assert forall|i: int| 0 <= i < done@.len() implies crate::plan::macro_joined(#[trigger] done@[i]) by {
        if i < before.len() {
            assert(done@[i] == before[i]);
        }
    }
}

/// Lower every macro definition, each after the macros its declarations
/// name, so that a declaration whose type names an already lowered macro
/// becomes a macro reference. Each macro is lowered once.
pub fn convert_macros(macros: Vec<Macro>) -> (r: Vec<IRMacro>)
    requires
        forall|i: int| 0 <= i < macros@.len() ==> macro_resolvable(#[trigger] macros@[i]),
    ensures
        r@.len() == macros@.len(),
        forall|i: int| 0 <= i < r@.len() ==> crate::plan::macro_joined(#[trigger] r@[i]),
{
    let n = macros.len();
    let mut src = macros;
    let mut pending: Vec<Option<Macro>> = Vec::new();
    let ghost all = src@;
    while src.len() > 0
        invariant
            pending@.len() + src@.len() == n,
            forall|i: int| 0 <= i < src@.len() ==> macro_resolvable(#[trigger] src@[i]),
            all_resolvable(pending@),
            forall|k: int| 0 <= k < pending@.len() ==> (#[trigger] pending@[k]) is Some,
            waiting(pending@) == pending@.len(),
        decreases src.len(),
    {
        let ghost src_before = src@;
        let m = src.remove(0);
        let ghost before = pending@;
        pending.push(Some(m));
        proof {
            assert(pending@.drop_last() =~= before);
            assert forall|i: int| 0 <= i < src@.len() implies macro_resolvable(#[trigger] src@[i]) by {
                assert(src@[i] == src_before[i + 1]);
            }
        }
    }
    let mut done: Vec<IRMacro> = Vec::new();
    let mut j: usize = 0;
    while j < pending.len()
        invariant
            j <= pending@.len(),
            pending@.len() == n,
            all_resolvable(pending@),
            forall|k: int| 0 <= k < j ==> (#[trigger] pending@[k]) is None,
            done@.len() + waiting(pending@) == n,
            forall|i: int| 0 <= i < done@.len() ==> crate::plan::macro_joined(#[trigger] done@[i]),
        decreases pending.len() - j,
    {
        let is_waiting = match &pending[j] {
            Some(_) => true,
            None => false,
        };
        if is_waiting {
            let ghost before = pending@;
            lower_waiting(j, &mut pending, &mut done);
            assert forall|k: int| 0 <= k < j implies (#[trigger] pending@[k]) is None by {
                if pending@[k] is Some {
                    assert(pending@[k] == before[k]);
                }
            }
        }
        j = j + 1;
    }
    proof {
        lemma_waiting_none(pending@);
    }
    done
}

/// Every connection of the program joins two declared nodes.
pub open spec fn program_resolvable(ast: Ast) -> bool {
    let flat = flat_decls(ast.declarations@);
    &&& forall|i: int| 0 <= i < ast.macros@.len() ==> macro_resolvable(#[trigger] ast.macros@[i])
    &&& flat.len() < u32::MAX
    &&& forall|i: int|
        0 <= i < ast.connections@.len() ==> last_alias(flat, (#[trigger] ast.connections@[i]).source.node@) >= 0
            && last_alias(flat, ast.connections@[i].sink.node@) >= 0
}

/// The node a program's alias names, if any.
pub open spec fn named_node(flat: Seq<(String, NodeDeclaration)>, a: Seq<char>) -> Option<NodeId> {
    if last_alias(flat, a) >= 0 {
        Some(NodeId(last_alias(flat, a) as u32))
    } else {
        None
    }
}

/// The program's connections as edges between the declarations they name.
pub open spec fn program_edges(ast: Ast) -> Seq<IREdge> {
    let flat = flat_decls(ast.declarations@);
    ast.connections@.map_values(
        |c: Connection|
            IREdge {
                source: NodeId(last_alias(flat, c.source.node@) as u32),
                source_port: c.source.port,
                sink: NodeId(last_alias(flat, c.sink.node@) as u32),
                sink_port: c.sink.port,
            },
    )
}

/// The literal graph of a program, with its lowered macros: one node per
/// top-level declaration (a macro reference where its type names a lowered
/// macro), every connection kept as written, and the output and input nodes
/// marked where the program names declared ones.
pub fn ast_to_graph(ast: Ast) -> (r: (IRGraph, Vec<IRMacro>))
    requires
        program_resolvable(ast),
    ensures
        r.1@.len() == ast.macros@.len(),
        forall|i: int| 0 <= i < r.1@.len() ==> crate::plan::macro_joined(#[trigger] r.1@[i]),
        r.0.wf(),
        r.0.entries().len() == flat_decls(ast.declarations@).len(),
        forall|d: int|
            0 <= d < flat_decls(ast.declarations@).len() ==> {
                let e = #[trigger] r.0.entries()[d];
                &&& e.0 == d
                &&& declared_node(r.1@, flat_decls(ast.declarations@)[d].0, flat_decls(ast.declarations@)[d].1, NodeId(d as u32), e.1)
            },
        r.0.edge_list() == program_edges(ast),
        r.0.sink_node() == named_node(flat_decls(ast.declarations@), ast.sink@),
        r.0.source_node() == match ast.source {
            Some(s) => named_node(flat_decls(ast.declarations@), s@),
            None => None,
        },
{
    let ghost flat = flat_decls(ast.declarations@);
    let registry = convert_macros(ast.macros);
    let mut graph = graph_of_declarations(&ast.declarations, &registry);
    let mut i: usize = 0;
    while i < ast.connections.len()
        invariant
            program_resolvable(ast),
            flat == flat_decls(ast.declarations@),
            i <= ast.connections@.len(),
            graph.wf(),
            graph.entries().len() == flat.len(),
            forall|d: int|
                0 <= d < flat.len() ==> {
                    let e = #[trigger] graph.entries()[d];
                    &&& e.0 == d
                    &&& declared_node(registry@, flat[d].0, flat[d].1, NodeId(d as u32), e.1)
                },
            forall|a: Seq<char>| #[trigger] graph.lookup(a) == named_node(flat, a),
            graph.edge_list() == program_edges(ast).take(i as int),
            graph.sink_node() is None,
            graph.source_node() is None,
        decreases ast.connections.len() - i,
    {
        let c = &ast.connections[i];
        let src = graph.resolve_alias(c.source.node.as_str()).unwrap();
        let snk = graph.resolve_alias(c.sink.node.as_str()).unwrap();
        graph.connect(src, c.source.port.duplicate(), snk, c.sink.port.duplicate());
        assert(program_edges(ast).take(i as int + 1) =~= program_edges(ast).take(i as int).push(program_edges(ast)[i as int]));
        i = i + 1;
    }
    assert(program_edges(ast).take(i as int) =~= program_edges(ast));
    let sink = graph.resolve_alias(ast.sink.as_str());
    let source = match &ast.source {
        Some(s) => graph.resolve_alias(s.as_str()),
        None => None,
    };
    graph.set_ends(sink, source);
    (graph, registry)
}

} // verus!
