use vstd::prelude::*;

verus! {

/// A port reference as written in the DSL: by name, by index, a half-open
/// slice `start..end`, a strided range, or an omitted port (every port).
#[derive(Debug, Clone, PartialEq)]
pub enum Port {
    Named(String),
    Index(usize),
    Slice(usize, usize),
    Stride { start: usize, end: usize, stride: usize },
    Omitted,
}

impl Port {
    /// A copy of this port reference.
    pub fn duplicate(&self) -> (r: Port)
        ensures
            r == *self,
    {
        match self {
            Port::Named(n) => Port::Named(n.clone()),
            Port::Index(i) => Port::Index(*i),
            Port::Slice(a, b) => Port::Slice(*a, *b),
            Port::Stride { start, end, stride } => Port::Stride {
                start: *start,
                end: *end,
                stride: *stride,
            },
            Port::Omitted => Port::Omitted,
        }
    }
}

/// One node declaration as written in the DSL.
#[derive(Debug, PartialEq)]
pub struct NodeDeclaration {
    pub node_type: String,
    pub alias: Option<String>,
    pub params: Option<Object>,
    pub pipes: Vec<ASTPipe>,
}

/// The declarations of one namespace block.
#[derive(Debug, PartialEq)]
pub struct DeclarationScope {
    pub namespace: String,
    pub declarations: Vec<NodeDeclaration>,
}

/// A macro (patch) definition as written in the DSL: its declared params,
/// the names of its virtual input ports, its body and its output node.
#[derive(Debug, PartialEq)]
pub struct Macro {
    pub name: String,
    pub default_params: Option<Object>,
    pub virtual_ports_in: Vec<String>,
    pub declarations: Vec<DeclarationScope>,
    pub connections: Vec<Connection>,
    pub sink: String,
}

/// A whole program: top-level declarations and connections, macro
/// definitions, and the names of the output node and of the input node.
#[derive(Debug, PartialEq)]
pub struct Ast {
    pub declarations: Vec<DeclarationScope>,
    pub connections: Vec<Connection>,
    pub macros: Vec<Macro>,
    pub sink: String,
    pub source: Option<String>,
}

/// One side of a connection in the AST: a node alias and a port on it.
#[derive(Debug, Clone, PartialEq)]
pub struct Endpoint {
    pub node: String,
    pub port: Port,
}

/// A connection in the AST, from a source endpoint to a sink endpoint.
#[derive(Debug, Clone, PartialEq)]
pub struct Connection {
    pub source: Endpoint,
    pub sink: Endpoint,
}

/// A parameter value as written in the DSL. A floating-point literal is held
/// by its IEEE-754 bit pattern (`f32::to_bits`).
#[derive(Debug, PartialEq)]
pub enum Value {
    Null,
    U32(u32),
    I32(i32),
    F32Bits(u32),
    Bool(bool),
    Ident(String),
    String(String),
    Array(Vec<Value>),
    Object(Object),
    Template(String),
}

/// Whether `copy` is a copy of `v`: the same variant, holding the same
/// scalar or text, or a container of the same length.
pub open spec fn copied_value(v: Value, copy: Value) -> bool {
    match (v, copy) {
        (Value::Array(a), Value::Array(b)) => a@.len() == b@.len(),
        (Value::Object(a), Value::Object(b)) => a@.len() == b@.len(),
        (Value::Array(_), _) => false,
        (Value::Object(_), _) => false,
        _ => copy == v,
    }
}

impl Value {
    /// A deep copy of this value.
    pub fn duplicate(&self) -> (r: Value)
        ensures
            copied_value(*self, r),
        decreases self,
    {
        match self {
            Value::Null => Value::Null,
            Value::U32(n) => Value::U32(*n),
            Value::I32(n) => Value::I32(*n),
            Value::F32Bits(n) => Value::F32Bits(*n),
            Value::Bool(b) => Value::Bool(*b),
            Value::Ident(s) => Value::Ident(s.clone()),
            Value::String(s) => Value::String(s.clone()),
            Value::Template(s) => Value::Template(s.clone()),
            Value::Array(a) => {
                let mut out: Vec<Value> = Vec::new();
                let mut i: usize = 0;
                while i < a.len()
                    invariant
                        *self == Value::Array(*a),
                        i <= a.len(),
                        out@.len() == i,
                    decreases a.len() - i,
                {
                    proof {
                        let ghost me: Value = *self;
                        let ghost va: Vec<Value> = *a;
                        vstd::std_specs::vec::axiom_vec_index_decreases(va, i as int);
                        assert(me == Value::Array(va));
                        assert(decreases_to!(me => me->Array_0));
                        assert(decreases_to!(me => va[i as int]));
                    }
                    out.push(a[i].duplicate());
                    i = i + 1;
                }
                Value::Array(out)
            },
            Value::Object(o) => {
                let mut out: Vec<(String, Value)> = Vec::new();
                let mut i: usize = 0;
                while i < o.entries.len()
                    invariant
                        *self == Value::Object(*o),
                        i <= o.entries.len(),
                        out@.len() == i,
                    decreases o.entries.len() - i,
                {
                    proof {
                        vstd::std_specs::vec::axiom_vec_index_decreases(o.entries, i as int);
                        let ghost me: Value = *self;
                        let ghost vo: Object = *o;
                        vstd::std_specs::vec::axiom_vec_index_decreases(vo.entries, i as int);
                        assert(decreases_to!(me => me->Object_0));
                        assert(decreases_to!(vo => vo.entries));
                        assert(decreases_to!(vo.entries[i as int] => vo.entries[i as int].1));
                        assert(decreases_to!(me => vo.entries[i as int].1));
                    }
                    let k = o.entries[i].0.clone();
                    let v = o.entries[i].1.duplicate();
                    out.push((k, v));
                    i = i + 1;
                }
                Value::Object(Object { entries: out })
            },
        }
    }
}

/// A node's parameters: name and value pairs, each name at most once, in the
/// order they were first inserted.
#[derive(Debug, PartialEq)]
pub struct Object {
    entries: Vec<(String, Value)>,
}

/// Position of the first entry named `k`, or -1 where no entry has that name.
pub open spec fn key_pos(s: Seq<(String, Value)>, k: Seq<char>) -> int
    decreases s.len(),
{
    if s.len() == 0 {
        -1
    } else {
        let p = key_pos(s.drop_last(), k);
        if p >= 0 {
            p
        } else if s.last().0@ == k {
            s.len() - 1
        } else {
            -1
        }
    }
}

/// The value named `k` in `s`, if any.
pub open spec fn param_value(s: Seq<(String, Value)>, k: Seq<char>) -> Option<Value> {
    if key_pos(s, k) >= 0 {
        Some(s[key_pos(s, k)].1)
    } else {
        None
    }
}

/// `key_pos` is -1 or the first index whose name is `k`.
pub proof fn lemma_key_pos(s: Seq<(String, Value)>, k: Seq<char>)
    ensures
        -1 <= key_pos(s, k) < s.len(),
        key_pos(s, k) >= 0 ==> s[key_pos(s, k)].0@ == k,
        forall|j: int| 0 <= j < s.len() && (j < key_pos(s, k) || key_pos(s, k) == -1) ==> s[j].0@ != k,
    decreases s.len(),
{
    if s.len() > 0 {
        lemma_key_pos(s.drop_last(), k);
        assert forall|j: int|
            0 <= j < s.len() && (j < key_pos(s, k) || key_pos(s, k) == -1) implies s[j].0@ != k by {
            if j < s.len() - 1 {
                assert(s.drop_last()[j] == s[j]);
            }
        }
    }
}

impl View for Object {
    type V = Seq<(String, Value)>;

    closed spec fn view(&self) -> Seq<(String, Value)> {
        self.entries@
    }
}

impl Object {
    /// An empty parameter list.
    pub fn new() -> (o: Object)
        ensures
            o@ == Seq::<(String, Value)>::empty(),
    {
        Object { entries: Vec::new() }
    }

    /// Number of parameters.
    pub fn len(&self) -> (n: usize)
        ensures
            n == self@.len(),
    {
        self.entries.len()
    }

    /// The `i`-th parameter, in insertion order.
    pub fn entry(&self, i: usize) -> (r: (&String, &Value))
        requires
            i < self@.len(),
        ensures
            *r.0 == self@[i as int].0,
            *r.1 == self@[i as int].1,
    {
        (&self.entries[i].0, &self.entries[i].1)
    }

    /// Position of the parameter named `key`.
    fn position(&self, key: &str) -> (r: Option<usize>)
        ensures
            match r {
                Some(i) => key_pos(self@, key@) == i && i < self@.len(),
                None => key_pos(self@, key@) == -1,
            },
    {
        proof {
            lemma_key_pos(self.entries@, key@);
        }
        let mut i: usize = 0;
        while i < self.entries.len()
            invariant
                i <= self.entries@.len(),
                key_pos(self.entries@.take(i as int), key@) == -1,
            decreases self.entries.len() - i,
        {
            assert(self.entries@.take(i as int + 1).drop_last() == self.entries@.take(i as int));
            if crate::text::str_eq(self.entries[i].0.as_str(), key) {
                proof {
                    lemma_key_pos_prefix(self.entries@, key@, i as int + 1);
                }
                return Some(i);
            }
            proof {
                lemma_key_pos_prefix(self.entries@, key@, i as int + 1);
            }
            i = i + 1;
        }
        assert(self.entries@.take(i as int) == self.entries@);
        None
    }

    /// The value of the parameter named `key`.
    pub fn get(&self, key: &str) -> (r: Option<&Value>)
        ensures
            match r {
                Some(v) => param_value(self@, key@) == Some(*v),
                None => param_value(self@, key@) is None,
            },
    {
        match self.position(key) {
            Some(i) => Some(&self.entries[i].1),
            None => None,
        }
    }

    /// Set the parameter `key` to `value`. An existing parameter keeps its
    /// place and its old value is handed back; a new one goes last.
    pub fn insert(&mut self, key: String, value: Value) -> (r: Option<Value>)
        ensures
            ({
                let p = key_pos(old(self)@, key@);
                if p >= 0 {
                    &&& final(self)@ == old(self)@.update(p, (old(self)@[p].0, value))
                    &&& r == Some(old(self)@[p].1)
                } else {
                    &&& final(self)@ == old(self)@.push((key, value))
                    &&& r is None
                }
            }),
    {
        match self.position(key.as_str()) {
            Some(i) => {
                let (k, old_value) = self.entries.remove(i);
                self.entries.insert(i, (k, value));
                Some(old_value)
            },
            None => {
                self.entries.push((key, value));
                None
            },
        }
    }

    /// A deep copy of this parameter list.
    pub fn duplicate(&self) -> (r: Object)
        ensures
            r@.len() == self@.len(),
            forall|i: int| 0 <= i < self@.len() ==> (#[trigger] r@[i]).0@ == self@[i].0@,
            forall|i: int| 0 <= i < self@.len() ==> copied_value(self@[i].1, (#[trigger] r@[i]).1),
    {
        let mut out: Vec<(String, Value)> = Vec::new();
        let mut i: usize = 0;
        while i < self.entries.len()
            invariant
                i <= self.entries@.len(),
                out@.len() == i,
                forall|j: int| 0 <= j < i ==> (#[trigger] out@[j]).0@ == self.entries@[j].0@,
                forall|j: int| 0 <= j < i ==> copied_value(self.entries@[j].1, (#[trigger] out@[j]).1),
            decreases self.entries.len() - i,
        {
            let k = self.entries[i].0.clone();
            let v = self.entries[i].1.duplicate();
            let ghost before = out@;
            assert(k == self.entries@[i as int].0);
            assert(copied_value(self.entries@[i as int].1, v));
            out.push((k, v));
            assert(out@[i as int] == (k, v));
            let ghost n = i as int;
            assert forall|j: int| 0 <= j < n + 1 implies (#[trigger] out@[j]).0@ == self.entries@[j].0@
                && copied_value(self.entries@[j].1, out@[j].1) by {
                if j < n {
                    assert(out@[j] == before[j]);
                } else {
                    assert(out@[n] == (k, v));
                }
            }
            i = i + 1;
        }
        Object { entries: out }
    }
}

/// Number of `$` characters that open `s`.
pub open spec fn leading_dollars(s: Seq<char>) -> nat
    decreases s.len(),
{
    if s.len() > 0 && s[0] == '$' {
        1 + leading_dollars(s.drop_first())
    } else {
        0
    }
}

/// The param a template names: its text without the leading `$`s.
pub open spec fn template_key(s: Seq<char>) -> Seq<char> {
    s.skip(leading_dollars(s) as int)
}

/// `r` is what substitution leaves in place of `v`: a copy of the value that
/// `bindings` gives the template's name, or else a copy of `v` itself.
pub open spec fn substituted(v: Value, bindings: Seq<(String, Value)>, r: Value) -> bool {
    match v {
        Value::Template(t) => match param_value(bindings, template_key(t@)) {
            Some(b) => copied_value(b, r),
            None => copied_value(v, r),
        },
        _ => copied_value(v, r),
    }
}

proof fn lemma_leading_dollars(s: Seq<char>, i: int)
    requires
        0 <= i <= s.len(),
        forall|j: int| 0 <= j < i ==> s[j] == '$',
        i == s.len() || s[i] != '$',
    ensures
        leading_dollars(s) == i,
    decreases i,
{
    if i > 0 {
        lemma_leading_dollars(s.drop_first(), i - 1);
    }
}

/// The param name a template refers to: `t` without its leading `$`s.
pub fn template_name(t: &str) -> (r: String)
    ensures
        r@ == template_key(t@),
{
    let n = t.unicode_len();
    let mut i: usize = 0;
    while i < n && t.get_char(i) == '$'
        invariant
            i <= n,
            n == t@.len(),
            forall|j: int| 0 <= j < i ==> t@[j] == '$',
        decreases n - i,
    {
        i = i + 1;
    }
    proof {
        lemma_leading_dollars(t@, i as int);
    }
    let mut r = String::new();
    let mut k: usize = i;
    while k < n
        invariant
            i <= k <= n,
            n == t@.len(),
            r@ == t@.subrange(i as int, k as int),
        decreases n - k,
    {
        let c = t.get_char(k);
        crate::text::string_push(&mut r, c);
        k = k + 1;
        assert(r@ =~= t@.subrange(i as int, k as int));
    }
    assert(t@.subrange(i as int, n as int) =~= t@.skip(i as int));
    r
}

impl Object {
    /// A copy of these params in which each `$template` value whose name
    /// `bindings` holds is replaced by a copy of the bound value.
    pub fn substitute_templates(&self, bindings: &Object) -> (r: Object)
        ensures
            r@.len() == self@.len(),
            forall|i: int| 0 <= i < self@.len() ==> (#[trigger] r@[i]).0@ == self@[i].0@,
            forall|i: int|
                0 <= i < self@.len() ==> substituted(self@[i].1, bindings@, (#[trigger] r@[i]).1),
    {
        let mut out: Vec<(String, Value)> = Vec::new();
        let mut i: usize = 0;
        while i < self.entries.len()
            invariant
                i <= self.entries@.len(),
                out@.len() == i,
                forall|j: int| 0 <= j < i ==> (#[trigger] out@[j]).0@ == self.entries@[j].0@,
                forall|j: int|
                    0 <= j < i ==> substituted(self.entries@[j].1, bindings@, (#[trigger] out@[j]).1),
            decreases self.entries.len() - i,
        {
            let k = self.entries[i].0.clone();
            let v = &self.entries[i].1;
            let nv = match v {
                Value::Template(t) => {
                    let key = template_name(t.as_str());
                    match bindings.get(key.as_str()) {
                        Some(b) => b.duplicate(),
                        None => v.duplicate(),
                    }
                },
                _ => v.duplicate(),
            };
            let ghost before = out@;
            let ghost n = i as int;
            out.push((k, nv));
            assert forall|j: int| 0 <= j < n + 1 implies (#[trigger] out@[j]).0@ == self.entries@[j].0@
                && substituted(self.entries@[j].1, bindings@, out@[j].1) by {
                if j < n {
                    assert(out@[j] == before[j]);
                } else {
                    assert(out@[n] == (k, nv));
                }
            }
            i = i + 1;
        }
        Object { entries: out }
    }

    /// These params with each of `over`'s params set on top, in `over`'s
    /// order: an existing name keeps its place and takes the new value.
    pub fn overridden_by(&self, over: &Object) -> (r: Object)
        ensures
            forall|k: Seq<char>|
                #![trigger has_param(r@, k)]
                has_param(r@, k) <==> has_param(self@, k) || has_param(over@, k),
    {
        let mut r = self.duplicate();
        proof {
            assert forall|k: Seq<char>| #![trigger has_param(r@, k)] has_param(r@, k) <==> has_param(self@, k) by {
                if has_param(r@, k) {
                    let i = choose|i: int| 0 <= i < r@.len() && (#[trigger] r@[i]).0@ == k;
                    assert(self@[i].0@ == k);
                }
                if has_param(self@, k) {
                    let i = choose|i: int| 0 <= i < self@.len() && (#[trigger] self@[i]).0@ == k;
                    assert(r@[i].0@ == k);
                }
            }
        }
        let mut i: usize = 0;
        while i < over.entries.len()
            invariant
                i <= over.entries@.len(),
                forall|k: Seq<char>|
                    #![trigger has_param(r@, k)]
                    has_param(r@, k) <==> has_param(self@, k) || has_param(over.entries@.take(i as int), k),
            decreases over.entries.len() - i,
        {
            let k = over.entries[i].0.clone();
            let v = over.entries[i].1.duplicate();
            let ghost old_r = r@;
            let ghost pre = over.entries@.take(i as int);
            let ghost post = over.entries@.take(i as int + 1);
            let ghost key = k@;
            proof {
                lemma_key_pos(old_r, key);
            }
            let _ = r.insert(k, v);
            proof {
                assert forall|q: Seq<char>| #![trigger has_param(r@, q)] has_param(r@, q) <==> has_param(self@, q) || has_param(post, q) by {
                    if has_param(r@, q) {
                        let a = choose|a: int| 0 <= a < r@.len() && (#[trigger] r@[a]).0@ == q;
                        if a < old_r.len() {
                            assert(old_r[a].0@ == q);
                            assert(has_param(old_r, q));
                        } else {
                            assert(post[i as int].0@ == q);
                        }
                    }
                    if has_param(post, q) {
                        let a = choose|a: int| 0 <= a < post.len() && (#[trigger] post[a]).0@ == q;
                        if a < i {
                            assert(pre[a].0@ == q);
                            assert(has_param(pre, q));
                        }
                    }
                    if has_param(old_r, q) {
                        let a = choose|a: int| 0 <= a < old_r.len() && (#[trigger] old_r[a]).0@ == q;
                        assert(r@[a].0@ == q);
                    }
                    if has_param(pre, q) {
                        let a = choose|a: int| 0 <= a < pre.len() && (#[trigger] pre[a]).0@ == q;
                        assert(post[a].0@ == q);
                    }
                    if q == key {
                        if key_pos(old_r, key) >= 0 {
                            assert(r@[key_pos(old_r, key)].0@ == q);
                        } else {
                            assert(r@[old_r.len() as int].0@ == q);
                        }
                        assert(post[i as int].0@ == q);
                    }
                }
            }
            i = i + 1;
        }
        assert(over.entries@.take(i as int) == over.entries@);
        r
    }
}

/// Some param in `s` is named `k`.
pub open spec fn has_param(s: Seq<(String, Value)>, k: Seq<char>) -> bool {
    exists|i: int| 0 <= i < s.len() && (#[trigger] s[i]).0@ == k
}

/// `key_pos` over a prefix agrees with `key_pos` over the whole list once
/// the prefix holds a match.
pub proof fn lemma_key_pos_prefix(s: Seq<(String, Value)>, k: Seq<char>, n: int)
    requires
        0 <= n <= s.len(),
    ensures
        key_pos(s.take(n), k) >= 0 ==> key_pos(s, k) == key_pos(s.take(n), k),
        key_pos(s.take(n), k) == -1 ==> (key_pos(s, k) == -1 || key_pos(s, k) >= n),
    decreases s.len() - n,
{
    if n < s.len() {
        lemma_key_pos_prefix(s, k, n + 1);
        assert(s.take(n + 1).drop_last() == s.take(n));
    } else {
        assert(s.take(n) == s);
    }
}

/// A pipe applied to a node after it is added, with its parameters.
#[derive(Debug, PartialEq, Default)]
pub struct ASTPipe {
    pub name: String,
    pub params: Option<Value>,
}

/// `r` is a copy of the pipe `p`.
pub open spec fn copied_pipe(p: ASTPipe, r: ASTPipe) -> bool {
    &&& r.name == p.name
    &&& match (p.params, r.params) {
        (Some(a), Some(b)) => copied_value(a, b),
        (None, None) => true,
        _ => false,
    }
}

impl ASTPipe {
    /// A copy of this pipe.
    pub fn duplicate(&self) -> (r: ASTPipe)
        ensures
            copied_pipe(*self, r),
    {
        ASTPipe {
            name: self.name.clone(),
            params: match &self.params {
                Some(v) => Some(v.duplicate()),
                None => None,
            },
        }
    }
}

/// A copy of a list of pipes.
pub fn duplicate_pipes(pipes: &Vec<ASTPipe>) -> (r: Vec<ASTPipe>)
    ensures
        r@.len() == pipes@.len(),
        forall|i: int| 0 <= i < pipes@.len() ==> copied_pipe(pipes@[i], #[trigger] r@[i]),
{
    let mut r: Vec<ASTPipe> = Vec::new();
    let mut i: usize = 0;
    while i < pipes.len()
        invariant
            i <= pipes@.len(),
            r@.len() == i,
            forall|j: int| 0 <= j < i ==> copied_pipe(pipes@[j], #[trigger] r@[j]),
        decreases pipes.len() - i,
    {
        let ghost before = r@;
        let p = pipes[i].duplicate();
        r.push(p);
        assert forall|j: int| 0 <= j < i + 1 implies copied_pipe(pipes@[j], #[trigger] r@[j]) by {
            if j < i {
                assert(r@[j] == before[j]);
            }
        }
        i = i + 1;
    }
    r
}

/// Whether an IR node is a concrete leaf or an unexpanded macro reference.
#[derive(Debug, Clone, Copy, PartialEq, Eq, Structural)]
pub enum IRNodeKind {
    /// A concrete, instantiable node.
    Leaf,
    /// An unexpanded macro reference; `node_type` names the macro.
    MacroRef,
}

/// Opaque, stable identifier for a node in the graph IR.
#[derive(Debug, Clone, Copy, PartialEq, Eq, Hash, PartialOrd, Ord, Structural)]
pub struct NodeId(pub u32);

impl NodeId {
    pub fn index(self) -> (r: u32)
        ensures
            r == self.0,
    {
        self.0
    }
}

/// A directed edge connecting an output port of one node to an input port
/// of another.
#[derive(Debug, Clone, PartialEq)]
pub struct IREdge {
    pub source: NodeId,
    pub source_port: Port,
    pub sink: NodeId,
    pub sink_port: Port,
}

/// A `$name` placeholder that a macro instantiation's params fill in.
pub struct Template(pub String);

/// Errors raised while turning a parse tree into an AST.
#[derive(Debug, Clone, PartialEq)]
pub enum BuildAstError {
    ConstructionError(String),
}

} // verus!
