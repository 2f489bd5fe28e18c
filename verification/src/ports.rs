use crate::text::push_decimal;
use vstd::prelude::*;

verus! {

/// The name and position of one port of a node.
#[derive(Debug, Clone, PartialEq)]
pub struct PortMeta {
    pub name: String,
    pub index: usize,
}

/// A node's port layout, at audio and at control rate.
#[derive(Debug, Clone, PartialEq)]
pub struct Ports {
    pub audio_in: Vec<PortMeta>,
    pub audio_out: Vec<PortMeta>,
    pub control_in: Vec<PortMeta>,
    pub control_out: Vec<PortMeta>,
}

/// Which rate of ports a connection addresses.
#[derive(Clone, Copy, Debug, PartialEq, Eq, Hash, Structural)]
pub enum PortRate {
    Audio,
    Control,
}

/// `ports` are numbered in order and carry the names `names`.
pub open spec fn laid_out(ports: Seq<PortMeta>, names: Seq<Seq<char>>) -> bool {
    &&& ports.len() == names.len()
    &&& forall|i: int| 0 <= i < ports.len() ==> (#[trigger] ports[i]).index == i && ports[i].name@
        == names[i]
}

/// The names of `n` unnamed ports following `start` others: their positions.
pub open spec fn positional_names(start: nat, n: nat) -> Seq<Seq<char>> {
    Seq::new(n, |i: int| crate::text::decimal((start + i) as nat))
}

/// The names of a list of string slices.
pub open spec fn names_of(names: Seq<&'static str>) -> Seq<Seq<char>> {
    names.map_values(|s: &'static str| s@)
}

/// Builds a [`Ports`] layout one group at a time. Unnamed ports are named
/// by their position.
#[derive(Debug, Clone, PartialEq)]
pub struct PortBuilder {
    ports: Ports,
}

fn append_positional(list: &mut Vec<PortMeta>, n: usize)
    requires
        old(list)@.len() + n <= usize::MAX,
    ensures
        final(list)@.len() == old(list)@.len() + n,
        forall|i: int| 0 <= i < old(list)@.len() ==> final(list)@[i] == old(list)@[i],
        forall|i: int|
            old(list)@.len() <= i < final(list)@.len() ==> (#[trigger] final(list)@[i]).index == i
                && final(list)@[i].name@ == crate::text::decimal(i as nat),
{
    let start = list.len();
    let mut k: usize = 0;
    while k < n
        invariant
            start == old(list)@.len(),
            start + n <= usize::MAX,
            k <= n,
            list@.len() == start + k,
            forall|i: int| 0 <= i < start ==> list@[i] == old(list)@[i],
            forall|i: int|
                start <= i < list@.len() ==> (#[trigger] list@[i]).index == i && list@[i].name@
                    == crate::text::decimal(i as nat),
        decreases n - k,
    {
        let mut name = String::new();
        push_decimal(&mut name, start + k);
        list.push(PortMeta { name, index: start + k });
        k = k + 1;
    }
}

fn append_named(list: &mut Vec<PortMeta>, names: &[&'static str])
    requires
        old(list)@.len() + names@.len() <= usize::MAX,
    ensures
        final(list)@.len() == old(list)@.len() + names@.len(),
        forall|i: int| 0 <= i < old(list)@.len() ==> final(list)@[i] == old(list)@[i],
        forall|i: int|
            old(list)@.len() <= i < final(list)@.len() ==> (#[trigger] final(list)@[i]).index == i
                && final(list)@[i].name@ == names@[i - old(list)@.len()]@,
{
    let start = list.len();
    let mut k: usize = 0;
    while k < names.len()
        invariant
            start == old(list)@.len(),
            start + names@.len() <= usize::MAX,
            k <= names@.len(),
            list@.len() == start + k,
            forall|i: int| 0 <= i < start ==> list@[i] == old(list)@[i],
            forall|i: int|
                start <= i < list@.len() ==> (#[trigger] list@[i]).index == i && list@[i].name@
                    == names@[i - start]@,
        decreases names@.len() - k,
    {
        let mut name = String::new();
        crate::text::push_str(&mut name, names[k]);
        list.push(PortMeta { name, index: start + k });
        k = k + 1;
    }
}

/// `list` is `before` followed by `n` ports named by position.
pub open spec fn extended_positional(before: Seq<PortMeta>, list: Seq<PortMeta>, n: nat) -> bool {
    &&& list.len() == before.len() + n
    &&& forall|i: int| 0 <= i < before.len() ==> list[i] == before[i]
    &&& forall|i: int|
        before.len() <= i < list.len() ==> (#[trigger] list[i]).index == i && list[i].name@
            == crate::text::decimal(i as nat)
}

/// `list` is `before` followed by ports carrying `names`.
pub open spec fn extended_named(before: Seq<PortMeta>, list: Seq<PortMeta>, names: Seq<&'static str>) -> bool {
    &&& list.len() == before.len() + names.len()
    &&& forall|i: int| 0 <= i < before.len() ==> list[i] == before[i]
    &&& forall|i: int|
        before.len() <= i < list.len() ==> (#[trigger] list[i]).index == i && list[i].name@
            == names[i - before.len()]@
}

impl PortBuilder {
    /// A builder with no ports yet.
    pub fn new() -> (b: Self)
        ensures
            b.layout().audio_in@.len() == 0,
            b.layout().audio_out@.len() == 0,
            b.layout().control_in@.len() == 0,
            b.layout().control_out@.len() == 0,
    {
        PortBuilder {
            ports: Ports {
                audio_in: Vec::new(),
                audio_out: Vec::new(),
                control_in: Vec::new(),
                control_out: Vec::new(),
            },
        }
    }

    /// The layout built so far.
    pub closed spec fn layout(&self) -> Ports {
        self.ports
    }

    /// Add `n` audio inputs.
    pub fn audio_in(self, n: usize) -> (b: Self)
        requires
            self.layout().audio_in@.len() + n <= usize::MAX,
        ensures
            extended_positional(self.layout().audio_in@, b.layout().audio_in@, n as nat),
            b.layout().audio_out@ == self.layout().audio_out@,
            b.layout().control_in@ == self.layout().control_in@,
            b.layout().control_out@ == self.layout().control_out@,
    {
        let mut b = self;
        append_positional(&mut b.ports.audio_in, n);
        b
    }

    /// Add `n` audio outputs.
    pub fn audio_out(self, n: usize) -> (b: Self)
        requires
            self.layout().audio_out@.len() + n <= usize::MAX,
        ensures
            extended_positional(self.layout().audio_out@, b.layout().audio_out@, n as nat),
            b.layout().audio_in@ == self.layout().audio_in@,
            b.layout().control_in@ == self.layout().control_in@,
            b.layout().control_out@ == self.layout().control_out@,
    {
        let mut b = self;
        append_positional(&mut b.ports.audio_out, n);
        b
    }

    /// Add one named audio input per name.
    pub fn audio_in_named(self, names: &[&'static str]) -> (b: Self)
        requires
            self.layout().audio_in@.len() + names@.len() <= usize::MAX,
        ensures
            extended_named(self.layout().audio_in@, b.layout().audio_in@, names@),
            b.layout().audio_out@ == self.layout().audio_out@,
            b.layout().control_in@ == self.layout().control_in@,
            b.layout().control_out@ == self.layout().control_out@,
    {
        let mut b = self;
        append_named(&mut b.ports.audio_in, names);
        b
    }

    /// Add one named audio output per name.
    pub fn audio_out_named(self, names: &[&'static str]) -> (b: Self)
        requires
            self.layout().audio_out@.len() + names@.len() <= usize::MAX,
        ensures
            extended_named(self.layout().audio_out@, b.layout().audio_out@, names@),
            b.layout().audio_in@ == self.layout().audio_in@,
            b.layout().control_in@ == self.layout().control_in@,
            b.layout().control_out@ == self.layout().control_out@,
    {
        let mut b = self;
        append_named(&mut b.ports.audio_out, names);
        b
    }

    /// Add `n` control inputs.
    pub fn control_in(self, n: usize) -> (b: Self)
        requires
            self.layout().control_in@.len() + n <= usize::MAX,
        ensures
            extended_positional(self.layout().control_in@, b.layout().control_in@, n as nat),
            b.layout().audio_in@ == self.layout().audio_in@,
            b.layout().audio_out@ == self.layout().audio_out@,
            b.layout().control_out@ == self.layout().control_out@,
    {
        let mut b = self;
        append_positional(&mut b.ports.control_in, n);
        b
    }

    /// Add `n` control outputs.
    pub fn control_out(self, n: usize) -> (b: Self)
        requires
            self.layout().control_out@.len() + n <= usize::MAX,
        ensures
            extended_positional(self.layout().control_out@, b.layout().control_out@, n as nat),
            b.layout().audio_in@ == self.layout().audio_in@,
            b.layout().audio_out@ == self.layout().audio_out@,
            b.layout().control_in@ == self.layout().control_in@,
    {
        let mut b = self;
        append_positional(&mut b.ports.control_out, n);
        b
    }

    /// The finished layout.
    pub fn build(self) -> (p: Ports)
        ensures
            p.audio_in@ == self.layout().audio_in@,
            p.audio_out@ == self.layout().audio_out@,
            p.control_in@ == self.layout().control_in@,
            p.control_out@ == self.layout().control_out@,
    {
        self.ports
    }
}

} // verus!

verus! {

impl PortMeta {
    /// A copy of this port description.
    pub fn duplicate(&self) -> (r: PortMeta)
        ensures
            r == *self,
    {
        PortMeta { name: self.name.clone(), index: self.index }
    }
}

fn duplicate_list(list: &Vec<PortMeta>) -> (r: Vec<PortMeta>)
    ensures
        r@ == list@,
{
    let mut r: Vec<PortMeta> = Vec::new();
    let mut k: usize = 0;
    while k < list.len()
        invariant
            k <= list@.len(),
            r@ == list@.take(k as int),
        decreases list@.len() - k,
    {
        r.push(list[k].duplicate());
        k = k + 1;
        assert(r@ =~= list@.take(k as int));
    }
    assert(list@.take(k as int) =~= list@);
    r
}

impl View for Ports {
    type V = (Seq<PortMeta>, Seq<PortMeta>, Seq<PortMeta>, Seq<PortMeta>);

    open spec fn view(&self) -> Self::V {
        (self.audio_in@, self.audio_out@, self.control_in@, self.control_out@)
    }
}

impl Ports {
    /// A copy of this layout.
    pub fn duplicate(&self) -> (r: Ports)
        ensures
            r@ == self@,
    {
        Ports {
            audio_in: duplicate_list(&self.audio_in),
            audio_out: duplicate_list(&self.audio_out),
            control_in: duplicate_list(&self.control_in),
            control_out: duplicate_list(&self.control_out),
        }
    }
}

} // verus!

verus! {

/// `p` has `ain` audio inputs and `aout` audio outputs named by position,
/// and no control ports.
pub open spec fn positional_layout(p: Ports, ain: nat, aout: nat) -> bool {
    &&& laid_out(p.audio_in@, positional_names(0, ain))
    &&& laid_out(p.audio_out@, positional_names(0, aout))
    &&& p.control_in@.len() == 0
    &&& p.control_out@.len() == 0
}

/// Ports appended to an empty list by position are laid out by position.
pub proof fn lemma_fresh_positional(list: Seq<PortMeta>, n: nat)
    requires
        extended_positional(Seq::empty(), list, n),
    ensures
        laid_out(list, positional_names(0, n)),
{
}

/// Ports appended to an empty list by name are laid out with those names.
pub proof fn lemma_fresh_named(list: Seq<PortMeta>, names: Seq<&'static str>)
    requires
        extended_named(Seq::empty(), list, names),
    ensures
        laid_out(list, names_of(names)),
{
}

/// `audio_in(ain).audio_out(aout).build()` from an empty builder.
pub fn audio_ports(ain: usize, aout: usize) -> (p: Ports)
    ensures
        positional_layout(p, ain as nat, aout as nat),
{
    let b = PortBuilder::new().audio_in(ain).audio_out(aout);
    proof {
        lemma_fresh_positional(b.layout().audio_in@, ain as nat);
        lemma_fresh_positional(b.layout().audio_out@, aout as nat);
    }
    b.build()
}

} // verus!
