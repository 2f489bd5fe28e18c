//! Endpoint resolution: the arity rules that turn the multiplicity authored
//! in the DSL (node selectors, port slices, fan-in/out) into a definite
//! wiring. Two selections are compatible when they have the same length
//! (zip) or one of them has length 1 (broadcast); otherwise it is an error.
use crate::ir::Port;
use crate::text::{decimal, push_decimal, push_str};
use vstd::prelude::*;

verus! {

/// The single port that the `i`-th instance of a strided or sliced port
/// resolves to; other ports pass through unchanged.
pub open spec fn spec_port_for_instance(port: Port, i: nat) -> Port {
    match port {
        Port::Stride { start, stride, .. } => Port::Index((start + i * stride) as usize),
        Port::Slice(start, _) => Port::Index((start + i) as usize),
        other => other,
    }
}

/// The index arithmetic of `spec_port_for_instance` fits in a `usize`.
pub open spec fn port_for_instance_fits(port: Port, i: nat) -> bool {
    match port {
        Port::Stride { start, stride, .. } => start + i * stride <= usize::MAX,
        Port::Slice(start, _) => start + i <= usize::MAX,
        _ => true,
    }
}

/// Resolve a strided/sliced [`Port`] to the concrete single-port index for
/// the `i`-th instance of a multiplicity; non-multi ports pass through.
pub fn port_for_instance(port: &Port, i: usize) -> (r: Port)
    requires
        port_for_instance_fits(*port, i as nat),
    ensures
        r == spec_port_for_instance(*port, i as nat),
{
    match port {
        Port::Stride { start, stride, .. } => {
            proof {
                vstd::arithmetic::mul::lemma_mul_is_commutative(i as int, *stride as int);
            }
            Port::Index(*start + i * *stride)
        },
        Port::Slice(start, _) => Port::Index(*start + i),
        other => other.duplicate(),
    }
}

/// The two selections of a connection could not be matched under the
/// broadcasting rules (an `n:m` connection with `n != m`, neither being 1).
#[derive(Debug, Clone, PartialEq, Eq)]
pub struct BroadcastError {
    pub src: usize,
    pub snk: usize,
}

/// How a broadcast error reads.
pub open spec fn broadcast_error_text(src: usize, snk: usize) -> Seq<char> {
    "cannot broadcast connection of arity "@ + decimal(src as nat) + ":"@ + decimal(snk as nat)
        + " (neither side is 1 and lengths differ)"@
}

impl BroadcastError {
    /// The error's message.
    pub fn to_string(&self) -> (r: String)
        ensures
            r@ == broadcast_error_text(self.src, self.snk),
    {
        let mut m = String::new();
        push_str(&mut m, "cannot broadcast connection of arity ");
        push_decimal(&mut m, self.src);
        push_str(&mut m, ":");
        push_decimal(&mut m, self.snk);
        push_str(&mut m, " (neither side is 1 and lengths differ)");
        m
    }
}

/// How a source selection maps onto a sink selection.
#[derive(Debug, Clone, PartialEq, Eq)]
pub enum Plan<S, T> {
    /// Equal-length (incl. 1:1): pair element-wise.
    Zip(Vec<(S, T)>),
    /// One source broadcast to many sinks.
    OneToMany(S, Vec<T>),
    /// Many sources reduced into one sink (fan-in).
    ManyToOne(Vec<S>, T),
}

/// Selections of these lengths can be matched.
pub open spec fn broadcast_compatible(n: nat, m: nat) -> bool {
    n == 0 || m == 0 || n == m || n == 1 || m == 1
}

/// `v` pairs `srcs` and `snks` element-wise, each element a clone.
pub open spec fn zipped<S: Clone, T: Clone>(srcs: Seq<S>, snks: Seq<T>, v: Seq<(S, T)>) -> bool {
    &&& v.len() == srcs.len()
    &&& v.len() == snks.len()
    &&& forall|k: int|
        0 <= k < v.len() ==> cloned(srcs[k], (#[trigger] v[k]).0) && cloned(snks[k], v[k].1)
}

/// `v` holds a clone of each element of `s`, in order.
pub open spec fn all_cloned<A: Clone>(s: Seq<A>, v: Seq<A>) -> bool {
    &&& v.len() == s.len()
    &&& forall|k: int| 0 <= k < v.len() ==> cloned(s[k], #[trigger] v[k])
}

fn clone_all<A: Clone>(s: &[A]) -> (v: Vec<A>)
    ensures
        all_cloned(s@, v@),
{
    let mut v: Vec<A> = Vec::new();
    let mut k: usize = 0;
    while k < s.len()
        invariant
            k <= s@.len(),
            v@.len() == k,
            forall|j: int| 0 <= j < k ==> cloned(s@[j], #[trigger] v@[j]),
        decreases s@.len() - k,
    {
        v.push(s[k].clone());
        k = k + 1;
    }
    v
}

/// Match a source selection against a sink selection under broadcasting:
///
/// - either side empty → empty `Zip` (nothing to wire)
/// - `(n, n)` → `Zip` (includes the `1:1` case)
/// - `(1, n)` with `n > 1` → `OneToMany`
/// - `(n, 1)` with `n > 1` → `ManyToOne`
/// - otherwise → `BroadcastError`
pub fn broadcast<S: Clone, T: Clone>(srcs: &[S], snks: &[T]) -> (r: Result<
    Plan<S, T>,
    BroadcastError,
>)
    ensures
        r is Err <==> !broadcast_compatible(srcs@.len(), snks@.len()),
        srcs@.len() == 0 || snks@.len() == 0 ==> (r matches Ok(Plan::Zip(v)) && v@.len() == 0),
        srcs@.len() != 0 && srcs@.len() == snks@.len() ==> (r matches Ok(Plan::Zip(v)) && zipped(
            srcs@,
            snks@,
            v@,
        )),
        srcs@.len() == 1 && snks@.len() > 1 ==> (r matches Ok(Plan::OneToMany(s, v)) && cloned(
            srcs@[0],
            s,
        ) && all_cloned(snks@, v@)),
        srcs@.len() > 1 && snks@.len() == 1 ==> (r matches Ok(Plan::ManyToOne(v, t))
            && all_cloned(srcs@, v@) && cloned(snks@[0], t)),
        !broadcast_compatible(srcs@.len(), snks@.len()) ==> r == Err::<Plan<S, T>, BroadcastError>(
            BroadcastError { src: srcs@.len() as usize, snk: snks@.len() as usize },
        ),
{
    let s = srcs.len();
    let t = snks.len();
    if s == 0 || t == 0 {
        Ok(Plan::Zip(Vec::new()))
    } else if s == t {
        let mut v: Vec<(S, T)> = Vec::new();
        let mut k: usize = 0;
        while k < s
            invariant
                s == srcs@.len(),
                t == snks@.len(),
                s == t,
                k <= s,
                v@.len() == k,
                forall|j: int|
                    0 <= j < k ==> cloned(srcs@[j], (#[trigger] v@[j]).0) && cloned(
                        snks@[j],
                        v@[j].1,
                    ),
            decreases s - k,
        {
            v.push((srcs[k].clone(), snks[k].clone()));
            k = k + 1;
        }
        Ok(Plan::Zip(v))
    } else if s == 1 {
        Ok(Plan::OneToMany(srcs[0].clone(), clone_all(snks)))
    } else if t == 1 {
        Ok(Plan::ManyToOne(clone_all(srcs), snks[0].clone()))
    } else {
        Err(BroadcastError { src: s, snk: t })
    }
}

} // verus!
