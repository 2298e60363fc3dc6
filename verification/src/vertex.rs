//! The vertex domain: what a type must provide to be partitioned by an
//! equivalence graph, and the strict total order the graph is built on.

use std::cmp::Ordering;
use std::hash::Hash;
use vstd::laws_cmp::obeys_cmp;
use vstd::laws_eq::obeys_concrete_eq;
use vstd::prelude::*;
use vstd::std_specs::cmp::OrdSpec;
use vstd::std_specs::cmp::PartialOrdSpec;
use vstd::std_specs::hash::obeys_key_model;

verus! {

/// What the graph assumes of a vertex type, beyond the bare std traits:
///
/// * it is a sound hash-map key (deterministic hash);
/// * `==` decides identity of values;
/// * `<`, `>`, `cmp` and `partial_cmp` agree with each other and describe one
///   total order, whose `Equal` is `==`;
/// * `clone` returns a value identical to the one it was called on.
pub open spec fn lawful_vertex<V: Clone + Ord + Hash>() -> bool {
    &&& obeys_key_model::<V>()
    &&& obeys_concrete_eq::<V>()
    &&& obeys_cmp::<V>()
    &&& forall|a: V, b: V| #[trigger] cloned(a, b) ==> a == b
}

/// A vertex of an equivalence graph: an opaque value with equality, hashing
/// and a total order.
///
/// The trait adds no run-time method to the std traits it extends. An
/// implementation only has to show that those traits behave lawfully on the
/// type, by proving [`lawful_vertex`].
pub trait Vertex: Sized + Clone + Ord + Eq + Hash {
    proof fn lawful()
        ensures
            lawful_vertex::<Self>(),
    ;
}

impl Vertex for u8 {
    proof fn lawful() {
        broadcast use vstd::laws_cmp::group_laws_cmp;
        broadcast use vstd::laws_eq::group_laws_eq;

    }
}

impl Vertex for u16 {
    proof fn lawful() {
        broadcast use vstd::laws_cmp::group_laws_cmp;
        broadcast use vstd::laws_eq::group_laws_eq;

    }
}

impl Vertex for u32 {
    proof fn lawful() {
        broadcast use vstd::laws_cmp::group_laws_cmp;
        broadcast use vstd::laws_eq::group_laws_eq;

    }
}

impl Vertex for u64 {
    proof fn lawful() {
        broadcast use vstd::laws_cmp::group_laws_cmp;
        broadcast use vstd::laws_eq::group_laws_eq;

    }
}

impl Vertex for usize {
    proof fn lawful() {
        broadcast use vstd::laws_cmp::group_laws_cmp;
        broadcast use vstd::laws_eq::group_laws_eq;

    }
}

/// `a` comes strictly before `b` in the vertex order.
pub open spec fn precedes<V: Vertex>(a: V, b: V) -> bool {
    a.partial_cmp_spec(&b) == Some(Ordering::Less)
}

/// `a` comes before `b` or is `b`.
pub open spec fn at_most<V: Vertex>(a: V, b: V) -> bool {
    precedes(a, b) || a == b
}

/// The smaller of two vertices.
pub open spec fn lesser<V: Vertex>(a: V, b: V) -> V {
    if precedes(b, a) {
        b
    } else {
        a
    }
}

/// The larger of two vertices.
pub open spec fn greater<V: Vertex>(a: V, b: V) -> V {
    if precedes(b, a) {
        a
    } else {
        b
    }
}

/// The order is transitive.
pub proof fn lemma_precedes_transitive<V: Vertex>(a: V, b: V, c: V)
    requires
        precedes(a, b),
        precedes(b, c),
    ensures
        precedes(a, c),
{
    V::lawful();
    reveal(vstd::laws_cmp::obeys_partial_cmp_spec_properties);
}

/// Of two vertices exactly one holds: the first comes before the second, they
/// are the same, or the second comes before the first.
pub proof fn lemma_precedes_trichotomy<V: Vertex>(a: V, b: V)
    ensures
        precedes(a, b) || a == b || precedes(b, a),
        !(precedes(a, b) && a == b),
        !(precedes(b, a) && a == b),
        !(precedes(a, b) && precedes(b, a)),
{
    V::lawful();
    reveal(vstd::laws_cmp::obeys_cmp_partial_ord);
    reveal(vstd::laws_cmp::obeys_cmp_ord);
    reveal(vstd::laws_cmp::obeys_partial_cmp_spec_properties);
    reveal(obeys_concrete_eq);
    assert(a.partial_cmp_spec(&b) == Some(a.cmp_spec(&b)));
    assert(b.partial_cmp_spec(&a) == Some(b.cmp_spec(&a)));
}

/// On the integer vertex types the vertex order is the order of the numbers.
pub proof fn lemma_integers_in_numeric_order()
    ensures
        forall|a: u8, b: u8| #[trigger] precedes(a, b) <==> a < b,
        forall|a: u16, b: u16| #[trigger] precedes(a, b) <==> a < b,
        forall|a: u32, b: u32| #[trigger] precedes(a, b) <==> a < b,
        forall|a: u64, b: u64| #[trigger] precedes(a, b) <==> a < b,
        forall|a: usize, b: usize| #[trigger] precedes(a, b) <==> a < b,
{
}

} // verus!
