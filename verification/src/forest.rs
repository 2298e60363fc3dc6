//! The mathematical model of an equivalence graph: a finite map from a vertex
//! to its parent, in which every parent is smaller than its child.

use crate::vertex::{
    at_most, greater, lemma_precedes_transitive, lemma_precedes_trichotomy, lesser, precedes,
    Vertex,
};
use vstd::prelude::*;

verus! {

/// Every stored parent is strictly smaller than its child.
pub open spec fn decreasing<V: Vertex>(m: Map<V, V>) -> bool {
    forall|k: V| #[trigger] m.contains_key(k) ==> precedes(m[k], k)
}

/// A parent map that describes a forest: finitely many entries, each of which
/// points downward.
pub open spec fn is_forest<V: Vertex>(m: Map<V, V>) -> bool {
    &&& m.dom().finite()
    &&& decreasing(m)
}

/// The keys of `m` that are `v` or come before it. Their number bounds the
/// length of the parent chain that starts at `v`.
pub open spec fn keys_up_to<V: Vertex>(m: Map<V, V>, v: V) -> Set<V> {
    m.dom().filter(|k: V| at_most(k, v))
}

/// Going from a key to anything smaller leaves fewer keys to visit.
pub proof fn lemma_fewer_keys_below<V: Vertex>(m: Map<V, V>, v: V, p: V)
    requires
        m.dom().finite(),
        m.contains_key(v),
        precedes(p, v),
    ensures
        keys_up_to(m, p).len() < keys_up_to(m, v).len(),
{
    let lo = keys_up_to(m, p);
    let hi = keys_up_to(m, v);
    m.dom().lemma_len_filter(|k: V| at_most(k, v));
    assert forall|k: V| lo.contains(k) implies hi.contains(k) by {
        if k != p {
            lemma_precedes_transitive(k, p, v);
        }
    }
    assert(!lo.contains(v)) by {
        lemma_precedes_trichotomy(v, p);
    }
    assert(hi.contains(v));
    lo.lemma_subset_not_in_lt(hi, v);
}

/// The representative of `v`: the end of the parent chain that starts at `v`.
/// A vertex without an entry is its own representative.
pub open spec fn root<V: Vertex>(m: Map<V, V>, v: V) -> V
    decreases keys_up_to(m, v).len(),
    when is_forest(m)
    via root_terminates::<V>
{
    if m.contains_key(v) {
        root(m, m[v])
    } else {
        v
    }
}

#[via_fn]
proof fn root_terminates<V: Vertex>(m: Map<V, V>, v: V) {
    if m.contains_key(v) {
        lemma_fewer_keys_below(m, v, m[v]);
    }
}

/// The number of links between `v` and its representative.
pub open spec fn depth<V: Vertex>(m: Map<V, V>, v: V) -> nat
    decreases keys_up_to(m, v).len(),
    when is_forest(m)
    via depth_terminates::<V>
{
    if m.contains_key(v) {
        1 + depth(m, m[v])
    } else {
        0
    }
}

#[via_fn]
proof fn depth_terminates<V: Vertex>(m: Map<V, V>, v: V) {
    if m.contains_key(v) {
        lemma_fewer_keys_below(m, v, m[v]);
    }
}

/// Two vertices are equivalent when they have the same representative.
pub open spec fn same_class<V: Vertex>(m: Map<V, V>, a: V, b: V) -> bool {
    root(m, a) == root(m, b)
}

/// A representative has no parent, and no vertex is smaller than its
/// representative.
pub proof fn lemma_root_is_least<V: Vertex>(m: Map<V, V>, v: V)
    requires
        is_forest(m),
    ensures
        !m.contains_key(root(m, v)),
        at_most(root(m, v), v),
        m.contains_key(v) ==> precedes(root(m, v), v),
    decreases keys_up_to(m, v).len(),
{
    if m.contains_key(v) {
        lemma_fewer_keys_below(m, v, m[v]);
        lemma_root_is_least(m, m[v]);
        if root(m, m[v]) != m[v] {
            lemma_precedes_transitive(root(m, m[v]), m[v], v);
        }
    }
}

/// The parent map after `a` and `b` were declared equivalent: unchanged where
/// they already share a representative, and otherwise with one new entry that
/// hangs the larger of the two representatives below the smaller.
pub open spec fn related<V: Vertex>(m: Map<V, V>, a: V, b: V) -> Map<V, V> {
    let ra = root(m, a);
    let rb = root(m, b);
    if ra == rb {
        m
    } else {
        m.insert(greater(ra, rb), lesser(ra, rb))
    }
}

/// The representative that `v` has once `a` and `b` were declared equivalent:
/// the classes of `a` and `b` share the smaller of their two representatives,
/// every other vertex keeps its own.
pub open spec fn merged_root<V: Vertex>(m: Map<V, V>, a: V, b: V, v: V) -> V {
    if same_class(m, v, a) || same_class(m, v, b) {
        lesser(root(m, a), root(m, b))
    } else {
        root(m, v)
    }
}

/// The parent map after a whole sequence of pairs was related, one pair after
/// the other.
pub open spec fn related_all<V: Vertex>(m: Map<V, V>, pairs: Seq<(V, V)>) -> Map<V, V>
    decreases pairs.len(),
{
    if pairs.len() == 0 {
        m
    } else {
        related(related_all(m, pairs.drop_last()), pairs.last().0, pairs.last().1)
    }
}

/// The parent map after full path compression: the same keys, each pointing
/// straight at its representative.
pub open spec fn flattened<V: Vertex>(m: Map<V, V>) -> Map<V, V> {
    Map::new(|k: V| m.contains_key(k), |k: V| root(m, k))
}

/// The direct children of `p`: the vertices whose stored parent is `p`.
pub open spec fn children<V: Vertex>(m: Map<V, V>, p: V) -> Set<V> {
    Set::new(|c: V| m.contains_key(c) && m[c] == p)
}

/// The members of the class of `v` that have an entry: every vertex of the
/// class but its representative.
pub open spec fn class_keys<V: Vertex>(m: Map<V, V>, v: V) -> Set<V> {
    Set::new(|k: V| m.contains_key(k) && same_class(m, k, v))
}

/// Hanging one representative below a smaller one moves exactly the vertices
/// of the larger one's class, and moves them to the smaller one.
pub proof fn lemma_link<V: Vertex>(m: Map<V, V>, hi: V, lo: V, v: V)
    requires
        is_forest(m),
        !m.contains_key(hi),
        !m.contains_key(lo),
        precedes(lo, hi),
    ensures
        is_forest(m.insert(hi, lo)),
        root(m.insert(hi, lo), v) == if root(m, v) == hi {
            lo
        } else {
            root(m, v)
        },
    decreases keys_up_to(m, v).len(),
{
    let linked = m.insert(hi, lo);
    lemma_precedes_trichotomy(lo, hi);
    if m.contains_key(v) {
        lemma_fewer_keys_below(m, v, m[v]);
        lemma_link(m, hi, lo, m[v]);
        assert(linked[v] == m[v]);
    } else if v == hi {
        assert(linked[hi] == lo);
        assert(!linked.contains_key(lo));
        assert(root(linked, lo) == lo);
    } else {
        assert(!linked.contains_key(v));
    }
}

/// Pointing a key at any smaller vertex of its own class changes no
/// representative.
pub proof fn lemma_shortcut<V: Vertex>(m: Map<V, V>, k: V, p: V, v: V)
    requires
        is_forest(m),
        m.contains_key(k),
        precedes(p, k),
        root(m, p) == root(m, k),
    ensures
        is_forest(m.insert(k, p)),
        root(m.insert(k, p), v) == root(m, v),
    decreases keys_up_to(m, v).len(),
{
    let cut = m.insert(k, p);
    if v == k {
        lemma_fewer_keys_below(m, k, p);
        lemma_shortcut(m, k, p, p);
        assert(cut[k] == p);
    } else if m.contains_key(v) {
        lemma_fewer_keys_below(m, v, m[v]);
        lemma_shortcut(m, k, p, m[v]);
        assert(cut[v] == m[v]);
    } else {
        assert(!cut.contains_key(v));
    }
}

} // verus!
