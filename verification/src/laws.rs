//! What holds of every equivalence graph, stated over the parent-map model
//! that the contracts of the graph's operations speak of.

use crate::forest::{
    depth, flattened, is_forest, lemma_link, lemma_root_is_least, merged_root, related,
    related_all, root, same_class,
};
use crate::vertex::{greater, lemma_precedes_trichotomy, lesser, precedes, Vertex};
use vstd::prelude::*;

verus! {

/// Relating two vertices keeps the map a forest, joins exactly their two
/// classes, and leaves every other class as it was.
pub proof fn lemma_relate_merges<V: Vertex>(m: Map<V, V>, a: V, b: V, v: V)
    requires
        is_forest(m),
    ensures
        is_forest(related(m, a, b)),
        root(related(m, a, b), v) == merged_root(m, a, b, v),
{
    let ra = root(m, a);
    let rb = root(m, b);
    lemma_precedes_trichotomy(ra, rb);
    if ra != rb {
        lemma_root_is_least(m, a);
        lemma_root_is_least(m, b);
        lemma_link(m, greater(ra, rb), lesser(ra, rb), v);
    }
}

/// After two vertices were related they have the same representative.
pub proof fn lemma_relate_joins<V: Vertex>(m: Map<V, V>, a: V, b: V)
    requires
        is_forest(m),
    ensures
        same_class(related(m, a, b), a, b),
{
    lemma_relate_merges(m, a, b, a);
    lemma_relate_merges(m, a, b, b);
}

/// Relating never separates: two vertices with a common representative still
/// have one afterwards.
pub proof fn lemma_relate_keeps_classes<V: Vertex>(m: Map<V, V>, a: V, b: V, x: V, y: V)
    requires
        is_forest(m),
        same_class(m, x, y),
    ensures
        same_class(related(m, a, b), x, y),
{
    lemma_relate_merges(m, a, b, x);
    lemma_relate_merges(m, a, b, y);
}

/// The invariant survives everything: whatever pairs are related, in whatever
/// order, the map stays a forest, and it still is one after compression.
pub proof fn lemma_always_forest<V: Vertex>(m: Map<V, V>, pairs: Seq<(V, V)>)
    requires
        is_forest(m),
    ensures
        is_forest(related_all(m, pairs)),
        is_forest(flattened(related_all(m, pairs))),
    decreases pairs.len(),
{
    if pairs.len() > 0 {
        lemma_always_forest(m, pairs.drop_last());
        lemma_relate_merges(
            related_all(m, pairs.drop_last()),
            pairs.last().0,
            pairs.last().1,
            pairs.last().0,
        );
    }
    lemma_flatten_is_forest(related_all(m, pairs));
}

/// Relating a vertex to itself changes nothing.
pub proof fn lemma_relate_self<V: Vertex>(m: Map<V, V>, a: V)
    ensures
        related(m, a, a) == m,
{
}

/// Relating the same two vertices a second time changes nothing.
pub proof fn lemma_relate_idempotent<V: Vertex>(m: Map<V, V>, a: V, b: V)
    requires
        is_forest(m),
    ensures
        related(related(m, a, b), a, b) == related(m, a, b),
{
    lemma_relate_joins(m, a, b);
}

/// The order of the two arguments does not matter: both orders give the same
/// parent map, and so the same representative for every vertex.
pub proof fn lemma_relate_symmetric<V: Vertex>(m: Map<V, V>, a: V, b: V, v: V)
    ensures
        related(m, a, b) == related(m, b, a),
        root(related(m, a, b), v) == root(related(m, b, a), v),
{
    lemma_precedes_trichotomy(root(m, a), root(m, b));
}

/// Equivalence is transitive: once `a` was related to `b` and then `b` to `c`,
/// `a` and `c` have the same representative.
pub proof fn lemma_relate_transitive<V: Vertex>(m: Map<V, V>, a: V, b: V, c: V)
    requires
        is_forest(m),
    ensures
        same_class(related(related(m, a, b), b, c), a, c),
{
    let first = related(m, a, b);
    lemma_relate_joins(m, a, b);
    lemma_relate_merges(m, a, b, a);
    lemma_relate_keeps_classes(first, b, c, a, b);
    lemma_relate_joins(first, b, c);
}

/// Path compression keeps the map a forest.
pub proof fn lemma_flatten_is_forest<V: Vertex>(m: Map<V, V>)
    requires
        is_forest(m),
    ensures
        is_forest(flattened(m)),
{
    let flat = flattened(m);
    assert(flat.dom() =~= m.dom());
    assert forall|k: V| #[trigger] flat.contains_key(k) implies precedes(flat[k], k) by {
        lemma_root_is_least(m, k);
    }
}

/// Path compression changes no representative; in the compressed map no
/// vertex is more than one link away from its representative.
pub proof fn lemma_flatten_keeps_roots<V: Vertex>(m: Map<V, V>, v: V)
    requires
        is_forest(m),
    ensures
        root(flattened(m), v) == root(m, v),
        depth(flattened(m), v) <= 1,
{
    let flat = flattened(m);
    lemma_flatten_is_forest(m);
    lemma_root_is_least(m, v);
    if m.contains_key(v) {
        let top = root(m, v);
        assert(flat[v] == top);
        assert(!flat.contains_key(top));
        assert(root(flat, top) == top);
        assert(depth(flat, top) == 0);
    }
}

/// Compressing twice is compressing once.
pub proof fn lemma_flatten_idempotent<V: Vertex>(m: Map<V, V>)
    requires
        is_forest(m),
    ensures
        flattened(flattened(m)) == flattened(m),
{
    let flat = flattened(m);
    lemma_flatten_is_forest(m);
    assert forall|k: V| flat.contains_key(k) implies root(flat, k) == flat[k] by {
        lemma_flatten_keeps_roots(m, k);
    }
    assert(flattened(flat) =~= flat);
}

/// The representative of a class is its least vertex: it is equivalent to
/// itself, and no vertex of the class comes before it.
pub proof fn lemma_root_is_minimum<V: Vertex>(m: Map<V, V>, v: V, w: V)
    requires
        is_forest(m),
        same_class(m, v, w),
    ensures
        root(m, root(m, v)) == root(m, v),
        !precedes(w, root(m, v)),
{
    lemma_root_is_least(m, v);
    lemma_root_is_least(m, w);
    lemma_precedes_trichotomy(w, root(m, w));
}

/// When the smaller of two vertices is related to the larger, the smaller one
/// becomes the representative of the larger exactly if it was a
/// representative itself and the larger one's class held nothing smaller.
pub proof fn lemma_relate_smaller_wins<V: Vertex>(m: Map<V, V>, a: V, b: V)
    requires
        is_forest(m),
        precedes(a, b),
    ensures
        root(related(m, a, b), b) == a <==> !m.contains_key(a) && !precedes(root(m, b), a),
{
    let ra = root(m, a);
    let rb = root(m, b);
    lemma_relate_merges(m, a, b, b);
    lemma_root_is_least(m, a);
    lemma_root_is_least(m, b);
    lemma_precedes_trichotomy(ra, rb);
    lemma_precedes_trichotomy(ra, a);
    lemma_precedes_trichotomy(rb, a);
}

/// Between two vertices that were never related to anything, the smaller one
/// becomes the representative of both.
pub proof fn lemma_relate_fresh<V: Vertex>(m: Map<V, V>, a: V, b: V)
    requires
        is_forest(m),
        precedes(a, b),
        !m.contains_key(a),
        !m.contains_key(b),
    ensures
        related(m, a, b) == m.insert(b, a),
        root(related(m, a, b), a) == a,
        root(related(m, a, b), b) == a,
{
    lemma_precedes_trichotomy(a, b);
    lemma_relate_merges(m, a, b, a);
    lemma_relate_merges(m, a, b, b);
}

} // verus!
