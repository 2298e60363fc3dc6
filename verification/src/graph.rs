//! The equivalence graph itself: a hash map from vertex to parent, kept
//! decreasing, with union, find, compression and enumeration.

use crate::forest::{
    children, class_keys, decreasing, depth, flattened, is_forest, keys_up_to, lemma_fewer_keys_below,
    lemma_root_is_least, lemma_shortcut, merged_root, related, root, same_class,
};
use crate::laws::{lemma_flatten_keeps_roots, lemma_relate_joins, lemma_relate_merges};
use crate::vertex::{at_most, lawful_vertex, lemma_precedes_trichotomy, Vertex};
use std::collections::HashMap;
use std::collections::HashSet;
use vstd::prelude::*;
use vstd::std_specs::iter::IteratorSpec;

verus! {

/// An incrementally built equivalence relation over vertices of type `V`.
///
/// The graph stores one parent per vertex that was ever hung below another;
/// a vertex without an entry is the representative of its class.
#[derive(Debug)]
pub struct EqGraph<V: Vertex> {
    parent_of: HashMap<V, V>,
}

impl<V: Vertex> View for EqGraph<V> {
    type V = Map<V, V>;

    /// The stored parent map.
    closed spec fn view(&self) -> Map<V, V> {
        self.parent_of@
    }
}

/// Follows the parent chain of `v` in `map` to its end.
fn find<'a: 'b, 'b, V: Vertex>(map: &'a HashMap<V, V>, v: &'b V) -> (r: &'b V)
    requires
        is_forest(map@),
    ensures
        *r == root(map@, *v),
{
    proof {
        V::lawful();
    }
    let mut cur = v;
    loop
        invariant
            lawful_vertex::<V>(),
            is_forest(map@),
            root(map@, *cur) == root(map@, *v),
        decreases keys_up_to(map@, *cur).len(),
    {
        match map.get(cur) {
            Some(parent) => {
                proof {
                    lemma_fewer_keys_below(map@, *cur, *parent);
                }
                cur = parent;
            },
            None => {
                return cur;
            },
        }
    }
}

/// The keys of `map`, each once, in the order in which the map hands them out.
fn key_list<V: Vertex>(map: &HashMap<V, V>) -> (keys: Vec<V>)
    ensures
        keys@.no_duplicates(),
        keys@.to_set() == map@.dom(),
{
    proof {
        V::lawful();
    }
    let mut keys: Vec<V> = Vec::new();
    let ghost all = map.keys().remaining().unref();
    for k in it: map.keys()
        invariant
            lawful_vertex::<V>(),
            it.seq().unref() == all,
            keys@ == all.take(it.index()),
    {
        let key = k.clone();
        proof {
            assert(cloned(*k, key));
        }
        keys.push(key);
    }
    proof {
        assert(keys@ =~= all);
    }
    keys
}

impl<V: Vertex> EqGraph<V> {
    /// The invariant of every graph: its parent map is a forest.
    #[verifier::type_invariant]
    pub open spec fn well_formed(&self) -> bool {
        is_forest(self@)
    }

    /// An empty graph, in which every vertex is alone in its class.
    pub fn new() -> (g: Self)
        ensures
            g@ == Map::<V, V>::empty(),
    {
        EqGraph { parent_of: HashMap::new() }
    }

    /// Whether every stored parent is smaller than its child, found by
    /// looking at each stored entry. This is the invariant of the graph, so
    /// the answer is always `true`; the function is there for diagnosis.
    pub fn decreasing(&self) -> (ok: bool)
        ensures
            ok == decreasing(self@),
            ok,
    {
        proof {
            use_type_invariant(self);
            V::lawful();
        }
        let ghost m = self.parent_of@;
        let ghost all = self.parent_of.iter().remaining().unref();
        let mut ok = true;
        for (child, parent) in it: self.parent_of.iter()
            invariant
                lawful_vertex::<V>(),
                it.seq().unref() == all,
                all.to_set() == m.kv_pairs(),
                decreasing(m),
                ok,
        {
            proof {
                reveal(vstd::laws_cmp::obeys_cmp_partial_ord);
                reveal(vstd::laws_cmp::obeys_partial_cmp_spec_properties);
                assert(all[it.index()] == (*child, *parent));
                assert(all.to_set().contains((*child, *parent)));
                assert(m.contains_key(*child));
            }
            if !(child > parent) {
                ok = false;
            }
        }
        ok
    }

    /// The representative of the class of `v`: the end of the parent chain
    /// that starts at `v`. Nothing is compressed on the way.
    pub fn root_of<'a: 'b, 'b>(&'a self, v: &'b V) -> (r: &'b V)
        ensures
            *r == root(self@, *v),
            !self@.contains_key(*r),
            at_most(*r, *v),
    {
        proof {
            use_type_invariant(self);
            lemma_root_is_least(self@, *v);
        }
        find(&self.parent_of, v)
    }

    /// Declares `a` and `b` equivalent, merging their classes. Where the two
    /// already share a representative nothing is stored; otherwise the larger
    /// of the two representatives is hung below the smaller.
    pub fn relate(&mut self, a: V, b: V)
        ensures
            final(self)@ == related(old(self)@, a, b),
            same_class(final(self)@, a, b),
            forall|v: V| root(final(self)@, v) == merged_root(old(self)@, a, b, v),
            decreasing(final(self)@),
    {
        proof {
            use_type_invariant(&*self);
            V::lawful();
            reveal(vstd::laws_eq::obeys_concrete_eq);
            reveal(vstd::laws_cmp::obeys_cmp_partial_ord);
            assert forall|v: V| root(related(self@, a, b), v) == merged_root(self@, a, b, v) by {
                lemma_relate_merges(self@, a, b, v);
            }
            lemma_relate_joins(self@, a, b);
        }
        if a == b {
            return ;
        }
        let ra = find(&self.parent_of, &a);
        let rb = find(&self.parent_of, &b);
        if ra == rb {
            return ;
        }
        let (lo, hi) = if ra < rb {
            (ra.clone(), rb.clone())
        } else {
            (rb.clone(), ra.clone())
        };
        proof {
            assert(cloned(*ra, lo) || cloned(*rb, lo));
            assert(cloned(*ra, hi) || cloned(*rb, hi));
            lemma_precedes_trichotomy(*ra, *rb);
        }
        // The map is taken out for the update and put back when it is a
        // forest again.
        let mut map = HashMap::new();
        std::mem::swap(&mut map, &mut self.parent_of);
        map.insert(hi, lo);
        self.parent_of = map;
    }

    /// Compresses every path: each stored vertex is made to point straight at
    /// its representative. No representative changes.
    pub fn flatten(&mut self)
        ensures
            final(self)@ == flattened(old(self)@),
            forall|v: V| root(final(self)@, v) == root(old(self)@, v),
            forall|v: V| depth(final(self)@, v) <= 1,
            decreasing(final(self)@),
    {
        proof {
            use_type_invariant(&*self);
            V::lawful();
            assert forall|v: V|
                root(flattened(self@), v) == root(self@, v) && depth(flattened(self@), v)
                    <= 1 by {
                lemma_flatten_keeps_roots(self@, v);
            }
        }
        let mut map = HashMap::new();
        std::mem::swap(&mut map, &mut self.parent_of);
        let ghost orig = map@;
        let keys = key_list(&map);
        let ghost todo = keys@;
        for key in it: keys
            invariant
                lawful_vertex::<V>(),
                is_forest(orig),
                is_forest(map@),
                it.seq() == todo,
                todo.to_set() == orig.dom(),
                map@.dom() == orig.dom(),
                forall|v: V| root(map@, v) == root(orig, v),
                forall|j: int|
                    0 <= j < it.index() ==> map@[#[trigger] todo[j]] == root(orig, todo[j]),
        {
            proof {
                reveal(vstd::laws_eq::obeys_concrete_eq);
                assert(todo.contains(key));
                lemma_root_is_least(map@, key);
                lemma_precedes_trichotomy(root(map@, key), key);
            }
            let top = find(&map, &key);
            if top != &key {
                let top = top.clone();
                proof {
                    assert(cloned(root(map@, key), top));
                    assert forall|v: V| root(map@.insert(key, top), v) == root(orig, v) by {
                        lemma_shortcut(map@, key, top, v);
                    }
                    lemma_shortcut(map@, key, top, key);
                }
                map.insert(key, top);
            }
        }
        proof {
            assert forall|k: V| orig.contains_key(k) implies map@[k] == root(orig, k) by {
                assert(todo.to_set().contains(k));
                let j = choose|j: int| 0 <= j < todo.len() && todo[j] == k;
                assert(map@[todo[j]] == root(orig, todo[j]));
            }
            assert(map@ =~= flattened(orig));
        }
        self.parent_of = map;
    }

    /// The stored entries as `(child, parent)` pairs, each once, in no
    /// particular order. The list is built when the function is called.
    pub fn iter_parents(&self) -> (entries: Vec<(&V, &V)>)
        ensures
            entries@.unref().no_duplicates(),
            entries@.unref().to_set() == self@.kv_pairs(),
    {
        proof {
            V::lawful();
        }
        let ghost all = self.parent_of.iter().remaining();
        let mut entries: Vec<(&V, &V)> = Vec::new();
        for entry in it: self.parent_of.iter()
            invariant
                it.seq() == all,
                entries@ == all.take(it.index()),
        {
            entries.push(entry);
        }
        proof {
            assert(entries@ =~= all);
            assert forall|i: int, j: int|
                0 <= i < all.len() && 0 <= j < all.len() && i != j implies all.unref()[i]
                != all.unref()[j] by {
                assert(all[i] != all[j]);
            }
        }
        entries
    }

    /// For each stored vertex, the pair of it and its representative, each
    /// vertex once, in no particular order. A vertex that never got a parent
    /// has no entry and is not listed. The list is built when the function is
    /// called.
    pub fn iter_roots(&self) -> (entries: Vec<(&V, &V)>)
        ensures
            entries@.unref().no_duplicates(),
            entries@.unref().to_set() == flattened(self@).kv_pairs(),
    {
        proof {
            use_type_invariant(self);
            V::lawful();
        }
        let ghost m = self.parent_of@;
        let ghost all = self.parent_of.keys().remaining().unref();
        let mut entries: Vec<(&V, &V)> = Vec::new();
        for key in it: self.parent_of.keys()
            invariant
                m == self.parent_of@,
                is_forest(m),
                it.seq().unref() == all,
                entries@.len() == it.index(),
                forall|i: int|
                    0 <= i < it.index() ==> #[trigger] entries@.unref()[i] == (
                        all[i],
                        root(m, all[i]),
                    ),
        {
            let top = find(&self.parent_of, key);
            let ghost before = entries@.unref();
            entries.push((key, top));
            proof {
                assert(all[it.index()] == *key);
                assert(entries@.unref() =~= before.push((*key, *top)));
            }
        }
        proof {
            let out = entries@.unref();
            assert(out.len() == all.len());
            assert forall|i: int, j: int|
                0 <= i < out.len() && 0 <= j < out.len() && i != j implies out[i] != out[j] by {
                assert(all[i] != all[j]);
            }
            assert forall|kv: (V, V)| out.to_set().contains(kv) <==> flattened(
                m,
            ).kv_pairs().contains(kv) by {
                if flattened(m).kv_pairs().contains(kv) {
                    assert(all.to_set().contains(kv.0));
                    let i = choose|i: int| 0 <= i < all.len() && all[i] == kv.0;
                    assert(out[i] == kv);
                }
                if out.to_set().contains(kv) {
                    let i = choose|i: int| 0 <= i < out.len() && out[i] == kv;
                    assert(all.to_set().contains(all[i]));
                }
            }
            assert(out.to_set() =~= flattened(m).kv_pairs());
        }
        entries
    }

    /// The stored vertices that are equivalent to `v`, each once, in no
    /// particular order: the class of `v` without its representative. The list
    /// is built when the function is called.
    pub fn equivalents<'a>(&'a self, v: &'a V) -> (members: Vec<&'a V>)
        ensures
            members@.unref().no_duplicates(),
            members@.unref().to_set() == class_keys(self@, *v),
    {
        proof {
            use_type_invariant(self);
            V::lawful();
        }
        let ghost m = self.parent_of@;
        let ghost all = self.parent_of.keys().remaining().unref();
        let top = find(&self.parent_of, v);
        let mut members: Vec<&V> = Vec::new();
        for key in it: self.parent_of.keys()
            invariant
                lawful_vertex::<V>(),
                m == self.parent_of@,
                is_forest(m),
                *top == root(m, *v),
                it.seq().unref() == all,
                all.no_duplicates(),
                members@.unref().no_duplicates(),
                forall|i: int|
                    0 <= i < members@.len() ==> root(m, #[trigger] members@.unref()[i]) == *top
                        && all.take(it.index()).contains(members@.unref()[i]),
                forall|j: int|
                    0 <= j < it.index() && root(m, #[trigger] all[j]) == *top
                        ==> members@.unref().contains(all[j]),
        {
            proof {
                reveal(vstd::laws_eq::obeys_concrete_eq);
                assert(all[it.index()] == *key);
            }
            let ghost before = members@.unref();
            let ghost seen = all.take(it.index());
            let ghost next = all.take(it.index() + 1);
            proof {
                assert(next =~= seen.push(*key));
                assert forall|k: V| seen.contains(k) implies next.contains(k) by {
                    let j = choose|j: int| 0 <= j < seen.len() && seen[j] == k;
                    assert(next[j] == k);
                }
                assert(!seen.contains(*key)) by {
                    if seen.contains(*key) {
                        let j = choose|j: int| 0 <= j < seen.len() && seen[j] == *key;
                        assert(all[j] == all[it.index()]);
                    }
                }
            }
            if find(&self.parent_of, key) == top {
                members.push(key);
                proof {
                    let after = members@.unref();
                    assert(after =~= before.push(*key));
                    assert(next[it.index()] == *key);
                    assert forall|j: int|
                        0 <= j < it.index() + 1 && root(m, #[trigger] all[j])
                            == *top implies after.contains(all[j]) by {
                        if j < it.index() {
                            let i = choose|i: int| 0 <= i < before.len() && before[i] == all[j];
                            assert(after[i] == all[j]);
                        } else {
                            assert(after[before.len() as int] == all[j]);
                        }
                    }
                }
            }
        }
        proof {
            let out = members@.unref();
            assert forall|k: V| out.to_set().contains(k) <==> class_keys(m, *v).contains(k) by {
                if class_keys(m, *v).contains(k) {
                    assert(all.to_set().contains(k));
                    let j = choose|j: int| 0 <= j < all.len() && all[j] == k;
                    assert(out.contains(all[j]));
                }
                if out.to_set().contains(k) {
                    let i = choose|i: int| 0 <= i < out.len() && out[i] == k;
                    assert(all.take(all.len() as int) =~= all);
                    assert(all.to_set().contains(out[i]));
                }
            }
            assert(out.to_set() =~= class_keys(m, *v));
        }
        members
    }

    /// The reverse of the stored map: for each vertex that is the stored
    /// parent of some vertex, the set of its direct children.
    pub fn parents_to_children(&self) -> (index: HashMap<V, HashSet<V>>)
        ensures
            forall|p: V| index@.contains_key(p) <==> self@.contains_value(p),
            forall|p: V| #[trigger] index@.contains_key(p) ==> index@[p]@ == children(self@, p),
    {
        proof {
            use_type_invariant(self);
            V::lawful();
        }
        let ghost m = self.parent_of@;
        let ghost all = self.parent_of.iter().remaining().unref();
        let ghost mut done: Set<V> = Set::empty();
        let mut ret: HashMap<V, HashSet<V>> = HashMap::new();
        for (child, parent) in it: self.parent_of.iter()
            invariant
                lawful_vertex::<V>(),
                m == self.parent_of@,
                it.seq().unref() == all,
                all.to_set() == m.kv_pairs(),
                forall|j: int| 0 <= j < it.index() ==> done.contains(#[trigger] all[j].0),
                forall|c: V| done.contains(c) ==> m.contains_key(c),
                forall|p: V|
                    ret@.contains_key(p) <==> exists|c: V| #[trigger]
                        done.contains(c) && m[c] == p,
                forall|p: V, c: V|
                    ret@.contains_key(p) ==> (#[trigger] ret@[p]@.contains(c) <==> done.contains(c)
                        && m[c] == p),
        {
            let p = parent.clone();
            let c = child.clone();
            proof {
                assert(cloned(*parent, p));
                assert(cloned(*child, c));
                assert(all[it.index()] == (c, p));
                assert(all.to_set().contains((c, p)));
            }
            let ghost before = ret@;
            let ghost seen = done;
            let set = ret.entry(p).or_insert(HashSet::new());
            set.insert(c);
            proof {
                done = done.insert(c);
                assert(ret@.dom() =~= before.dom().insert(p));
                assert forall|q: V| ret@.contains_key(q) implies exists|d: V| #[trigger]
                    done.contains(d) && m[d] == q by {
                    if q == p {
                        assert(done.contains(c) && m[c] == q);
                    } else {
                        let d = choose|d: V| #[trigger] seen.contains(d) && m[d] == q;
                        assert(done.contains(d) && m[d] == q);
                    }
                }
                assert forall|q: V| (exists|d: V| #[trigger] done.contains(d) && m[d] == q)
                    implies ret@.contains_key(q) by {
                    let d = choose|d: V| #[trigger] done.contains(d) && m[d] == q;
                    if d != c {
                        assert(seen.contains(d) && m[d] == q);
                    }
                }
            }
        }
        proof {
            assert forall|p: V| ret@.contains_key(p) <==> m.contains_value(p) by {
                if m.contains_value(p) {
                    let k = choose|k: V| #[trigger] m.dom().contains(k) && m[k] == p;
                    assert(all.to_set().contains((k, p)));
                    let j = choose|j: int| 0 <= j < all.len() && all[j] == (k, p);
                    assert(done.contains(all[j].0));
                }
            }
            assert forall|p: V| #[trigger] ret@.contains_key(p) implies ret@[p]@ == children(
                m,
                p,
            ) by {
                assert forall|c: V| children(m, p).contains(c) implies done.contains(c) by {
                    assert(all.to_set().contains((c, p)));
                    let j = choose|j: int| 0 <= j < all.len() && all[j] == (c, p);
                    assert(done.contains(all[j].0));
                }
                assert(ret@[p]@ =~= children(m, p));
            }
        }
        ret
    }
}

impl<V: Vertex> Default for EqGraph<V> {
    /// An empty graph.
    fn default() -> (g: Self)
        ensures
            g@ == Map::<V, V>::empty(),
    {
        EqGraph::new()
    }
}

} // verus!
