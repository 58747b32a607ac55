//! A thin wrapper around a vector of entity identifiers, tied to an engine.
use std::sync::Arc;
use vstd::prelude::*;

use crate::outside::{lemma_unique_spec, unique_spec, vec_intersect, vec_unique};
use crate::sparse_set::EntityId;

verus! {

/// An engine the identifiers of a query refer to.
pub trait Engine {
    type Item;
}

/// Identifiers selected from an engine.
pub struct QueryIterator<E: Engine> {
    pub engine: Arc<E>,
    pub elements: Vec<EntityId>,
}

/// `s` is in ascending order.
pub open spec fn ascending(s: Seq<EntityId>) -> bool {
    forall|i: int, j: int| 0 <= i <= j < s.len() ==> s[i] <= s[j]
}

/// Keeping some elements of a sequence without repetitions repeats none.
proof fn lemma_filter_no_duplicates(s: Seq<EntityId>, p: spec_fn(EntityId) -> bool)
    requires
        s.no_duplicates(),
    ensures
        s.filter(p).no_duplicates(),
    decreases s.len(),
{
    if s.len() > 0 {
        let rest = s.drop_last();
        let last = s.last();
        assert(rest.push(last) =~= s);
        lemma_filter_no_duplicates(rest, p);
        rest.lemma_filter_push(last, p);
        if p(last) {
            if rest.filter(p).contains(last) {
                rest.lemma_filter_contains_rev(p, last);
                let k = choose|k: int| 0 <= k < rest.len() && rest[k] == last;
                assert(s[k] == s[s.len() - 1]);
            }
        }
    }
}

/// Whether `v` holds `x`.
fn contains_id(v: &Vec<EntityId>, x: EntityId) -> (b: bool)
    ensures
        b == v@.contains(x),
{
    let mut i: usize = 0;
    while i < v.len()
        invariant
            i <= v.len(),
            forall|j: int| 0 <= j < i ==> v@[j] != x,
        decreases v.len() - i,
    {
        if v[i] == x {
            return true;
        }
        i = i + 1;
    }
    false
}

/// `v` in ascending order (an insertion sort).
fn sorted_ids(v: &Vec<EntityId>) -> (r: Vec<EntityId>)
    ensures
        ascending(r@),
        r@.to_multiset() == v@.to_multiset(),
{
    broadcast use vstd::seq_lib::group_to_multiset_ensures;

    let mut r: Vec<EntityId> = Vec::new();
    let mut i: usize = 0;
    while i < v.len()
        invariant
            i <= v.len(),
            ascending(r@),
            r@.to_multiset() == v@.take(i as int).to_multiset(),
        decreases v.len() - i,
    {
        let x = v[i];
        let mut pos: usize = 0;
        while pos < r.len() && r[pos] <= x
            invariant
                pos <= r.len(),
                forall|k: int| 0 <= k < pos ==> r@[k] <= x,
            decreases r.len() - pos,
        {
            pos = pos + 1;
        }
        let ghost before = r@;
        r.insert(pos, x);
        proof {
            before.insert_ensures(pos as int, x);
            assert(r@ == before.insert(pos as int, x));
            vstd::seq_lib::to_multiset_insert(before, pos as int, x);
            assert(v@.take(i + 1) =~= v@.take(i as int).push(x));
            v@.take(i as int).to_multiset_ensures();
            assert(v@.take(i + 1).to_multiset() =~= v@.take(i as int).to_multiset().insert(x));
            assert forall|a: int, b: int| 0 <= a <= b < r@.len() implies r@[a] <= r@[b] by {
                if a < pos && b < pos {
                } else if a < pos && b == pos {
                } else if a < pos {
                    assert(r@[b] == before[b - 1]);
                } else if a == pos && b == pos {
                } else if a == pos {
                    assert(r@[b] == before[b - 1]);
                    assert(before[pos as int] > x);
                } else {
                    assert(r@[a] == before[a - 1]);
                    assert(r@[b] == before[b - 1]);
                }
            }
        }
        i = i + 1;
    }
    assert(v@.take(v@.len() as int) =~= v@);
    r
}

impl<E: Engine> QueryIterator<E> {
    /// A query over `elements` of `engine`.
    pub fn new(engine: Arc<E>, elements: Vec<EntityId>) -> (q: Self)
        ensures
            q.engine == engine,
            q.elements@ == elements@,
    {
        QueryIterator { engine, elements }
    }

    /// The number of identifiers.
    pub fn len(&self) -> (n: usize)
        ensures
            n == self.elements@.len(),
    {
        self.elements.len()
    }

    /// Whether there are no identifiers.
    pub fn is_empty(&self) -> (b: bool)
        ensures
            b == (self.elements@.len() == 0),
    {
        self.len() == 0
    }

    /// Puts the identifiers in ascending order.
    pub fn sort(&mut self)
        ensures
            ascending(final(self).elements@),
            final(self).elements@.to_multiset() == old(self).elements@.to_multiset(),
            final(self).engine == old(self).engine,
    {
        self.elements = sorted_ids(&self.elements);
    }

    /// The identifiers.
    pub fn as_slice(&self) -> (s: &[EntityId])
        ensures
            s@ == self.elements@,
    {
        self.elements.as_slice()
    }

    /// A copy of the identifiers.
    pub fn as_vec(&self) -> (v: Vec<EntityId>)
        ensures
            v@ == self.elements@,
    {
        let v = self.elements.clone();
        assert(v@ =~= self.elements@);
        v
    }

    /// The identifiers of both queries, each once, in order of first occurrence.
    pub fn union(self, other: QueryIterator<E>) -> (r: Self)
        ensures
            r.engine == self.engine,
            r.elements@ == unique_spec(self.elements@ + other.elements@),
            r.elements@.no_duplicates(),
            forall|x: EntityId| #[trigger] r.elements@.contains(x) <==> (self.elements@.contains(x) || other.elements@.contains(x)),
    {
        let ghost a = self.elements@;
        let ghost b = other.elements@;
        let mut joined = self.elements;
        joined.extend_from_slice(other.as_slice());
        assert(joined@ =~= a + b);
        let elements = vec_unique(&joined);
        proof {
            lemma_unique_spec(a + b);
            assert forall|x: EntityId| (a + b).contains(x) <==> (a.contains(x) || b.contains(x)) by {
                if (a + b).contains(x) {
                    let k = choose|k: int| 0 <= k < (a + b).len() && (a + b)[k] == x;
                    if k >= a.len() {
                        assert(b[k - a.len()] == x);
                    }
                }
                if a.contains(x) {
                    let k = choose|k: int| 0 <= k < a.len() && a[k] == x;
                    assert((a + b)[k] == x);
                }
                if b.contains(x) {
                    let k = choose|k: int| 0 <= k < b.len() && b[k] == x;
                    assert((a + b)[a.len() + k] == x);
                }
            }
        }
        QueryIterator { engine: self.engine, elements }
    }

    /// The identifiers of this query that the other one also holds, each once,
    /// in order of first occurrence.
    pub fn intersect(self, other: QueryIterator<E>) -> (r: Self)
        ensures
            r.engine == self.engine,
            r.elements@ == unique_spec(self.elements@).filter(|x: EntityId| other.elements@.contains(x)),
            r.elements@.no_duplicates(),
            forall|x: EntityId| #[trigger] r.elements@.contains(x) <==> (self.elements@.contains(x) && other.elements@.contains(x)),
    {
        let ghost a = self.elements@;
        let ghost b = other.elements@;
        let elements = vec_intersect(&self.elements, other.as_vec());
        proof {
            lemma_unique_spec(a);
            let u = unique_spec(a);
            let p = |x: EntityId| b.contains(x);
            lemma_filter_no_duplicates(u, p);
            assert forall|x: EntityId| #[trigger] elements@.contains(x) <==> (a.contains(x) && b.contains(x)) by {
                if u.contains(x) && p(x) {
                    let k = choose|k: int| 0 <= k < u.len() && u[k] == x;
                    u.lemma_filter_contains(p, k);
                }
                if elements@.contains(x) {
                    u.lemma_filter_contains_rev(p, x);
                    let k = choose|k: int| 0 <= k < elements@.len() && elements@[k] == x;
                    u.lemma_filter_pred(p, k);
                }
            }
        }
        QueryIterator { engine: self.engine, elements }
    }

    /// Whether the query holds `id`.
    pub fn contains(&self, id: &EntityId) -> (b: bool)
        ensures
            b == self.elements@.contains(*id),
    {
        contains_id(&self.elements, *id)
    }
}

} // verus!
