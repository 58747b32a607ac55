use std::collections::HashMap;
use vstd::prelude::*;
use vstd::std_specs::iter::IteratorSpec;

verus! {

broadcast use vstd::std_specs::hash::group_hash_axioms;

/// The order in which the keys of a map are walked.
pub open spec fn key_order<V>(m: &HashMap<usize, V>) -> Seq<usize> {
    vstd::std_specs::hash::into_iter_keys(vstd::std_specs::hash::spec_keys_iter(m))
}

/// The keys of a map, in walk order.
pub fn keys_of<V>(m: &HashMap<usize, V>) -> (r: Vec<usize>)
    ensures
        r@ == key_order(m),
        r@.no_duplicates(),
        r@.to_set() == m@.dom(),
{
    let mut r: Vec<usize> = Vec::new();
    let ks = m.keys();
    assert(ks.remaining().unref().to_set() == m@.dom());
    for k in it: ks
        invariant
            r@ == it.seq().take(it.index() as int).unref(),
    {
        r.push(*k);
    }
    r
}

} // verus!
