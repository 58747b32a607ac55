//! Calls into outside crates, each behind a contract taken from the crate's source.
use array_tool::vec::{Intersect, Shift, Uniq};
use itertools::Itertools;
use vstd::prelude::*;

use crate::text::{text_le, texts_of};

verus! {

/// `array_tool::vec::Shift::shift` on a vector of identifiers: removes and
/// returns the first element, or returns `None` (leaving the vector as it is)
/// when the vector is empty.
#[verifier::external_body]
pub(crate) fn vec_shift(v: &mut Vec<usize>) -> (r: Option<usize>)
    ensures
        old(v)@.len() == 0 ==> r == None::<usize> && final(v)@ == old(v)@,
        old(v)@.len() > 0 ==> r == Some(old(v)@[0]) && final(v)@ == old(v)@.drop_first(),
{
    v.shift()
}

/// The elements of `s` without repetitions, each kept where it first occurs.
pub open spec fn unique_spec<A>(s: Seq<A>) -> Seq<A>
    decreases s.len(),
{
    if s.len() == 0 {
        s
    } else {
        let r = unique_spec(s.drop_last());
        if r.contains(s.last()) {
            r
        } else {
            r.push(s.last())
        }
    }
}

/// `unique_spec` keeps exactly the elements of `s`, each once.
pub proof fn lemma_unique_spec<A>(s: Seq<A>)
    ensures
        unique_spec(s).no_duplicates(),
        forall|x: A| #[trigger] unique_spec(s).contains(x) <==> s.contains(x),
    decreases s.len(),
{
    if s.len() > 0 {
        let rest = s.drop_last();
        lemma_unique_spec(rest);
        let r = unique_spec(rest);
        assert forall|x: A| #[trigger] unique_spec(s).contains(x) <==> s.contains(x) by {
            if s.contains(x) && x != s.last() {
                let k = choose|k: int| 0 <= k < s.len() && s[k] == x;
                assert(rest[k] == x);
            }
            if rest.contains(x) {
                let k = choose|k: int| 0 <= k < rest.len() && rest[k] == x;
                assert(s[k] == x);
            }
            if r.contains(s.last()) {
            } else {
                assert(r.push(s.last())[r.len() as int] == s.last());
                if r.push(s.last()).contains(x) && x != s.last() {
                    let k = choose|k: int| 0 <= k < r.len() + 1 && r.push(s.last())[k] == x;
                    assert(r[k] == x);
                }
                if r.contains(x) {
                    let k = choose|k: int| 0 <= k < r.len() && r[k] == x;
                    assert(r.push(s.last())[k] == x);
                }
            }
            assert(s[s.len() - 1] == s.last());
        }
    }
}

/// `array_tool::vec::Uniq::unique` on a vector of identifiers: the elements
/// without repetitions, each kept at its first occurrence, in order.
#[verifier::external_body]
pub(crate) fn vec_unique(v: &Vec<usize>) -> (r: Vec<usize>)
    ensures
        r@ == unique_spec(v@),
{
    v.unique()
}

/// `array_tool::vec::Intersect::intersect` on vectors of identifiers: the
/// elements of `v` without repetitions (first occurrences, in order) that
/// also occur in `other`.
#[verifier::external_body]
pub(crate) fn vec_intersect(v: &Vec<usize>, other: Vec<usize>) -> (r: Vec<usize>)
    ensures
        r@ == unique_spec(v@).filter(|x: usize| other@.contains(x)),
{
    v.intersect(other)
}

/// `itertools::Itertools::sorted` on strings, collected: the same strings in
/// ascending order, strings being ordered lexicographically by their bytes.
#[verifier::external_body]
pub(crate) fn texts_sorted(v: Vec<String>) -> (r: Vec<String>)
    ensures
        texts_of(r@).to_multiset() == texts_of(v@).to_multiset(),
        forall|i: int, j: int| 0 <= i < j < r@.len() ==> text_le(#[trigger] r@[i]@, #[trigger] r@[j]@),
{
    v.into_iter().sorted().collect()
}

/// `itertools::Itertools::unique` on strings, collected: the strings without
/// repetitions, each kept at its first occurrence, in order.
#[verifier::external_body]
pub(crate) fn texts_unique(v: Vec<String>) -> (r: Vec<String>)
    ensures
        texts_of(r@) == unique_spec(texts_of(v@)),
{
    v.into_iter().unique().collect()
}

} // verus!
