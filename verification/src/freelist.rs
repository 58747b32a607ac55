use std::collections::HashMap;
use vstd::prelude::*;

use crate::outside::vec_shift;
use crate::sparse_set::{EntityId, SparseSet};

verus! {

broadcast use vstd::std_specs::hash::group_hash_axioms;

/// A free list of identifiers: `used` holds the identifiers in use, `free`
/// the released ones in the order they will be handed out again, and `alias`
/// maps an alias to the identifier reserved for it.
#[derive(Debug)]
pub struct Freelist {
    pub used: SparseSet,
    pub free: Vec<usize>,
    pub alias: HashMap<usize, usize>,
}

/// A linear search in a vector of identifiers.
fn vec_contains(v: &Vec<usize>, x: usize) -> (b: bool)
    ensures
        b == v@.contains(x),
{
    let mut i: usize = 0;
    while i < v.len()
        invariant
            i <= v.len(),
            forall|j: int| 0 <= j < i ==> v@[j] != x,
        decreases v.len() - i,
    {
        if v[i] == x {
            return true;
        }
        i = i + 1;
    }
    false
}

impl Freelist {
    /// The number of identifiers handed out so far (in use or released).
    pub open spec fn total(&self) -> int {
        self.used.order_max + self.free@.len()
    }

    /// The identifiers `0 .. total` are each either in use or released,
    /// never both, and no released identifier is listed twice.
    pub open spec fn wf(&self) -> bool {
        &&& self.used.canonical()
        &&& self.used.dense().len() == self.used.order_max
        &&& self.free@.no_duplicates()
        &&& self.total() <= usize::MAX
        &&& forall|x: usize| #[trigger] self.free@.contains(x) ==> !self.used.member(x)
        &&& forall|x: usize|
            (#[trigger] self.used.member(x) || self.free@.contains(x)) <==> x < self.total()
    }

    /// `n` counts as valid: with no released identifiers, `n` is below the
    /// number in use; otherwise `n` is not among the released ones.
    pub open spec fn valid(&self, n: usize) -> bool {
        if self.free@.len() == 0 {
            n < self.used.order_max
        } else {
            !self.free@.contains(n)
        }
    }

    /// An empty free list.
    pub fn new() -> (f: Self)
        ensures
            f.wf(),
            f.total() == 0,
            f.used.members() == Set::<usize>::empty(),
            f.free@ == Seq::<usize>::empty(),
            f.alias@ == Map::<usize, usize>::empty(),
    {
        let f = Freelist { used: SparseSet::new(), free: Vec::new(), alias: HashMap::new() };
        assert(f.used.members() =~= Set::<usize>::empty());
        f
    }

    /// The number of identifiers handed out so far.
    pub fn len(&self) -> (n: usize)
        requires
            self.wf(),
        ensures
            n == self.total(),
    {
        self.used.len() + self.free.len()
    }

    /// Hands out an identifier: the oldest released one, or else the next fresh one.
    pub fn reserve(&mut self) -> (index: usize)
        requires
            old(self).wf(),
            old(self).free@.len() > 0 || old(self).total() < usize::MAX,
        ensures
            final(self).wf(),
            index == (if old(self).free@.len() == 0 { old(self).used.order_max } else { old(self).free@[0] }),
            final(self).free@ == (if old(self).free@.len() == 0 { old(self).free@ } else { old(self).free@.drop_first() }),
            !old(self).used.member(index),
            final(self).used.members() == old(self).used.members().insert(index),
            final(self).total() == (if old(self).free@.len() == 0 { old(self).total() + 1 } else { old(self).total() }),
            final(self).alias@ == old(self).alias@,
            final(self).valid(index),
    {
        let ghost pre = *self;
        let index = if self.free.len() == 0 {
            self.used.len()
        } else {
            vec_shift(&mut self.free).unwrap()
        };
        proof {
            if pre.free@.len() == 0 {
                if pre.used.member(index) {
                    let j = pre.used.sparse()[index] - 1;
                    assert(pre.used.slot_points_back(j));
                }
            } else {
                assert(pre.free@.contains(pre.free@[0]));
            }
        }
        self.used.add(index);
        proof {
            assert forall|x: usize| #[trigger] self.free@.contains(x) implies !self.used.member(x) by {
                assert(pre.free@.contains(x));
                if x == index {
                    assert(pre.free@[0] == self.free@[0 - 0 + 0]) by {}
                    let k = choose|k: int| 0 <= k < self.free@.len() && self.free@[k] == x;
                    assert(pre.free@[k + 1] == x);
                }
            }
            assert forall|x: usize| (#[trigger] self.used.member(x) || self.free@.contains(x)) <==> x < self.total() by {
                assert(self.used.members().contains(x) == (pre.used.members().contains(x) || x == index));
                if pre.free@.len() != 0 {
                    if pre.free@.contains(x) && x != index {
                        let k = choose|k: int| 0 <= k < pre.free@.len() && pre.free@[k] == x;
                        assert(self.free@[k - 1] == x);
                    }
                    if self.free@.contains(x) {
                        let k = choose|k: int| 0 <= k < self.free@.len() && self.free@[k] == x;
                        assert(pre.free@[k + 1] == x);
                    }
                }
            }
        }
        index
    }

    /// Releases `n` when it is in use; otherwise nothing changes.
    pub fn free(&mut self, n: usize)
        requires
            old(self).wf(),
        ensures
            final(self).wf(),
            old(self).used.member(n) ==> final(self).free@ == old(self).free@.push(n)
                && final(self).used.members() == old(self).used.members().remove(n),
            !old(self).used.member(n) ==> final(self).free@ == old(self).free@
                && final(self).used == old(self).used,
            final(self).total() == old(self).total(),
            final(self).alias@ == old(self).alias@,
            old(self).used.member(n) ==> !final(self).valid(n),
    {
        let ghost pre = *self;
        if self.used.is_member(n) {
            self.used.remove(n);
            self.free.push(n);
            proof {
                crate::sparse_set::lemma_len_counts_members(pre.used);
                crate::sparse_set::lemma_len_counts_members(self.used);
                assert(self.used.members().contains(n) == false);
                assert(self.used.dense().len() == self.used.order_max);
                assert(self.used.order_max + 1 == pre.used.order_max) by {
                    assert(pre.used.members().remove(n).len() == pre.used.members().len() - 1);
                }
                assert forall|x: usize| #[trigger] self.free@.contains(x) implies !self.used.member(x) by {
                    if x != n {
                        let k = choose|k: int| 0 <= k < self.free@.len() && self.free@[k] == x;
                        assert(pre.free@[k] == x);
                        assert(pre.free@.contains(x));
                        assert(!pre.used.member(x));
                        assert(!pre.used.members().contains(x));
                        assert(!self.used.members().contains(x));
                    }
                }
                assert(self.free@[self.free@.len() - 1] == n);
                assert(self.free@.contains(n));
                assert(!pre.free@.contains(n));
                assert(self.free@.no_duplicates()) by {
                    assert forall|i: int, j: int| 0 <= i < self.free@.len() && 0 <= j < self.free@.len() && i != j implies self.free@[i] != self.free@[j] by {
                        if i < pre.free@.len() && j < pre.free@.len() {
                        } else if i < pre.free@.len() {
                            assert(pre.free@.contains(pre.free@[i]));
                        } else {
                            assert(pre.free@.contains(pre.free@[j]));
                        }
                    }
                }
                assert forall|x: usize| (#[trigger] self.used.member(x) || self.free@.contains(x)) <==> x < self.total() by {
                    assert(self.used.members().contains(x) == (pre.used.members().contains(x) && x != n));
                    assert(self.total() == pre.total());
                    assert(pre.used.member(x) == pre.used.members().contains(x));
                    assert(self.used.member(x) == self.used.members().contains(x));
                    if x != n {
                        if pre.free@.contains(x) {
                            let k = choose|k: int| 0 <= k < pre.free@.len() && pre.free@[k] == x;
                            assert(self.free@[k] == x);
                        }
                        if self.free@.contains(x) {
                            let k = choose|k: int| 0 <= k < self.free@.len() && self.free@[k] == x;
                            assert(pre.free@[k] == x);
                        }
                        assert((self.used.member(x) || self.free@.contains(x)) == (pre.used.member(x) || pre.free@.contains(x)));
                    } else {
                        assert(pre.used.member(n));
                    }
                }
            }
        }
    }

    /// Whether `n` is handed out and not released. With no released
    /// identifiers this is `n < used.len()`; otherwise it is `n` not released.
    pub fn is_valid(&self, n: usize) -> (b: bool)
        ensures
            b == self.valid(n),
    {
        if self.free.len() == 0 {
            n < self.used.len()
        } else {
            !vec_contains(&self.free, n)
        }
    }

    /// Reserves an identifier for alias `n`, unless `n` already has one.
    /// Returns `Some(n)` on success.
    pub fn reserve_alias(&mut self, n: usize) -> (r: Option<usize>)
        requires
            old(self).wf(),
            old(self).free@.len() > 0 || old(self).total() < usize::MAX,
        ensures
            final(self).wf(),
            old(self).alias@.contains_key(n) ==> r == None::<usize> && *final(self) == *old(self),
            !old(self).alias@.contains_key(n) ==> r == Some(n) && {
                let o = if old(self).free@.len() == 0 { old(self).used.order_max } else { old(self).free@[0] };
                &&& final(self).alias@ == old(self).alias@.insert(n, o)
                &&& final(self).used.members() == old(self).used.members().insert(o)
                &&& !old(self).used.member(o)
                &&& final(self).free@ == (if old(self).free@.len() == 0 { old(self).free@ } else { old(self).free@.drop_first() })
            },
    {
        if self.alias.contains_key(&n) {
            return None;
        }
        let o = self.reserve();
        self.alias.insert(n, o);
        Some(n)
    }

    /// Whether alias `n` has a reserved identifier.
    pub fn is_alias_valid(&self, n: usize) -> (b: bool)
        ensures
            b == self.alias@.contains_key(n),
    {
        self.alias.contains_key(&n)
    }

    /// Releases the identifier reserved for alias `n` (if any) and forgets the alias.
    pub fn free_alias(&mut self, n: usize)
        requires
            old(self).wf(),
        ensures
            final(self).wf(),
            final(self).alias@ == old(self).alias@.remove(n),
            old(self).alias@.contains_key(n) && old(self).used.member(old(self).alias@[n]) ==> {
                &&& final(self).free@ == old(self).free@.push(old(self).alias@[n])
                &&& final(self).used.members() == old(self).used.members().remove(old(self).alias@[n])
            },
            !(old(self).alias@.contains_key(n) && old(self).used.member(old(self).alias@[n])) ==> {
                &&& final(self).free@ == old(self).free@
                &&& final(self).used == old(self).used
            },
    {
        match self.alias.get(&n) {
            Some(o) => {
                let o = *o;
                self.free(o);
            },
            None => {},
        }
        self.alias.remove(&n);
    }

    /// Releases `n` as an alias when it is one, else as an identifier when it is valid.
    pub fn safe_free(&mut self, n: usize)
        requires
            old(self).wf(),
        ensures
            final(self).wf(),
            old(self).alias@.contains_key(n) ==> {
                &&& final(self).alias@ == old(self).alias@.remove(n)
                &&& final(self).used.members() == old(self).used.members().remove(old(self).alias@[n])
            },
            old(self).alias@.contains_key(n) && old(self).used.member(old(self).alias@[n])
                ==> final(self).free@ == old(self).free@.push(old(self).alias@[n]),
            old(self).alias@.contains_key(n) && !old(self).used.member(old(self).alias@[n]) ==> {
                &&& final(self).free@ == old(self).free@
                &&& final(self).used == old(self).used
            },
            !old(self).alias@.contains_key(n) && old(self).valid(n) ==> {
                &&& final(self).alias@ == old(self).alias@
                &&& final(self).used.members() == old(self).used.members().remove(n)
                &&& final(self).free@ == (if old(self).used.member(n) { old(self).free@.push(n) } else { old(self).free@ })
            },
            !old(self).alias@.contains_key(n) && !old(self).valid(n) ==> {
                &&& final(self).alias@ == old(self).alias@
                &&& final(self).used == old(self).used
                &&& final(self).free@ == old(self).free@
            },
    {
        if self.is_alias_valid(n) {
            self.free_alias(n);
        } else if self.is_valid(n) {
            self.free(n)
        }
    }
}

/// Law: among the identifiers handed out so far, the valid ones are exactly
/// those in use.
pub proof fn lemma_valid_iff_in_use(f: Freelist, n: usize)
    requires
        f.wf(),
        n < f.total(),
    ensures
        f.valid(n) == f.used.member(n),
{
    if f.free@.len() == 0 {
        crate::sparse_set::lemma_len_counts_members(f.used);
    }
}

impl Default for Freelist {
    fn default() -> (f: Self)
        ensures
            f.wf(),
            f.total() == 0,
            f.free@ == Seq::<usize>::empty(),
            f.alias@ == Map::<usize, usize>::empty(),
    {
        Freelist::new()
    }
}

} // verus!
