use std::collections::HashMap;
use vstd::prelude::*;

verus! {

broadcast use vstd::std_specs::hash::group_hash_axioms;

/// Identifiers of entities.
pub type EntityId = usize;

/// A sparse set of entity identifiers.
///
/// `order_array` is the dense array; its first `order_max` slots form the
/// live prefix. `index_array` maps an identifier to one plus its dense
/// position (zero marks an identifier that was removed).
#[derive(Debug, Clone)]
pub struct SparseSet {
    pub order_max: usize,
    pub order_array: Vec<EntityId>,
    pub index_array: HashMap<EntityId, EntityId>,
}

/// A dense position together with the identifier stored there.
#[derive(Debug, Clone, PartialEq, Eq)]
pub struct DenseSparsePair {
    pub dense_index: EntityId,
    pub sparse_index: EntityId,
}

impl SparseSet {
    /// The dense array as a sequence.
    #[verifier::inline]
    pub open spec fn dense(&self) -> Seq<EntityId> {
        self.order_array@
    }

    /// The sparse map as a map.
    #[verifier::inline]
    pub open spec fn sparse(&self) -> Map<EntityId, EntityId> {
        self.index_array@
    }

    /// Structural well-formedness: the live prefix fits in the dense array, and
    /// every recorded index is zero, points at a live slot holding its key, or
    /// lies within the stale tail left behind by `clear`.
    pub open spec fn wf(&self) -> bool {
        &&& self.order_max <= self.dense().len()
        &&& forall|k: EntityId| #[trigger] self.sparse().contains_key(k) ==> {
            let v = self.sparse()[k];
            ||| v == 0
            ||| (v <= self.order_max && self.dense()[v - 1] == k)
            ||| v <= self.dense().len() - self.order_max
        }
    }

    /// `i` is a member: its recorded index points at a live slot holding `i`.
    pub open spec fn member(&self, i: EntityId) -> bool {
        &&& self.sparse().contains_key(i)
        &&& 0 < self.sparse()[i] <= self.order_max
        &&& self.dense()[self.sparse()[i] - 1] == i
    }

    /// The set of members.
    pub open spec fn members(&self) -> Set<EntityId> {
        Set::new(|i: EntityId| self.member(i))
    }

    /// Every live slot holds an identifier whose index points back at that
    /// slot (so the live prefix lists the members, each once).
    pub open spec fn canonical(&self) -> bool {
        &&& self.wf()
        &&& forall|j: int|
            0 <= j < self.order_max ==> #[trigger] self.slot_points_back(j)
    }

    /// Canonical, with no stale tail: the dense array is exactly the live
    /// prefix. `new` gives such a set, and `add` of a non-member and `remove`
    /// keep it so.
    pub open spec fn tight(&self) -> bool {
        &&& self.canonical()
        &&& self.dense().len() == self.order_max
    }

    /// The identifier at dense slot `j` records index `j + 1`.
    pub open spec fn slot_points_back(&self, j: int) -> bool {
        &&& self.sparse().contains_key(self.dense()[j])
        &&& self.sparse()[self.dense()[j]] == j + 1
    }

    /// The pair for identifier `i`, when it is a member.
    pub open spec fn pair_of(&self, i: EntityId) -> Option<DenseSparsePair> {
        if self.member(i) {
            Some(DenseSparsePair { dense_index: (self.sparse()[i] - 1) as EntityId, sparse_index: i })
        } else {
            None
        }
    }

    /// An empty sparse set.
    pub fn new() -> (s: Self)
        ensures
            s.tight(),
            s.canonical(),
            s.order_max == 0,
            s.dense() == Seq::<EntityId>::empty(),
            s.sparse() == Map::<EntityId, EntityId>::empty(),
    {
        SparseSet { order_max: 0, order_array: Vec::new(), index_array: HashMap::new() }
    }

    /// The number of live slots.
    pub fn len(&self) -> (n: usize)
        ensures
            n == self.order_max,
    {
        self.order_max
    }

    /// Membership test.
    pub fn is_member(&self, i: EntityId) -> (b: bool)
        requires
            self.wf(),
        ensures
            b == self.member(i),
    {
        if self.order_max == 0 {
            return false;
        }
        match self.index_array.get(&i) {
            Some(sp) => {
                let sp = *sp;
                if sp == 0 {
                    false
                } else {
                    let dn = self.order_array[sp - 1];
                    sp <= self.order_max && dn == i
                }
            },
            None => false,
        }
    }

    /// The pair of a member identifier, or `None`.
    pub fn get_pair_by_index(&self, sparse: EntityId) -> (p: Option<DenseSparsePair>)
        requires
            self.wf(),
        ensures
            p == self.pair_of(sparse),
    {
        if self.is_member(sparse) {
            let index = *self.index_array.get(&sparse).unwrap();
            let dense = index - 1;
            Some(DenseSparsePair { dense_index: dense, sparse_index: sparse })
        } else {
            None
        }
    }

    /// The pair of the identifier stored at dense position `pos`, if it is a member.
    pub fn get_pair_by_pos(&self, pos: EntityId) -> (p: Option<DenseSparsePair>)
        requires
            self.wf(),
            pos < self.dense().len(),
        ensures
            p == self.pair_of(self.dense()[pos as int]),
    {
        let dn = self.order_array[pos];
        self.get_pair_by_index(dn)
    }

    /// Appends `i` to the live prefix and records its index.
    pub fn add(&mut self, i: EntityId)
        requires
            old(self).wf(),
        ensures
            final(self).wf(),
            final(self).order_max == old(self).order_max + 1,
            final(self).dense() == old(self).dense().insert(old(self).order_max as int, i),
            final(self).sparse() == old(self).sparse().insert(i, (old(self).order_max + 1) as EntityId),
            final(self).members() == old(self).members().insert(i),
            old(self).canonical() && !old(self).member(i) ==> final(self).canonical(),
            old(self).tight() && !old(self).member(i) ==> final(self).tight(),
    {
        let ghost pre = *self;
        self.order_array.insert(self.order_max, i);
        // The dense array's length is a `usize`, so the live prefix had room
        // to grow by one.
        let grown = self.order_array.len();
        assert(pre.order_max < grown);
        self.order_max = self.order_max + 1;
        self.index_array.insert(i, self.order_max);
        proof {
            assert forall|k: EntityId| #[trigger] self.sparse().contains_key(k) implies {
                let v = self.sparse()[k];
                ||| v == 0
                ||| (v <= self.order_max && self.dense()[v - 1] == k)
                ||| v <= self.dense().len() - self.order_max
            } by {
                if k != i {
                    let v = pre.sparse()[k];
                    if v != 0 && v <= pre.order_max && pre.dense()[v - 1] == k {
                        assert(self.dense()[v - 1] == k);
                    }
                }
            }
            assert forall|k: EntityId| pre.member(k) || k == i implies self.member(k) by {
                if k != i && pre.member(k) {
                    let v = pre.sparse()[k];
                    assert(self.dense()[v - 1] == k);
                }
            }
            assert forall|k: EntityId| self.member(k) implies pre.member(k) || k == i by {
                if k != i {
                    let v = pre.sparse()[k];
                    if v == pre.order_max + 1 {
                        assert(self.dense()[v - 1] == i);
                    } else {
                        assert(self.dense()[v - 1] == pre.dense()[v - 1]);
                    }
                }
            }
            assert(self.members() =~= pre.members().insert(i));
            if pre.canonical() && !pre.member(i) {
                assert forall|j: int| 0 <= j < self.order_max implies #[trigger] self.slot_points_back(j) by {
                    if j < pre.order_max {
                        assert(pre.slot_points_back(j));
                        assert(self.dense()[j] == pre.dense()[j]);
                        assert(pre.member(pre.dense()[j]));
                    } else {
                        assert(self.dense()[j] == i);
                    }
                }
            }
        }
    }

    /// Exchanges the dense slots of two pairs and re-points their indices.
    pub fn swap(&mut self, a: &DenseSparsePair, b: &DenseSparsePair)
        requires
            a.dense_index < old(self).dense().len(),
            b.dense_index < old(self).dense().len(),
        ensures
            final(self).order_max == old(self).order_max,
            final(self).dense() == old(self).dense().update(a.dense_index as int, b.sparse_index).update(
                b.dense_index as int,
                a.sparse_index,
            ),
            final(self).sparse() == old(self).sparse().insert(
                a.sparse_index,
                (b.dense_index + 1) as EntityId,
            ).insert(b.sparse_index, (a.dense_index + 1) as EntityId),
    {
        let len = self.order_array.len();
        assert(b.dense_index + 1 <= len && a.dense_index + 1 <= len);
        self.order_array.set(a.dense_index, b.sparse_index);
        self.order_array.set(b.dense_index, a.sparse_index);
        self.index_array.insert(a.sparse_index, b.dense_index + 1);
        self.index_array.insert(b.sparse_index, a.dense_index + 1);
    }

    /// The state `remove(i)` leads to, when `i` and the last live identifier
    /// are both members: the two slots are exchanged, the live prefix shrinks
    /// by one, the last dense slot is dropped and `i`'s index is zeroed.
    pub open spec fn removed_state(&self, i: EntityId) -> (usize, Seq<EntityId>, Map<EntityId, EntityId>) {
        let n = self.dense()[self.order_max - 1];
        let a = self.sparse()[i] - 1;
        let b = self.sparse()[n] - 1;
        (
            (self.order_max - 1) as usize,
            self.dense().update(a, n).update(b, i).drop_last(),
            self.sparse().insert(i, (b + 1) as EntityId).insert(n, (a + 1) as EntityId).insert(i, 0),
        )
    }

    /// Removes `i` by moving the last live identifier into its slot.
    /// Nothing changes unless both `i` and the last live identifier are members.
    pub fn remove(&mut self, i: EntityId)
        requires
            old(self).wf(),
        ensures
            final(self).wf(),
            ({
                let o = old(self);
                if o.member(i) && o.member(o.dense()[o.order_max - 1]) {
                    (final(self).order_max, final(self).dense(), final(self).sparse()) == o.removed_state(i)
                } else {
                    &&& final(self).order_max == o.order_max
                    &&& final(self).dense() == o.dense()
                    &&& final(self).sparse() == o.sparse()
                }
            }),
            old(self).canonical() ==> final(self).canonical() && final(self).members() == old(self).members().remove(i),
            old(self).tight() ==> final(self).tight(),
    {
        let ghost pre = *self;
        proof {
            if pre.canonical() && pre.member(i) {
                assert(pre.slot_points_back(pre.order_max - 1));
            }
        }
        if self.is_member(i) {
            let i_pair = self.get_pair_by_index(i);
            let n_pair = self.get_pair_by_pos(self.order_max - 1);
            match (i_pair, n_pair) {
                (Some(i_p), Some(n_p)) => {
                    self.order_max = self.order_max - 1;
                    self.swap(&i_p, &n_p);
                    self.order_array.pop();
                    self.index_array.insert(i_p.sparse_index, 0);
                    proof { self.lemma_remove_effects(pre, i); }
                },
                _ => {},
            }
        }
        proof {
            if pre.canonical() && !pre.member(i) {
                assert(self.members() =~= pre.members().remove(i));
            }
        }
    }

    /// What `remove` establishes about its result state.
    proof fn lemma_remove_effects(&self, pre: SparseSet, i: EntityId)
        requires
            pre.wf(),
            pre.member(i),
            pre.member(pre.dense()[pre.order_max - 1]),
            (self.order_max, self.dense(), self.sparse()) == pre.removed_state(i),
        ensures
            self.wf(),
            pre.canonical() ==> self.canonical() && self.members() == pre.members().remove(i),
    {
        let n = pre.dense()[pre.order_max - 1];
        let a = pre.sparse()[i] - 1;
        let b = pre.sparse()[n] - 1;
        let m = pre.order_max;
        assert(a < m && b < m);
        assert forall|k: EntityId| #[trigger] self.sparse().contains_key(k) implies {
            let v = self.sparse()[k];
            ||| v == 0
            ||| (v <= self.order_max && self.dense()[v - 1] == k)
            ||| v <= self.dense().len() - self.order_max
        } by {
            if k == i {
            } else if k == n {
                if a == m - 1 {
                    assert(pre.dense()[a] == i);
                } else {
                    assert(self.dense()[a] == n);
                }
            } else {
                assert(pre.sparse().contains_key(k));
                let v = pre.sparse()[k];
                if v != 0 && v <= m && pre.dense()[v - 1] == k {
                    assert(v - 1 != a && v - 1 != b);
                    if v == m {
                        assert(pre.dense()[m - 1] == n);
                    }
                    assert(self.dense()[v - 1] == k);
                }
            }
        }
        if pre.canonical() {
            assert forall|k: EntityId| #[trigger] self.member(k) == (pre.member(k) && k != i) by {
                if k == n && k != i {
                    assert(pre.member(n));
                    if a == m - 1 {
                        assert(pre.dense()[a] == i);
                    }
                    assert(self.dense()[a] == n);
                } else if k != i && pre.member(k) {
                    let v = pre.sparse()[k];
                    assert(v - 1 != a && v - 1 != b);
                    if v == m {
                        assert(pre.dense()[m - 1] == n);
                    }
                    assert(self.dense()[v - 1] == k);
                } else if k != i && self.member(k) {
                    let v = self.sparse()[k];
                    assert(v == pre.sparse()[k]);
                    assert(v - 1 < m - 1);
                    let j = v - 1;
                    assert(pre.slot_points_back(j));
                    if j == a {
                        assert(self.dense()[j] == n);
                    } else if j == b {
                        assert(self.dense()[j] == i);
                    } else {
                        assert(self.dense()[j] == pre.dense()[j]);
                    }
                }
            }
            assert(self.members() =~= pre.members().remove(i));
            assert(pre.slot_points_back(m - 1));
            assert forall|j: int| 0 <= j < self.order_max implies #[trigger] self.slot_points_back(j) by {
                assert(pre.slot_points_back(j));
                if j == a {
                    assert(self.dense()[j] == n);
                } else {
                    assert(self.dense()[j] == pre.dense()[j]);
                    assert(pre.dense()[j] != i);
                    assert(pre.dense()[j] != n);
                }
            }
        }
    }

    /// The dense position of a member, or `None`.
    pub fn get_index(&self, i: EntityId) -> (r: Option<EntityId>)
        requires
            self.wf(),
        ensures
            r == (if self.member(i) { Some((self.sparse()[i] - 1) as EntityId) } else { None }),
    {
        if self.is_member(i) {
            Some(*self.index_array.get(&i).unwrap() - 1)
        } else {
            None
        }
    }

    /// The whole dense array, stale tail included.
    pub fn elements(&self) -> (v: &Vec<EntityId>)
        ensures
            v@ == self.dense(),
    {
        &self.order_array
    }

    /// Empties the live prefix; the arrays themselves are kept.
    pub fn clear(&mut self)
        requires
            old(self).wf(),
        ensures
            final(self).canonical(),
            final(self).order_max == 0,
            final(self).dense() == old(self).dense(),
            final(self).sparse() == old(self).sparse(),
            final(self).members() == Set::<EntityId>::empty(),
    {
        self.order_max = 0;
        assert(self.members() =~= Set::<EntityId>::empty());
    }
}

impl Default for SparseSet {
    fn default() -> (s: Self)
        ensures
            s.tight(),
            s.canonical(),
            s.order_max == 0,
            s.dense() == Seq::<EntityId>::empty(),
            s.sparse() == Map::<EntityId, EntityId>::empty(),
    {
        SparseSet::new()
    }
}

/// Law: in a canonical sparse set the live prefix lists exactly the members,
/// each once, so the number of live slots (`len`) is the number of members.
pub proof fn lemma_len_counts_members(s: SparseSet)
    requires
        s.canonical(),
    ensures
        s.members() == s.dense().take(s.order_max as int).to_set(),
        s.dense().take(s.order_max as int).no_duplicates(),
        s.members().finite(),
        s.members().len() == s.order_max,
{
    let p = s.dense().take(s.order_max as int);
    assert forall|x: EntityId| s.members().contains(x) <==> p.to_set().contains(x) by {
        if s.member(x) {
            let j = s.sparse()[x] - 1;
            assert(p[j] == x);
        }
        if p.to_set().contains(x) {
            let j = choose|j: int| 0 <= j < p.len() && p[j] == x;
            assert(s.slot_points_back(j));
        }
    }
    assert(s.members() =~= p.to_set());
    assert forall|i: int, j: int| 0 <= i < p.len() && 0 <= j < p.len() && i != j implies p[i] != p[j] by {
        assert(s.slot_points_back(i));
        assert(s.slot_points_back(j));
    }
    p.unique_seq_to_set();
}

/// Law: in a set kept tight (built by `new`, `add` of non-members and
/// `remove`), `elements()` lists exactly the members, each once, and has
/// `len()` entries.
pub proof fn lemma_elements_are_the_members(s: SparseSet)
    requires
        s.tight(),
    ensures
        s.dense().len() == s.order_max,
        s.dense().no_duplicates(),
        forall|x: EntityId| #[trigger] s.dense().contains(x) <==> s.member(x),
{
    lemma_len_counts_members(s);
    assert(s.dense().take(s.order_max as int) =~= s.dense());
    assert forall|x: EntityId| #[trigger] s.dense().contains(x) <==> s.member(x) by {
        assert(s.members().contains(x) == s.member(x));
        assert(s.dense().to_set().contains(x) == s.dense().contains(x));
    }
}

/// Law: a set just cleared and then given `x` (the relation `clear` and
/// `add` establish) holds exactly `x`, in the first live slot, with one live
/// slot.
pub proof fn lemma_clear_then_add(cleared: SparseSet, added: SparseSet, x: EntityId)
    requires
        cleared.canonical(),
        cleared.order_max == 0,
        added.order_max == cleared.order_max + 1,
        added.dense() == cleared.dense().insert(cleared.order_max as int, x),
        added.sparse() == cleared.sparse().insert(x, (cleared.order_max + 1) as EntityId),
    ensures
        added.order_max == 1,
        added.member(x),
        (added.sparse()[x] - 1) as EntityId == 0,
        added.members() == Set::<EntityId>::empty().insert(x),
        added.canonical(),
{
    assert forall|y: EntityId| added.member(y) <==> y == x by {
        if added.member(y) && y != x {
            assert(cleared.sparse().contains_key(y));
        }
    }
    assert(added.members() =~= Set::<EntityId>::empty().insert(x));
    assert forall|j: int| 0 <= j < added.order_max implies #[trigger] added.slot_points_back(j) by {
        assert(j == 0);
        assert(added.dense()[0] == x);
    }
}

} // verus!
