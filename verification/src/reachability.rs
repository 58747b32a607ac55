//! Walks through a directed matrix, and what its path search finds.
use vstd::prelude::*;

use crate::sparse_matrix::{some_path_meets, AdjacencyMatrix};
use crate::sparse_set::EntityId;

verus! {

impl AdjacencyMatrix {
    /// `p` steps from `p[i]` to `p[i + 1]` along an edge.
    pub open spec fn step(&self, p: Seq<EntityId>, i: int) -> bool {
        self.neighbor_order(p[i]).contains(p[i + 1])
    }

    /// `p` is a non-empty walk along edges.
    pub open spec fn is_walk(&self, p: Seq<EntityId>) -> bool {
        &&& p.len() >= 1
        &&& forall|i: int| 0 <= i < p.len() - 1 ==> #[trigger] self.step(p, i)
    }

    /// `b` can be reached from `a` by following edges (every node reaches itself).
    pub open spec fn reachable(&self, a: EntityId, b: EntityId) -> bool {
        exists|p: Seq<EntityId>| #[trigger] self.is_walk(p) && p[0] == a && p.last() == b
    }

    /// Every path the search produces from a walk `h` is a walk that extends `h`.
    proof fn lemma_paths_from_walks(&self, h: Seq<EntityId>, fuel: nat)
        requires
            self.is_walk(h),
        ensures
            forall|k: int| 0 <= k < self.paths_from(h, fuel).len() ==> {
                let q = #[trigger] self.paths_from(h, fuel)[k];
                &&& self.is_walk(q)
                &&& q.len() >= h.len()
                &&& q.take(h.len() as int) == h
            },
        decreases fuel, 2nat, 0nat,
    {
        let ns = self.neighbor_order(h.last());
        if ns.len() == 0 {
            assert(h.take(h.len() as int) =~= h);
            assert(self.paths_from(h, fuel) == seq![h]);
        } else {
            assert forall|i: int| 0 <= i < ns.len() implies self.neighbor_order(h.last()).contains(#[trigger] ns[i]) by {}
            self.lemma_paths_through_walks(h, ns, fuel);
            assert(self.paths_from(h, fuel) == self.paths_through(h, ns, fuel));
        }
    }

    proof fn lemma_paths_through_walks(&self, h: Seq<EntityId>, ns: Seq<EntityId>, fuel: nat)
        requires
            self.is_walk(h),
            forall|i: int| 0 <= i < ns.len() ==> self.neighbor_order(h.last()).contains(#[trigger] ns[i]),
        ensures
            forall|k: int| 0 <= k < self.paths_through(h, ns, fuel).len() ==> {
                let q = #[trigger] self.paths_through(h, ns, fuel)[k];
                &&& self.is_walk(q)
                &&& q.len() >= h.len()
                &&& q.take(h.len() as int) == h
            },
        decreases fuel, 1nat, ns.len(),
    {
        if ns.len() > 0 {
            let rest = ns.drop_last();
            let n = ns.last();
            assert(self.neighbor_order(h.last()).contains(ns[ns.len() - 1]));
            self.lemma_paths_through_walks(h, rest, fuel);
            self.lemma_branch_walks(h, n, fuel);
            let a = self.paths_through(h, rest, fuel);
            let b = self.branch(h, n, fuel);
            assert forall|k: int| 0 <= k < self.paths_through(h, ns, fuel).len() implies {
                let q = #[trigger] self.paths_through(h, ns, fuel)[k];
                &&& self.is_walk(q)
                &&& q.len() >= h.len()
                &&& q.take(h.len() as int) == h
            } by {
                if k < a.len() {
                    assert(self.paths_through(h, ns, fuel)[k] == a[k]);
                } else {
                    assert(self.paths_through(h, ns, fuel)[k] == b[k - a.len()]);
                }
            }
        }
    }

    proof fn lemma_branch_walks(&self, h: Seq<EntityId>, n: EntityId, fuel: nat)
        requires
            self.is_walk(h),
            self.neighbor_order(h.last()).contains(n),
        ensures
            forall|k: int| 0 <= k < self.branch(h, n, fuel).len() ==> {
                let q = #[trigger] self.branch(h, n, fuel)[k];
                &&& self.is_walk(q)
                &&& q.len() >= h.len()
                &&& q.take(h.len() as int) == h
            },
        decreases fuel, 0nat, 0nat,
    {
        let hn = h.push(n);
        self.lemma_walk_push(h, n);
        assert(hn.take(h.len() as int) =~= h);
        if h.contains(n) {
        } else if fuel > 0 {
            self.lemma_paths_from_walks(hn, (fuel - 1) as nat);
            assert forall|k: int| 0 <= k < self.branch(h, n, fuel).len() implies {
                let q = #[trigger] self.branch(h, n, fuel)[k];
                &&& self.is_walk(q)
                &&& q.len() >= h.len()
                &&& q.take(h.len() as int) == h
            } by {
                let q = self.paths_from(hn, (fuel - 1) as nat)[k];
                assert(q.take(hn.len() as int) == hn);
                assert(q.take(h.len() as int) =~= q.take(hn.len() as int).take(h.len() as int));
            }
        }
    }

    /// A walk extended by a neighbour of its last node is a walk.
    proof fn lemma_walk_push(&self, h: Seq<EntityId>, n: EntityId)
        requires
            self.is_walk(h),
            self.neighbor_order(h.last()).contains(n),
        ensures
            self.is_walk(h.push(n)),
    {
        let hn = h.push(n);
        assert forall|i: int| 0 <= i < hn.len() - 1 implies #[trigger] self.step(hn, i) by {
            if i < h.len() - 1 {
                assert(self.step(h, i));
            }
        }
    }

    /// The conditions under which the search from `h` never runs out of depth.
    pub open spec fn search_room(&self, h: Seq<EntityId>, fuel: nat, u: Set<EntityId>) -> bool {
        &&& u.finite()
        &&& self.named_neighbors().subset_of(u)
        &&& h.len() >= 1
        &&& h.no_duplicates()
        &&& forall|i: int| 0 <= i < h.len() ==> u.contains(#[trigger] h[i])
        &&& h.len() + fuel >= u.len()
    }

    /// A neighbour that is not yet on `h` leaves room to go one level deeper.
    proof fn lemma_room_for_neighbor(&self, h: Seq<EntityId>, fuel: nat, u: Set<EntityId>, n: EntityId)
        requires
            self.search_room(h, fuel, u),
            self.neighbor_order(h.last()).contains(n),
            !h.contains(n),
        ensures
            fuel >= 1,
            self.search_room(h.push(n), (fuel - 1) as nat, u),
    {
        self.lemma_neighbor_in_universe(h.last(), n, u);
        let hn = h.push(n);
        assert forall|i: int, k: int| 0 <= i < hn.len() && 0 <= k < hn.len() && i != k implies hn[i] != hn[k] by {
            if i < h.len() && k < h.len() {
            } else if i < h.len() {
                assert(h.contains(hn[i]));
            } else {
                assert(h.contains(hn[k]));
            }
        }
        hn.unique_seq_to_set();
        assert(hn.to_set().subset_of(u)) by {
            assert forall|x: EntityId| hn.to_set().contains(x) implies u.contains(x) by {
                let i = choose|i: int| 0 <= i < hn.len() && hn[i] == x;
                if i < h.len() {
                    assert(u.contains(h[i]));
                }
            }
        }
        vstd::set_lib::lemma_len_subset(hn.to_set(), u);
        assert forall|i: int| 0 <= i < hn.len() implies u.contains(#[trigger] hn[i]) by {
            if i < h.len() {
                assert(u.contains(h[i]));
            }
        }
    }

    /// A neighbour is a named neighbour, hence in any universe holding those.
    proof fn lemma_neighbor_in_universe(&self, a: EntityId, n: EntityId, u: Set<EntityId>)
        requires
            self.named_neighbors().subset_of(u),
            self.neighbor_order(a).contains(n),
        ensures
            u.contains(n),
    {
        assert(self.adjacency@.dom().contains(a));
        assert(self.named_neighbors().contains(n));
    }

    /// With room to search, the search from `h` yields at least one path.
    proof fn lemma_paths_from_nonempty(&self, h: Seq<EntityId>, fuel: nat, u: Set<EntityId>)
        requires
            self.search_room(h, fuel, u),
        ensures
            self.paths_from(h, fuel).len() > 0,
        decreases fuel, 2nat, 0nat,
    {
        let ns = self.neighbor_order(h.last());
        if ns.len() > 0 {
            self.lemma_paths_through_nonempty(h, ns, fuel, u);
        }
    }

    proof fn lemma_paths_through_nonempty(&self, h: Seq<EntityId>, ns: Seq<EntityId>, fuel: nat, u: Set<EntityId>)
        requires
            self.search_room(h, fuel, u),
            ns.len() > 0,
            forall|i: int| 0 <= i < ns.len() ==> self.neighbor_order(h.last()).contains(#[trigger] ns[i]),
        ensures
            self.paths_through(h, ns, fuel).len() > 0,
        decreases fuel, 1nat, ns.len(),
    {
        let n = ns.last();
        assert(self.neighbor_order(h.last()).contains(ns[ns.len() - 1]));
        assert(self.paths_through(h, ns, fuel) == self.paths_through(h, ns.drop_last(), fuel) + self.branch(h, n, fuel));
        if !h.contains(n) {
            self.lemma_room_for_neighbor(h, fuel, u, n);
            self.lemma_paths_from_nonempty(h.push(n), (fuel - 1) as nat, u);
            assert(self.branch(h, n, fuel) == self.paths_from(h.push(n), (fuel - 1) as nat));
        } else {
            assert(self.branch(h, n, fuel) == seq![h.push(n)]);
        }
    }

    /// Every path produced through neighbour `ns[k]` is among those produced through `ns`.
    proof fn lemma_branch_included(&self, h: Seq<EntityId>, ns: Seq<EntityId>, fuel: nat, k: int, m: int)
        requires
            0 <= k < ns.len(),
            0 <= m < self.branch(h, ns[k], fuel).len(),
        ensures
            self.paths_through(h, ns, fuel).contains(self.branch(h, ns[k], fuel)[m]),
        decreases ns.len(),
    {
        let rest = ns.drop_last();
        let a = self.paths_through(h, rest, fuel);
        let b = self.branch(h, ns.last(), fuel);
        if k == ns.len() - 1 {
            assert(self.paths_through(h, ns, fuel)[a.len() + m] == b[m]);
        } else {
            assert(rest[k] == ns[k]);
            self.lemma_branch_included(h, rest, fuel, k, m);
            let i = choose|i: int| 0 <= i < a.len() && a[i] == self.branch(h, ns[k], fuel)[m];
            assert(self.paths_through(h, ns, fuel)[i] == a[i]);
        }
    }

    /// With room to search, the search from `h` meets the end of every simple
    /// walk that starts at `h.last()` and then avoids `h`.
    proof fn lemma_paths_from_meets(&self, h: Seq<EntityId>, fuel: nat, u: Set<EntityId>, p: Seq<EntityId>)
        requires
            self.search_room(h, fuel, u),
            self.is_walk(h),
            self.is_walk(p),
            p.no_duplicates(),
            p[0] == h.last(),
            forall|i: int| 1 <= i < p.len() ==> !h.contains(#[trigger] p[i]),
        ensures
            some_path_meets(self.paths_from(h, fuel), p.last()),
        decreases fuel,
    {
        let paths = self.paths_from(h, fuel);
        if p.len() == 1 {
            self.lemma_paths_from_nonempty(h, fuel, u);
            self.lemma_paths_from_walks(h, fuel);
            let q = paths[0];
            assert(q.take(h.len() as int) == h);
            assert(q[h.len() - 1] == h.last());
            assert(paths[0][h.len() - 1] == p.last());
        } else {
            assert(self.step(p, 0));
            let n = p[1];
            let ns = self.neighbor_order(h.last());
            assert(ns.contains(n));
            let k = choose|k: int| 0 <= k < ns.len() && ns[k] == n;
            assert(!h.contains(n));
            self.lemma_room_for_neighbor(h, fuel, u, n);
            self.lemma_walk_push(h, n);
            let hn = h.push(n);
            let p2 = p.subrange(1, p.len() as int);
            assert(self.is_walk(p2)) by {
                assert forall|i: int| 0 <= i < p2.len() - 1 implies #[trigger] self.step(p2, i) by {
                    assert(self.step(p, i + 1));
                }
            }
            assert forall|i: int| 1 <= i < p2.len() implies !hn.contains(#[trigger] p2[i]) by {
                assert(p2[i] == p[i + 1]);
                assert(!h.contains(p[i + 1]));
                if hn.contains(p2[i]) {
                    let j = choose|j: int| 0 <= j < hn.len() && hn[j] == p2[i];
                    if j < h.len() {
                        assert(h.contains(h[j]));
                    } else {
                        assert(p[1] == p[i + 1]);
                    }
                }
            }
            self.lemma_paths_from_meets(hn, (fuel - 1) as nat, u, p2);
            let sub = self.paths_from(hn, (fuel - 1) as nat);
            assert(self.branch(h, ns[k], fuel) == sub);
            let (a, b) = choose|a: int, b: int| 0 <= a < sub.len() && 0 <= b < sub[a].len() && #[trigger] sub[a][b] == p2.last();
            self.lemma_branch_included(h, ns, fuel, k, a);
            let i = choose|i: int| 0 <= i < paths.len() && paths[i] == sub[a];
            assert(paths[i][b] == p.last());
        }
    }

    /// Any walk can be shortened to a walk without repeated nodes between the same ends.
    proof fn lemma_simple_walk(&self, p: Seq<EntityId>) -> (q: Seq<EntityId>)
        requires
            self.is_walk(p),
        ensures
            self.is_walk(q),
            q.no_duplicates(),
            q[0] == p[0],
            q.last() == p.last(),
        decreases p.len(),
    {
        if p.no_duplicates() {
            p
        } else {
            let (i, j) = choose|i: int, j: int| 0 <= i < p.len() && 0 <= j < p.len() && i != j && p[i] == p[j];
            let (a, b) = if i < j { (i, j) } else { (j, i) };
            let r = p.take(a + 1) + p.skip(b + 1);
            assert(self.is_walk(r)) by {
                assert forall|k: int| 0 <= k < r.len() - 1 implies #[trigger] self.step(r, k) by {
                    if k < a {
                        assert(self.step(p, k));
                    } else if k == a {
                        assert(r[k] == p[b]);
                        assert(self.step(p, b));
                    } else {
                        assert(self.step(p, k + b - a));
                    }
                }
            }
            if b == p.len() - 1 {
                assert(r.last() == p[a]);
            }
            self.lemma_simple_walk(r)
        }
    }

    /// `q` is a maximal simple path: its nodes before the last are distinct,
    /// and it ends at a node without neighbours or steps back onto a node it
    /// already holds.
    pub open spec fn maximal_simple(&self, q: Seq<EntityId>) -> bool {
        &&& q.len() >= 1
        &&& q.drop_last().no_duplicates()
        &&& (self.neighbor_order(q.last()).len() == 0 || q.drop_last().contains(q.last()))
    }

    /// Every path produced from a simple `h` is maximal and simple.
    proof fn lemma_paths_from_shape(&self, h: Seq<EntityId>, fuel: nat)
        requires
            h.len() >= 1,
            h.no_duplicates(),
        ensures
            forall|k: int| 0 <= k < self.paths_from(h, fuel).len() ==> self.maximal_simple(
                #[trigger] self.paths_from(h, fuel)[k],
            ),
        decreases fuel, 2nat, 0nat,
    {
        let ns = self.neighbor_order(h.last());
        if ns.len() == 0 {
            assert(self.paths_from(h, fuel) == seq![h]);
            assert(h.drop_last().no_duplicates()) by {
                assert forall|i: int, j: int| 0 <= i < h.len() - 1 && 0 <= j < h.len() - 1 && i != j
                    implies h.drop_last()[i] != h.drop_last()[j] by {
                    assert(h.drop_last()[i] == h[i] && h.drop_last()[j] == h[j]);
                }
            }
        } else {
            self.lemma_paths_through_shape(h, ns, fuel);
            assert(self.paths_from(h, fuel) == self.paths_through(h, ns, fuel));
        }
    }

    proof fn lemma_paths_through_shape(&self, h: Seq<EntityId>, ns: Seq<EntityId>, fuel: nat)
        requires
            h.len() >= 1,
            h.no_duplicates(),
        ensures
            forall|k: int| 0 <= k < self.paths_through(h, ns, fuel).len() ==> self.maximal_simple(
                #[trigger] self.paths_through(h, ns, fuel)[k],
            ),
        decreases fuel, 1nat, ns.len(),
    {
        if ns.len() > 0 {
            let rest = ns.drop_last();
            let n = ns.last();
            self.lemma_paths_through_shape(h, rest, fuel);
            self.lemma_branch_shape(h, n, fuel);
            let a = self.paths_through(h, rest, fuel);
            let b = self.branch(h, n, fuel);
            assert forall|k: int| 0 <= k < self.paths_through(h, ns, fuel).len() implies self.maximal_simple(
                #[trigger] self.paths_through(h, ns, fuel)[k],
            ) by {
                if k < a.len() {
                    assert(self.paths_through(h, ns, fuel)[k] == a[k]);
                } else {
                    assert(self.paths_through(h, ns, fuel)[k] == b[k - a.len()]);
                }
            }
        }
    }

    proof fn lemma_branch_shape(&self, h: Seq<EntityId>, n: EntityId, fuel: nat)
        requires
            h.len() >= 1,
            h.no_duplicates(),
        ensures
            forall|k: int| 0 <= k < self.branch(h, n, fuel).len() ==> self.maximal_simple(
                #[trigger] self.branch(h, n, fuel)[k],
            ),
        decreases fuel, 0nat, 0nat,
    {
        let hn = h.push(n);
        assert(hn.drop_last() =~= h);
        if h.contains(n) {
            assert(self.branch(h, n, fuel) == seq![hn]);
            assert(hn.last() == n);
            assert(self.maximal_simple(hn));
            assert(self.branch(h, n, fuel)[0] == hn);
        } else if fuel > 0 {
            assert(hn.no_duplicates()) by {
                assert forall|i: int, j: int| 0 <= i < hn.len() && 0 <= j < hn.len() && i != j implies hn[i] != hn[j] by {
                    if i < h.len() && j < h.len() {
                    } else if i < h.len() {
                        assert(h.contains(hn[i]));
                    } else {
                        assert(h.contains(hn[j]));
                    }
                }
            }
            self.lemma_paths_from_shape(hn, (fuel - 1) as nat);
            assert(self.branch(h, n, fuel) == self.paths_from(hn, (fuel - 1) as nat));
        }
    }

    /// Law: every path the search from `src` returns is a walk along edges
    /// that starts at `src` and is maximal and simple: its nodes before the
    /// last are distinct, and it ends at a node without neighbours or steps
    /// back onto a node it already holds.
    pub proof fn lemma_dfs_paths_shape(&self, src: EntityId)
        ensures
            forall|k: int| 0 <= k < self.dfs_paths(src).len() ==> {
                let q = #[trigger] self.dfs_paths(src)[k];
                &&& self.is_walk(q)
                &&& q[0] == src
                &&& self.maximal_simple(q)
            },
    {
        let u = self.search_universe(src);
        let h = seq![src];
        let fuel = (u.len() - 1) as nat;
        assert(self.is_walk(h)) by {
            assert forall|i: int| 0 <= i < h.len() - 1 implies #[trigger] self.step(h, i) by {}
        }
        self.lemma_paths_from_walks(h, fuel);
        self.lemma_paths_from_shape(h, fuel);
        assert forall|k: int| 0 <= k < self.dfs_paths(src).len() implies {
            let q = #[trigger] self.dfs_paths(src)[k];
            &&& self.is_walk(q)
            &&& q[0] == src
            &&& self.maximal_simple(q)
        } by {
            let q = self.paths_from(h, fuel)[k];
            assert(q.take(1) == h);
            assert(q[0] == q.take(1)[0]);
        }
    }

    /// Law: the search from `src` passes through `tgt` exactly when `tgt` can be
    /// reached from `src` by following edges.
    pub proof fn lemma_dfs_meets_reachable(&self, src: EntityId, tgt: EntityId)
        ensures
            some_path_meets(self.dfs_paths(src), tgt) <==> self.reachable(src, tgt),
    {
        let u = self.search_universe(src);
        self.lemma_search_universe_finite(src);
        let h = seq![src];
        let fuel = (u.len() - 1) as nat;
        let paths = self.dfs_paths(src);
        if some_path_meets(paths, tgt) {
            let (a, b) = choose|a: int, b: int| 0 <= a < paths.len() && 0 <= b < paths[a].len() && #[trigger] paths[a][b] == tgt;
            assert(self.is_walk(h)) by {
                assert forall|i: int| 0 <= i < h.len() - 1 implies #[trigger] self.step(h, i) by {}
            }
            self.lemma_paths_from_walks(h, fuel);
            let q = paths[a];
            assert(q.take(1) == h);
            let w = q.take(b + 1);
            assert(self.is_walk(w)) by {
                assert forall|i: int| 0 <= i < w.len() - 1 implies #[trigger] self.step(w, i) by {
                    assert(self.step(q, i));
                }
            }
            assert(w[0] == q.take(1)[0]);
            assert(self.is_walk(w) && w[0] == src && w.last() == tgt);
        }
        if self.reachable(src, tgt) {
            let p0 = choose|p: Seq<EntityId>| #[trigger] self.is_walk(p) && p[0] == src && p.last() == tgt;
            let p = self.lemma_simple_walk(p0);
            assert(u.contains(src));
            assert(self.search_room(h, fuel, u));
            assert(self.is_walk(h)) by {
                assert forall|i: int| 0 <= i < h.len() - 1 implies #[trigger] self.step(h, i) by {}
            }
            assert forall|i: int| 1 <= i < p.len() implies !h.contains(#[trigger] p[i]) by {
                if h.contains(p[i]) {
                    assert(p[i] == p[0]);
                }
            }
            self.lemma_paths_from_meets(h, fuel, u, p);
        }
    }
}

} // verus!
