//! An adjacency matrix whose edges are recorded in both directions.
use std::collections::HashMap;
use std::collections::HashSet;
use vstd::prelude::*;

use crate::keys::{key_order, keys_of};
use crate::sparse_matrix::{
    all_lists, all_lists_exec, drop_edges, edge_added, edges_dropped, lists_view, link_once,
    graph_view, paths_view, push_entry, push_into, arrows_dropped, ArrowIndex, Graph, Matrix, Path,
    SparseMatrixArrowIdentity, SparseMatrixHashMap,
};
use crate::sparse_set::EntityId;

verus! {

broadcast use vstd::std_specs::hash::group_hash_axioms;

/// `g` after recording edge `id` between `src` and `tgt` in both directions.
pub open spec fn link_added(g: Graph, id: EntityId, src: EntityId, tgt: EntityId) -> Graph {
    edge_added(edge_added(g, id, src, tgt), id, tgt, src)
}

/// The edge index after recording edge `id` between `src` and `tgt`.
pub open spec fn pairs_added(a: ArrowIndex, id: EntityId, src: EntityId, tgt: EntityId) -> ArrowIndex {
    push_entry(push_entry(a, id, (src, tgt)), id, (tgt, src))
}

/// `g` with the entries between the two nodes of each pair dropped, both ways, in order.
pub open spec fn unlink_pairs(g: Graph, pairs: Seq<(EntityId, EntityId)>) -> Graph
    decreases pairs.len(),
{
    if pairs.len() == 0 {
        g
    } else {
        let p = pairs.last();
        edges_dropped(edges_dropped(unlink_pairs(g, pairs.drop_last()), p.0, p.1), p.1, p.0)
    }
}

/// `g` after removing edge `id` (given the edge index `a`).
pub open spec fn link_removed(g: Graph, a: ArrowIndex, id: EntityId) -> Graph {
    if a.contains_key(id) {
        unlink_pairs(g, a[id])
    } else {
        g
    }
}

/// `g` after dropping every edge between `src` and `tgt`, both ways.
pub open spec fn links_dropped(g: Graph, src: EntityId, tgt: EntityId) -> Graph {
    edges_dropped(edges_dropped(g, src, tgt), tgt, src)
}

/// The edge index after dropping every edge between `src` and `tgt`, both ways.
pub open spec fn pairs_dropped(g: Graph, a: ArrowIndex, src: EntityId, tgt: EntityId) -> ArrowIndex {
    arrows_dropped(edges_dropped(g, src, tgt), arrows_dropped(g, a, src, tgt), tgt, src)
}

/// Whether `src` and `tgt` count as adjacent: they are the same node, or the
/// entry of `src` (or, when `src` has none, that of `tgt`) lists the other.
pub open spec fn linked(g: Graph, src: EntityId, tgt: EntityId) -> bool {
    if src == tgt {
        true
    } else if g.contains_key(src) {
        g[src].contains_key(tgt)
    } else {
        g.contains_key(tgt) && g[tgt].contains_key(src)
    }
}

/// Every entry from `a` to `b` is matched by one from `b` to `a`.
pub open spec fn symmetric(g: Graph) -> bool {
    forall|a: EntityId, b: EntityId| #[trigger] g.contains_key(a) && #[trigger] g[a].contains_key(b)
        ==> g.contains_key(b) && g[b].contains_key(a)
}

/// The elements of the lists `l(a)`, over the nodes `a` of a finite set, form a finite set.
proof fn lemma_union_of_lists_finite(d: Set<EntityId>, l: spec_fn(EntityId) -> Seq<EntityId>)
    requires
        d.finite(),
    ensures
        Set::new(|b: EntityId| exists|a: EntityId| d.contains(a) && #[trigger] l(a).contains(b)).finite(),
    decreases d.len(),
{
    let s = Set::new(|b: EntityId| exists|a: EntityId| d.contains(a) && #[trigger] l(a).contains(b));
    if d.len() == 0 {
        assert(s =~= Set::<EntityId>::empty()) by {
            assert forall|b: EntityId| !s.contains(b) by {
                if s.contains(b) {
                    let a = choose|a: EntityId| d.contains(a) && #[trigger] l(a).contains(b);
                    assert(d.contains(a));
                }
            }
        }
    } else {
        let a = d.choose();
        let rest = d.remove(a);
        lemma_union_of_lists_finite(rest, l);
        let s_rest = Set::new(|b: EntityId| exists|a2: EntityId| rest.contains(a2) && #[trigger] l(a2).contains(b));
        assert(s =~= s_rest.union(l(a).to_set())) by {
            assert forall|b: EntityId| s.contains(b) implies s_rest.union(l(a).to_set()).contains(b) by {
                let a2 = choose|a2: EntityId| d.contains(a2) && #[trigger] l(a2).contains(b);
                if a2 != a {
                    assert(rest.contains(a2));
                }
            }
            assert forall|b: EntityId| s_rest.union(l(a).to_set()).contains(b) implies s.contains(b) by {
                if s_rest.contains(b) {
                    let a2 = choose|a2: EntityId| rest.contains(a2) && #[trigger] l(a2).contains(b);
                    assert(d.contains(a2));
                } else {
                    assert(d.contains(a));
                }
            }
        }
    }
}

/// An adjacency matrix whose edges are recorded in both directions.
#[derive(Debug, Clone)]
pub struct UndirectedAdjacencyMatrix {
    pub adjacency: SparseMatrixHashMap,
    pub edges: SparseMatrixArrowIdentity,
}

impl UndirectedAdjacencyMatrix {
    pub open spec fn graph(&self) -> Graph {
        graph_view(self.adjacency)
    }

    pub open spec fn arrows(&self) -> ArrowIndex {
        lists_view(self.edges)
    }

    /// An empty matrix.
    pub fn new() -> (m: Self)
        ensures
            m.graph() == Graph::empty(),
            m.arrows() == ArrowIndex::empty(),
            symmetric(m.graph()),
    {
        let m = UndirectedAdjacencyMatrix { adjacency: HashMap::new(), edges: HashMap::new() };
        assert(m.graph() =~= Graph::empty());
        assert(m.arrows() =~= ArrowIndex::empty());
        m
    }
}

impl Default for UndirectedAdjacencyMatrix {
    fn default() -> (m: Self)
        ensures
            m.graph() == Graph::empty(),
            m.arrows() == ArrowIndex::empty(),
            symmetric(m.graph()),
    {
        UndirectedAdjacencyMatrix::new()
    }
}

/// Drops the entry from `a` to `b`, if there is one.
fn unlink(adjacency: &mut SparseMatrixHashMap, a: EntityId, b: EntityId)
    ensures
        graph_view(*final(adjacency)) == edges_dropped(graph_view(*old(adjacency)), a, b),
{
    let ghost g0 = graph_view(*adjacency);
    let ghost pre = *adjacency;
    match adjacency.remove(&a) {
        Some(mut kv) => {
            let ghost kv0 = kv;
            kv.remove(&b);
            assert(lists_view(kv) =~= lists_view(kv0).remove(b));
            adjacency.insert(a, kv);
            assert(adjacency@ =~= pre@.insert(a, kv));
            assert(graph_view(*adjacency) =~= g0.insert(a, g0[a].remove(b)));
        },
        None => {
            assert(adjacency@ =~= pre@);
            assert(graph_view(*adjacency) =~= g0);
        },
    }
}

impl Matrix for UndirectedAdjacencyMatrix {
    fn is_empty(&self) -> (b: bool)
        ensures
            b == (self.graph().dom() == Set::<EntityId>::empty()),
    {
        let b = self.adjacency.is_empty();
        assert(self.graph().dom() =~= self.adjacency@.dom());
        b
    }

    fn add_node(&mut self, node: EntityId)
        ensures
            final(self).graph() == old(self).graph().insert(node, Map::empty()),
            final(self).arrows() == old(self).arrows(),
            symmetric(old(self).graph()) && !old(self).graph().contains_key(node) ==> symmetric(final(self).graph()),
    {
        let ghost pre = self.graph();
        let e: HashMap<EntityId, Vec<EntityId>> = HashMap::new();
        assert(lists_view(e) =~= Map::empty());
        self.adjacency.insert(node, e);
        assert(self.graph() =~= pre.insert(node, Map::empty()));
        proof {
            if symmetric(pre) && !pre.contains_key(node) {
                lemma_node_added_symmetric(pre, node);
            }
        }
    }

    fn add_edge(&mut self, id: EntityId, src: EntityId, tgt: EntityId)
        ensures
            final(self).graph() == link_added(old(self).graph(), id, src, tgt),
            final(self).arrows() == pairs_added(old(self).arrows(), id, src, tgt),
            symmetric(old(self).graph()) ==> symmetric(final(self).graph()),
    {
        proof {
            if symmetric(self.graph()) {
                lemma_link_added_symmetric(self.graph(), id, src, tgt);
            }
        }
        if !self.adjacency.contains_key(&src) {
            self.add_node(src);
        }
        if !self.adjacency.contains_key(&tgt) {
            self.add_node(tgt);
        }
        link_once(&mut self.adjacency, id, src, tgt);
        push_into(&mut self.edges, id, (src, tgt));
        link_once(&mut self.adjacency, id, tgt, src);
        push_into(&mut self.edges, id, (tgt, src));
    }

    fn remove_edge(&mut self, id: EntityId)
        ensures
            final(self).graph() == link_removed(old(self).graph(), old(self).arrows(), id),
            final(self).arrows() == old(self).arrows().remove(id),
            symmetric(old(self).graph()) ==> symmetric(final(self).graph()),
    {
        proof {
            if symmetric(self.graph()) {
                lemma_link_removed_symmetric(self.graph(), self.arrows(), id);
            }
        }
        let ghost g0 = self.graph();
        match self.edges.get(&id) {
            Some(pairs) => {
                let mut j: usize = 0;
                while j < pairs.len()
                    invariant
                        j <= pairs.len(),
                        self.edges@ == old(self).edges@,
                        old(self).graph() == g0,
                        graph_view(self.adjacency) == unlink_pairs(g0, pairs@.take(j as int)),
                    decreases pairs.len() - j,
                {
                    let (k, v) = pairs[j];
                    unlink(&mut self.adjacency, k, v);
                    unlink(&mut self.adjacency, v, k);
                    assert(pairs@.take(j + 1).drop_last() =~= pairs@.take(j as int));
                    j = j + 1;
                }
                assert(pairs@.take(pairs@.len() as int) =~= pairs@);
            },
            None => {
                assert(unlink_pairs(g0, Seq::<(EntityId, EntityId)>::empty()) == g0);
            },
        }
        let ghost e0 = self.edges;
        self.edges.remove(&id);
        assert(self.edges@ == e0@.remove(id));
        assert(self.arrows() =~= lists_view(e0).remove(id));
    }

    fn remove_edges(&mut self, src: EntityId, tgt: EntityId)
        ensures
            final(self).graph() == links_dropped(old(self).graph(), src, tgt),
            final(self).arrows() == pairs_dropped(old(self).graph(), old(self).arrows(), src, tgt),
            symmetric(old(self).graph()) ==> symmetric(final(self).graph()),
    {
        proof {
            if symmetric(self.graph()) {
                lemma_links_dropped_symmetric(self.graph(), src, tgt);
            }
        }
        drop_edges(&mut self.adjacency, &mut self.edges, src, tgt);
        drop_edges(&mut self.adjacency, &mut self.edges, tgt, src);
    }

    fn check_edge(&self, src: EntityId, tgt: EntityId) -> (b: bool)
        ensures
            b == linked(self.graph(), src, tgt),
    {
        if src == tgt {
            return true;
        }
        match self.adjacency.get(&src) {
            Some(adj_map) => adj_map.contains_key(&tgt),
            None => match self.adjacency.get(&tgt) {
                Some(adj_map) => adj_map.contains_key(&src),
                None => false,
            },
        }
    }

    fn get_all_nodes(&self) -> (r: Vec<EntityId>)
        ensures
            r@ == key_order(&self.adjacency),
            r@.no_duplicates(),
            r@.to_set() == self.graph().dom(),
    {
        keys_of(&self.adjacency)
    }

    fn get_all_edges(&self) -> (r: Vec<EntityId>)
        ensures
            r@ == key_order(&self.edges),
            r@.no_duplicates(),
            r@.to_set() == self.arrows().dom(),
    {
        keys_of(&self.edges)
    }
}

impl UndirectedAdjacencyMatrix {
    /// The neighbours of `v`, in walk order.
    pub open spec fn neighbor_order(&self, v: EntityId) -> Seq<EntityId> {
        if self.adjacency@.contains_key(v) {
            key_order(&self.adjacency@[v])
        } else {
            Seq::empty()
        }
    }

    pub fn are_adjacent(&self, src: EntityId, tgt: EntityId) -> (b: bool)
        ensures
            b == linked(self.graph(), src, tgt),
    {
        self.check_edge(src, tgt)
    }

    /// The number of neighbours of `src`.
    pub fn neighbor_count(&self, src: EntityId) -> (n: usize)
        ensures
            n == (if self.graph().contains_key(src) { self.graph()[src].dom().len() } else { 0 }),
    {
        match self.adjacency.get(&src) {
            Some(adj_map) => {
                assert(lists_view(*adj_map).dom() =~= adj_map@.dom());
                adj_map.len()
            },
            None => 0,
        }
    }

    /// The neighbours of `src`, each once, in walk order.
    pub fn neighbors(&self, src: EntityId) -> (r: Vec<EntityId>)
        ensures
            r@ == self.neighbor_order(src),
            r@.no_duplicates(),
            r@.to_set() == (if self.graph().contains_key(src) { self.graph()[src].dom() } else { Set::empty() }),
    {
        match self.adjacency.get(&src) {
            Some(adj_map) => {
                assert(lists_view(*adj_map).dom() =~= adj_map@.dom());
                keys_of(adj_map)
            },
            None => {
                let r: Vec<EntityId> = Vec::new();
                assert(r@.to_set() =~= Set::empty());
                r
            },
        }
    }

    /// The nodes that are a neighbour of some node.
    pub open spec fn named_neighbors(&self) -> Set<EntityId> {
        Set::new(|b: EntityId| exists|a: EntityId| #[trigger] self.neighbor_order(a).contains(b))
    }

    /// Every node a search from `src` can meet.
    pub open spec fn search_universe(&self, src: EntityId) -> Set<EntityId> {
        self.named_neighbors().insert(src)
    }

    /// The state of a search after visiting `cur`, from history `h` and
    /// finished set `f`: the history and finished set it leaves, and the paths
    /// it reports. `cur` is marked finished and pushed onto the history; with
    /// no neighbours the history is reported, else the neighbours are taken in
    /// walk order (see `visit_step`); at the end the top of the history, if
    /// any, is popped and taken out of the finished set.
    pub open spec fn visit(&self, h: Seq<EntityId>, f: Set<EntityId>, cur: EntityId, fuel: nat) -> (Seq<EntityId>, Set<EntityId>, Seq<Seq<EntityId>>)
        decreases fuel, 2nat, 0nat,
    {
        let h1 = h.push(cur);
        let f1 = f.insert(cur);
        let ns = self.neighbor_order(cur);
        let w = if ns.len() == 0 {
            (h1, f1, seq![h1])
        } else {
            self.visit_each(h1, f1, ns, fuel)
        };
        if w.0.len() > 0 {
            (w.0.drop_last(), w.1.remove(w.0.last()), w.2)
        } else {
            w
        }
    }

    /// The search state once `cur` is pushed onto the history, marked
    /// finished, and its neighbours taken in walk order (or the history
    /// reported, when it has none), before the visit ends.
    pub open spec fn walked(&self, h: Seq<EntityId>, f: Set<EntityId>, cur: EntityId, fuel: nat) -> (Seq<EntityId>, Set<EntityId>, Seq<Seq<EntityId>>) {
        if self.neighbor_order(cur).len() == 0 {
            (h.push(cur), f.insert(cur), seq![h.push(cur)])
        } else {
            self.visit_each(h.push(cur), f.insert(cur), self.neighbor_order(cur), fuel)
        }
    }

    /// Law: a visit ends by popping the top of the history its walk leaves
    /// and releasing exactly that node from the finished set (every other
    /// node keeps its state); with an empty history nothing is popped or
    /// released.
    pub proof fn lemma_visit_releases_the_popped_node(&self, h: Seq<EntityId>, f: Set<EntityId>, cur: EntityId, fuel: nat)
        ensures
            ({
                let w = self.walked(h, f, cur, fuel);
                let v = self.visit(h, f, cur, fuel);
                &&& v.2 == w.2
                &&& w.0.len() > 0 ==> v.0 == w.0.drop_last() && !v.1.contains(w.0.last())
                    && forall|x: EntityId| x != w.0.last() ==> (#[trigger] v.1.contains(x) <==> w.1.contains(x))
                &&& w.0.len() == 0 ==> v.0 == w.0 && v.1 == w.1
            }),
    {
    }

    /// The search state after taking the neighbours `ns` in order.
    pub open spec fn visit_each(&self, h: Seq<EntityId>, f: Set<EntityId>, ns: Seq<EntityId>, fuel: nat) -> (Seq<EntityId>, Set<EntityId>, Seq<Seq<EntityId>>)
        decreases fuel, 1nat, ns.len(),
    {
        if ns.len() == 0 {
            (h, f, Seq::empty())
        } else {
            let w = self.visit_each(h, f, ns.drop_last(), fuel);
            let v = self.visit_step(w.0, w.1, ns.last(), fuel);
            (v.0, v.1, w.2 + v.2)
        }
    }

    /// The search state after taking neighbour `n`: a node not finished is
    /// visited; for a finished one the history is reported and its top popped
    /// (the popped node stays finished). `fuel` bounds the depth.
    pub open spec fn visit_step(&self, h: Seq<EntityId>, f: Set<EntityId>, n: EntityId, fuel: nat) -> (Seq<EntityId>, Set<EntityId>, Seq<Seq<EntityId>>)
        decreases fuel, 0nat, 0nat,
    {
        if f.contains(n) {
            (if h.len() > 0 { h.drop_last() } else { h }, f, seq![h])
        } else if fuel == 0 {
            (h, f, Seq::empty())
        } else {
            self.visit(h, f, n, (fuel - 1) as nat)
        }
    }

    /// What `dfs(src)` returns: the paths reported by a search from `src`.
    pub open spec fn dfs_paths(&self, src: EntityId) -> Seq<Seq<EntityId>> {
        self.visit(Seq::empty(), Set::empty(), src, (self.search_universe(src).len() - 1) as nat).2
    }

    /// The search universe is finite, and holds every neighbour of every node.
    pub proof fn lemma_search_universe_finite(&self, src: EntityId)
        ensures
            self.search_universe(src).finite(),
            self.search_universe(src).contains(src),
            forall|a: EntityId, n: EntityId| #[trigger] self.neighbor_order(a).contains(n) ==> self.named_neighbors().contains(n),
    {
        let d = self.adjacency@.dom();
        let l = |a: EntityId| self.neighbor_order(a);
        assert(d.finite());
        lemma_union_of_lists_finite(d, l);
        let s = Set::new(|b: EntityId| exists|a: EntityId| d.contains(a) && #[trigger] l(a).contains(b));
        assert(self.named_neighbors() =~= s) by {
            assert forall|b: EntityId| self.named_neighbors().contains(b) implies s.contains(b) by {
                let a = choose|a: EntityId| #[trigger] self.neighbor_order(a).contains(b);
                if !d.contains(a) {
                    assert(self.neighbor_order(a) =~= Seq::<EntityId>::empty());
                }
                assert(l(a).contains(b));
            }
            assert forall|b: EntityId| s.contains(b) implies self.named_neighbors().contains(b) by {
                let a = choose|a: EntityId| d.contains(a) && #[trigger] l(a).contains(b);
                assert(self.neighbor_order(a).contains(b));
            }
        }
        assert forall|a: EntityId, n: EntityId| #[trigger] self.neighbor_order(a).contains(n) implies self.named_neighbors().contains(n) by {
        }
    }

    /// One step of the search: visits `current` on top of `history`.
    fn dfs_rec(
        &self,
        results: &mut Vec<Path>,
        finished: &mut HashSet<EntityId>,
        history: &mut Vec<EntityId>,
        current: EntityId,
        Ghost(u): Ghost<Set<EntityId>>,
        Ghost(fuel): Ghost<nat>,
    )
        requires
            u.finite(),
            self.named_neighbors().subset_of(u),
            u.contains(current),
            old(finished)@.subset_of(u),
            !old(finished)@.contains(current),
            fuel + old(finished)@.len() + 1 >= u.len(),
        ensures
            final(history)@ == self.visit(old(history)@, old(finished)@, current, fuel).0,
            final(finished)@ == self.visit(old(history)@, old(finished)@, current, fuel).1,
            paths_view(final(results)@) == paths_view(old(results)@) + self.visit(old(history)@, old(finished)@, current, fuel).2,
            final(finished)@.subset_of(u),
            final(finished)@.len() >= old(finished)@.len(),
            self.walked(old(history)@, old(finished)@, current, fuel).0.len() > 0 ==> {
                let w = self.walked(old(history)@, old(finished)@, current, fuel);
                &&& final(history)@ == w.0.drop_last()
                &&& final(finished)@ == w.1.remove(w.0.last())
            },
        decreases fuel,
    {
        let ghost h0 = history@;
        let ghost f0 = finished@;
        let ghost r0 = paths_view(results@);
        proof {
            vstd::set_lib::lemma_len_subset(f0, u);
        }
        finished.insert(current);
        history.push(current);
        let ghost h1 = history@;
        let ghost f1 = finished@;
        assert(f1.len() == f0.len() + 1);
        let neighbors = self.neighbors(current);
        if neighbors.len() == 0 {
            let snapshot = history.clone();
            assert(snapshot@ =~= h1);
            results.push(snapshot);
            assert(paths_view(results@) =~= r0 + seq![h1]);
        } else {
            let mut j: usize = 0;
            while j < neighbors.len()
                invariant
                    j <= neighbors.len(),
                    neighbors@ == self.neighbor_order(current),
                    h1 == h0.push(current),
                    f1 == f0.insert(current),
                    f1.len() == f0.len() + 1,
                    u.finite(),
                    self.named_neighbors().subset_of(u),
                    finished@.subset_of(u),
                    finished@.len() >= f0.len() + 1,
                    fuel + f0.len() + 1 >= u.len(),
                    history@ == self.visit_each(h1, f1, neighbors@.take(j as int), fuel).0,
                    finished@ == self.visit_each(h1, f1, neighbors@.take(j as int), fuel).1,
                    paths_view(results@) == r0 + self.visit_each(h1, f1, neighbors@.take(j as int), fuel).2,
                decreases neighbors.len() - j,
            {
                let neighbor = neighbors[j];
                let ghost hj = history@;
                let ghost fj = finished@;
                let ghost rj = paths_view(results@);
                assert(neighbors@.take(j + 1).drop_last() =~= neighbors@.take(j as int));
                assert(neighbors@.take(j + 1).last() == neighbor);
                assert(neighbors@.contains(neighbor));
                proof {
                    self.lemma_search_universe_finite(current);
                }
                assert(self.named_neighbors().contains(neighbor));
                let ghost w = self.visit_each(h1, f1, neighbors@.take(j as int), fuel);
                let ghost step = self.visit_step(hj, fj, neighbor, fuel);
                assert(self.visit_each(h1, f1, neighbors@.take(j + 1), fuel) == (step.0, step.1, w.2 + step.2));
                if !finished.contains(&neighbor) {
                    proof {
                        vstd::set_lib::lemma_len_subset(fj.insert(neighbor), u);
                    }
                    assert(fuel > 0);
                    assert(step == self.visit(hj, fj, neighbor, (fuel - 1) as nat));
                    self.dfs_rec(results, finished, history, neighbor, Ghost(u), Ghost((fuel - 1) as nat));
                    assert(paths_view(results@) =~= r0 + (w.2 + step.2));
                } else {
                    let snapshot = history.clone();
                    assert(snapshot@ =~= hj);
                    results.push(snapshot);
                    history.pop();
                    assert(paths_view(results@) =~= rj + seq![hj]);
                    assert(paths_view(results@) =~= r0 + (w.2 + step.2));
                }
                j = j + 1;
            }
            assert(neighbors@.take(neighbors@.len() as int) =~= neighbors@);
        }
        let ghost h2 = history@;
        let ghost f2 = finished@;
        proof {
            vstd::set_lib::lemma_len_subset(f2, u);
            assert(h2 == self.walked(h0, f0, current, fuel).0);
            assert(f2 == self.walked(h0, f0, current, fuel).1);
        }
        match history.pop() {
            Some(popped) => {
                finished.remove(&popped);
            },
            None => {},
        }
        assert(history@ =~= (if h2.len() > 0 { h2.drop_last() } else { h2 }));
    }

    /// The paths reported by a depth-first search from `src` (see `visit`).
    pub fn dfs(&self, src: EntityId) -> (paths: Vec<Path>)
        ensures
            paths_view(paths@) == self.dfs_paths(src),
    {
        let mut results: Vec<Path> = Vec::new();
        let mut finished: HashSet<EntityId> = HashSet::new();
        let mut history: Vec<EntityId> = Vec::new();
        let ghost u = self.search_universe(src);
        proof {
            self.lemma_search_universe_finite(src);
            assert(finished@ =~= Set::<EntityId>::empty());
            assert(history@ =~= Seq::<EntityId>::empty());
        }
        self.dfs_rec(&mut results, &mut finished, &mut history, src, Ghost(u), Ghost((u.len() - 1) as nat));
        assert(paths_view(results@) =~= self.dfs_paths(src));
        results
    }

    /// The identifiers of the edges at `src`, neighbour by neighbour in walk order.
    pub fn edges(&self, src: EntityId) -> (r: Vec<EntityId>)
        ensures
            r@ == (if self.adjacency@.contains_key(src) { all_lists(self.adjacency@[src]) } else { Seq::empty() }),
    {
        match self.adjacency.get(&src) {
            Some(adj_map) => all_lists_exec(adj_map),
            None => Vec::new(),
        }
    }
}

/// In a symmetric adjacency, adjacency does not depend on the order of the two nodes.
pub proof fn lemma_linked_symmetric(g: Graph, a: EntityId, b: EntityId)
    requires
        symmetric(g),
    ensures
        linked(g, a, b) == linked(g, b, a),
{
    if g.contains_key(a) && g[a].contains_key(b) {
        assert(g.contains_key(b) && g[b].contains_key(a));
    }
    if g.contains_key(b) && g[b].contains_key(a) {
        assert(g.contains_key(a) && g[a].contains_key(b));
    }
}

/// The empty adjacency is symmetric.
pub proof fn lemma_empty_symmetric()
    ensures
        symmetric(Graph::empty()),
{
}

/// Adding a node that is not there yet keeps the adjacency symmetric.
pub proof fn lemma_node_added_symmetric(g: Graph, n: EntityId)
    requires
        symmetric(g),
        !g.contains_key(n),
    ensures
        symmetric(g.insert(n, Map::empty())),
{
    let g1 = g.insert(n, Map::empty());
    assert forall|a: EntityId, b: EntityId| #[trigger] g1.contains_key(a) && #[trigger] g1[a].contains_key(b)
        implies g1.contains_key(b) && g1[b].contains_key(a) by {
        if a != n {
            assert(g.contains_key(a) && g[a].contains_key(b));
            if b == n {
                assert(g.contains_key(b));
            }
        }
    }
}

/// Recording an edge keeps the adjacency symmetric.
pub proof fn lemma_link_added_symmetric(g: Graph, id: EntityId, src: EntityId, tgt: EntityId)
    requires
        symmetric(g),
    ensures
        symmetric(link_added(g, id, src, tgt)),
{
    let g1 = link_added(g, id, src, tgt);
    assert forall|a: EntityId, b: EntityId| #[trigger] g1.contains_key(a) && #[trigger] g1[a].contains_key(b)
        implies g1.contains_key(b) && g1[b].contains_key(a) by {
        if (a == src && b == tgt) || (a == tgt && b == src) {
        } else if g.contains_key(a) && g[a].contains_key(b) {
            assert(g.contains_key(b) && g[b].contains_key(a));
        }
    }
}

/// Dropping the entries between two nodes, both ways, keeps the adjacency symmetric.
pub proof fn lemma_links_dropped_symmetric(g: Graph, src: EntityId, tgt: EntityId)
    requires
        symmetric(g),
    ensures
        symmetric(links_dropped(g, src, tgt)),
{
    let g1 = links_dropped(g, src, tgt);
    assert forall|a: EntityId, b: EntityId| #[trigger] g1.contains_key(a) && #[trigger] g1[a].contains_key(b)
        implies g1.contains_key(b) && g1[b].contains_key(a) by {
        assert(g.contains_key(a) && g[a].contains_key(b));
        assert(g.contains_key(b) && g[b].contains_key(a));
    }
}

/// Unlinking the nodes of each pair keeps the adjacency symmetric.
proof fn lemma_unlink_pairs_symmetric(g: Graph, pairs: Seq<(EntityId, EntityId)>)
    requires
        symmetric(g),
    ensures
        symmetric(unlink_pairs(g, pairs)),
    decreases pairs.len(),
{
    if pairs.len() > 0 {
        lemma_unlink_pairs_symmetric(g, pairs.drop_last());
        let p = pairs.last();
        lemma_links_dropped_symmetric(unlink_pairs(g, pairs.drop_last()), p.0, p.1);
    }
}

/// Removing an edge keeps the adjacency symmetric.
pub proof fn lemma_link_removed_symmetric(g: Graph, a: ArrowIndex, id: EntityId)
    requires
        symmetric(g),
    ensures
        symmetric(link_removed(g, a, id)),
{
    if a.contains_key(id) {
        lemma_unlink_pairs_symmetric(g, a[id]);
    }
}

/// After an edge is recorded between two nodes, they are adjacent, in either order.
pub proof fn lemma_link_added_links(g: Graph, id: EntityId, src: EntityId, tgt: EntityId)
    ensures
        linked(link_added(g, id, src, tgt), src, tgt),
        linked(link_added(g, id, src, tgt), tgt, src),
{
}

/// After the edges between two nodes are dropped, they are no longer adjacent
/// (unless they are the same node).
pub proof fn lemma_links_dropped_unlinks(g: Graph, src: EntityId, tgt: EntityId)
    requires
        src != tgt,
    ensures
        !linked(links_dropped(g, src, tgt), src, tgt),
        !linked(links_dropped(g, src, tgt), tgt, src),
{
}

} // verus!
