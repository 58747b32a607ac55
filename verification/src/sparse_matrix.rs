use std::collections::HashMap;
use std::collections::HashSet;
use vstd::prelude::*;

use crate::keys::{key_order, keys_of};
use crate::sparse_set::EntityId;
pub use crate::undirected_matrix::UndirectedAdjacencyMatrix;

verus! {

broadcast use vstd::std_specs::hash::group_hash_axioms;

/// Node -> (neighbour -> identifiers of the edges between them).
pub type SparseMatrixHashMap = HashMap<EntityId, HashMap<EntityId, Vec<EntityId>>>;

/// Edge identifier -> the (source, target) pairs recorded for it.
pub type SparseMatrixArrowIdentity = HashMap<EntityId, Vec<(EntityId, EntityId)>>;

/// A path through a matrix, as the sequence of nodes visited.
pub type Path = Vec<EntityId>;

/// The mathematical adjacency: node -> (neighbour -> edge identifiers).
pub type Graph = Map<EntityId, Map<EntityId, Seq<EntityId>>>;

/// The mathematical edge index: edge identifier -> recorded pairs.
pub type ArrowIndex = Map<EntityId, Seq<(EntityId, EntityId)>>;

/// A map of vectors, viewed as a map of sequences.
pub open spec fn lists_view<T>(m: HashMap<EntityId, Vec<T>>) -> Map<EntityId, Seq<T>> {
    m@.map_values(|l: Vec<T>| l@)
}

/// The adjacency of a matrix as a mathematical map.
pub open spec fn graph_view(m: SparseMatrixHashMap) -> Graph {
    m@.map_values(|inner: HashMap<EntityId, Vec<EntityId>>| lists_view(inner))
}

/// `g` with node `n` present (an empty neighbourhood is added when it is missing).
pub open spec fn with_node(g: Graph, n: EntityId) -> Graph {
    if g.contains_key(n) {
        g
    } else {
        g.insert(n, Map::empty())
    }
}

/// `m` with `v` appended to the list at `k` (a one-element list when there is none).
pub open spec fn push_entry<T>(m: Map<EntityId, Seq<T>>, k: EntityId, v: T) -> Map<EntityId, Seq<T>> {
    m.insert(k, if m.contains_key(k) { m[k].push(v) } else { seq![v] })
}

/// `l` with the first occurrence of `x` replaced by the last element and the
/// last element dropped (`l` itself when `x` does not occur).
pub open spec fn swap_remove_first(l: Seq<EntityId>, x: EntityId) -> Seq<EntityId> {
    match l.index_of_first(x) {
        Some(p) => l.update(p, l.last()).drop_last(),
        None => l,
    }
}

/// Inserting into a map of vectors inserts the view into its view.
proof fn lemma_lists_view_insert<T>(m: HashMap<EntityId, Vec<T>>, k: EntityId, l: Vec<T>, after: HashMap<EntityId, Vec<T>>)
    requires
        after@ == m@.insert(k, l),
    ensures
        lists_view(after) == lists_view(m).insert(k, l@),
{
    assert(lists_view(after) =~= lists_view(m).insert(k, l@));
}

/// Appends `v` to the list at `k`.
pub(crate) fn push_into<T>(m: &mut HashMap<EntityId, Vec<T>>, k: EntityId, v: T)
    ensures
        lists_view(*final(m)) == push_entry(lists_view(*old(m)), k, v),
{
    let ghost pre = *m;
    match m.remove(&k) {
        Some(mut l) => {
            let ghost l0 = l@;
            l.push(v);
            let ghost mid = *m;
            m.insert(k, l);
            proof {
                assert(mid@ == pre@.remove(k));
                assert(m@ == pre@.insert(k, l));
                lemma_lists_view_insert(pre, k, l, *m);
                assert(lists_view(pre)[k] == l0);
            }
        },
        None => {
            let l = vec![v];
            m.insert(k, l);
            proof {
                assert(m@ =~= pre@.insert(k, l));
                lemma_lists_view_insert(pre, k, l, *m);
                assert(l@ =~= seq![v]);
            }
        },
    }
}

/// `g` with the first occurrence of edge `id` swap-removed from every list of node `s`.
pub open spec fn strip_node(g: Graph, s: EntityId, id: EntityId) -> Graph {
    if g.contains_key(s) {
        g.insert(s, g[s].map_values(|l: Seq<EntityId>| swap_remove_first(l, id)))
    } else {
        g
    }
}

/// `g` after stripping edge `id` from the source of each recorded pair, in order.
pub open spec fn strip_arrow(g: Graph, pairs: Seq<(EntityId, EntityId)>, id: EntityId) -> Graph
    decreases pairs.len(),
{
    if pairs.len() == 0 {
        g
    } else {
        strip_node(strip_arrow(g, pairs.drop_last(), id), pairs.last().0, id)
    }
}

/// The lists of `m` at the keys `ks`, concatenated in order.
pub open spec fn concat_lists(ks: Seq<EntityId>, m: Map<EntityId, Seq<EntityId>>) -> Seq<EntityId>
    decreases ks.len(),
{
    if ks.len() == 0 {
        Seq::empty()
    } else {
        concat_lists(ks.drop_last(), m) + m[ks.last()]
    }
}

/// The position of the first occurrence of `x` in `l`.
fn position_of(l: &Vec<EntityId>, x: EntityId) -> (r: Option<usize>)
    ensures
        match l@.index_of_first(x) {
            Some(p) => r == Some(p as usize),
            None => r == None::<usize>,
        },
        r matches Some(i) ==> i < l@.len() && l@[i as int] == x,
{
    proof {
        l@.index_of_first_ensures(x);
    }
    let mut i: usize = 0;
    while i < l.len()
        invariant
            i <= l.len(),
            forall|j: int| 0 <= j < i ==> l@[j] != x,
            match l@.index_of_first(x) {
                Some(index) => {
                    &&& l@.contains(x)
                    &&& 0 <= index < l@.len()
                    &&& l@[index] == x
                    &&& forall|j: int| 0 <= j < index < l@.len() ==> l@[j] != x
                },
                None => !l@.contains(x),
            },
        decreases l.len() - i,
    {
        if l[i] == x {
            return Some(i);
        }
        i = i + 1;
    }
    None
}

/// Swap-removes the first occurrence of `x` from every list of `inner`.
fn strip_lists(inner: &mut HashMap<EntityId, Vec<EntityId>>, x: EntityId)
    ensures
        lists_view(*final(inner)) == lists_view(*old(inner)).map_values(
            |l: Seq<EntityId>| swap_remove_first(l, x),
        ),
{
    let ghost pre = lists_view(*inner);
    let ks = keys_of(inner);
    let mut j: usize = 0;
    while j < ks.len()
        invariant
            j <= ks.len(),
            ks@.no_duplicates(),
            ks@.to_set() == pre.dom(),
            lists_view(*inner).dom() == pre.dom(),
            forall|k: EntityId| #[trigger] pre.contains_key(k) ==> lists_view(*inner)[k] == (
                if ks@.take(j as int).contains(k) { swap_remove_first(pre[k], x) } else { pre[k] }),
        decreases ks.len() - j,
    {
        let k = ks[j];
        assert(ks@.to_set().contains(k));
        let ghost before = *inner;
        let mut l = inner.remove(&k).unwrap();
        assert(!ks@.take(j as int).contains(k));
        assert(l@ == pre[k]);
        proof {
            l@.index_of_first_ensures(x);
        }
        match position_of(&l, x) {
            Some(p) => {
                l.swap_remove(p);
            },
            None => {},
        }
        assert(l@ == swap_remove_first(pre[k], x));
        inner.insert(k, l);
        proof {
            assert(inner@ =~= before@.insert(k, l));
            lemma_lists_view_insert(before, k, l, *inner);
            assert forall|k2: EntityId| #[trigger] pre.contains_key(k2) implies lists_view(*inner)[k2] == (
                if ks@.take(j + 1).contains(k2) { swap_remove_first(pre[k2], x) } else { pre[k2] }) by {
                assert(ks@.take(j + 1) =~= ks@.take(j as int).push(k));
                if k2 != k {
                    assert(lists_view(*inner)[k2] == lists_view(before)[k2]);
                    if ks@.take(j as int).contains(k2) {
                        let q = choose|q: int| 0 <= q < j && #[trigger] ks@.take(j as int)[q] == k2;
                        assert(ks@.take(j + 1)[q] == k2);
                    }
                    if ks@.take(j + 1).contains(k2) {
                        let q = choose|q: int| 0 <= q < j + 1 && #[trigger] ks@.take(j + 1)[q] == k2;
                        assert(q < j);
                        assert(ks@.take(j as int)[q] == k2);
                    }
                } else {
                    assert(ks@.take(j + 1)[j as int] == k);
                }
            }
        }
        j = j + 1;
    }
    proof {
        assert(ks@.take(ks@.len() as int) =~= ks@);
        assert(lists_view(*inner) =~= pre.map_values(|l: Seq<EntityId>| swap_remove_first(l, x)));
    }
}

/// Swap-removes the first occurrence of edge `id` from every list of node `s`.
fn strip_node_exec(adjacency: &mut SparseMatrixHashMap, s: EntityId, id: EntityId)
    ensures
        graph_view(*final(adjacency)) == strip_node(graph_view(*old(adjacency)), s, id),
{
    let ghost pre = *adjacency;
    match adjacency.remove(&s) {
        Some(mut inner) => {
            assert(lists_view(inner) == graph_view(pre)[s]);
            strip_lists(&mut inner, id);
            adjacency.insert(s, inner);
            assert(adjacency@ =~= pre@.insert(s, inner));
            assert(graph_view(*adjacency) =~= strip_node(graph_view(pre), s, id));
        },
        None => {
            assert(adjacency@ =~= pre@);
            assert(graph_view(*adjacency) =~= graph_view(pre));
        },
    }
}

/// The keys of `m` whose lists are not empty.
pub open spec fn has_edges(m: HashMap<EntityId, Vec<EntityId>>) -> spec_fn(EntityId) -> bool {
    |k: EntityId| lists_view(m)[k].len() > 0
}

/// The keys of `m` whose lists are not empty, in walk order.
pub open spec fn nonempty_keys(m: HashMap<EntityId, Vec<EntityId>>) -> Seq<EntityId> {
    key_order(&m).filter(has_edges(m))
}

/// The lists of `m`, concatenated in walk order.
pub open spec fn all_lists(m: HashMap<EntityId, Vec<EntityId>>) -> Seq<EntityId> {
    concat_lists(key_order(&m), lists_view(m))
}

/// The keys of `m` whose lists are not empty.
fn nonempty_keys_exec(m: &HashMap<EntityId, Vec<EntityId>>) -> (r: Vec<EntityId>)
    ensures
        r@ == nonempty_keys(*m),
{
    let ks = keys_of(m);
    let mut r: Vec<EntityId> = Vec::new();
    let mut j: usize = 0;
    while j < ks.len()
        invariant
            j <= ks.len(),
            ks@ == key_order(m),
            ks@.to_set() == m@.dom(),
            r@ == ks@.take(j as int).filter(has_edges(*m)),
        decreases ks.len() - j,
    {
        let k = ks[j];
        assert(ks@.to_set().contains(k));
        let l = m.get(&k).unwrap();
        assert(ks@.take(j + 1).drop_last() =~= ks@.take(j as int));
        assert(lists_view(*m)[k] == l@);
        assert(has_edges(*m)(k) == (l@.len() > 0));
        assert(ks@.take(j + 1).last() == k);
        let ghost p = has_edges(*m);
        proof {
            assert(ks@.take(j + 1) =~= ks@.take(j as int).push(k));
            ks@.take(j as int).lemma_filter_push(k, p);
        }
        if l.len() > 0 {
            r.push(k);
        }
        j = j + 1;
    }
    assert(ks@.take(ks@.len() as int) =~= ks@);
    r
}

/// The lists of `m`, concatenated.
pub(crate) fn all_lists_exec(m: &HashMap<EntityId, Vec<EntityId>>) -> (r: Vec<EntityId>)
    ensures
        r@ == all_lists(*m),
{
    let ks = keys_of(m);
    let mut r: Vec<EntityId> = Vec::new();
    let mut j: usize = 0;
    while j < ks.len()
        invariant
            j <= ks.len(),
            ks@ == key_order(m),
            ks@.to_set() == m@.dom(),
            r@ == concat_lists(ks@.take(j as int), lists_view(*m)),
        decreases ks.len() - j,
    {
        let k = ks[j];
        assert(ks@.to_set().contains(k));
        let l = m.get(&k).unwrap();
        assert(ks@.take(j + 1).drop_last() =~= ks@.take(j as int));
        let mut i: usize = 0;
        let ghost r0 = r@;
        while i < l.len()
            invariant
                i <= l.len(),
                r@ == r0 + l@.take(i as int),
            decreases l.len() - i,
        {
            r.push(l[i]);
            assert(l@.take(i + 1) =~= l@.take(i as int).push(l@[i as int]));
            i = i + 1;
        }
        assert(l@.take(l@.len() as int) =~= l@);
        j = j + 1;
    }
    assert(ks@.take(ks@.len() as int) =~= ks@);
    r
}

/// The directed adjacency after recording edge `id` from `src` to `tgt`.
pub open spec fn edge_added(g: Graph, id: EntityId, src: EntityId, tgt: EntityId) -> Graph {
    let g1 = with_node(with_node(g, src), tgt);
    g1.insert(src, push_entry(g1[src], tgt, id))
}

/// The directed adjacency after removing edge `id` (given the edge index `a`).
pub open spec fn edge_removed(g: Graph, a: ArrowIndex, id: EntityId) -> Graph {
    if a.contains_key(id) {
        strip_arrow(g, a[id], id)
    } else {
        g
    }
}

/// The directed adjacency after dropping every edge from `src` to `tgt`.
pub open spec fn edges_dropped(g: Graph, src: EntityId, tgt: EntityId) -> Graph {
    if g.contains_key(src) {
        g.insert(src, g[src].remove(tgt))
    } else {
        g
    }
}

/// The edge index after dropping every edge from `src` to `tgt`.
pub open spec fn arrows_dropped(g: Graph, a: ArrowIndex, src: EntityId, tgt: EntityId) -> ArrowIndex {
    if g.contains_key(src) && g[src].contains_key(tgt) {
        a.remove_keys(g[src][tgt].to_set())
    } else {
        a
    }
}

/// A vector of paths viewed as a sequence of node sequences.
pub open spec fn paths_view(v: Seq<Path>) -> Seq<Seq<EntityId>> {
    v.map_values(|p: Path| p@)
}

/// The operations every matrix offers.
pub trait Matrix {
    fn is_empty(&self) -> bool;

    fn add_node(&mut self, node: EntityId);

    fn add_edge(&mut self, id: EntityId, src: EntityId, tgt: EntityId);

    fn remove_edge(&mut self, id: EntityId);

    fn remove_edges(&mut self, src: EntityId, tgt: EntityId);

    fn check_edge(&self, src: EntityId, tgt: EntityId) -> bool;

    fn get_all_nodes(&self) -> Vec<EntityId>;

    fn get_all_edges(&self) -> Vec<EntityId>;
}

/// Removes every key listed in `ks` from `m`.
pub(crate) fn remove_all_keys<T>(m: &mut HashMap<EntityId, Vec<T>>, ks: &Vec<EntityId>)
    ensures
        lists_view(*final(m)) == lists_view(*old(m)).remove_keys(ks@.to_set()),
{
    let ghost pre = lists_view(*m);
    let mut j: usize = 0;
    while j < ks.len()
        invariant
            j <= ks.len(),
            lists_view(*m) == pre.remove_keys(ks@.take(j as int).to_set()),
        decreases ks.len() - j,
    {
        let ghost before = *m;
        m.remove(&ks[j]);
        assert(ks@.take(j + 1) =~= ks@.take(j as int).push(ks@[j as int]));
        proof {
            ks@.take(j as int).lemma_push_to_set_commute(ks@[j as int]);
        }
        assert(m@ == before@.remove(ks@[j as int]));
        assert(lists_view(*m) =~= lists_view(before).remove(ks@[j as int]));
        assert(lists_view(*m) =~= pre.remove_keys(ks@.take(j + 1).to_set()));
        j = j + 1;
    }
    assert(ks@.take(ks@.len() as int) =~= ks@);
}

/// Appends edge `id` to the list from `a` to `b`, where node `a` is present.
pub(crate) fn link_once(adjacency: &mut SparseMatrixHashMap, id: EntityId, a: EntityId, b: EntityId)
    requires
        graph_view(*old(adjacency)).contains_key(a),
    ensures
        graph_view(*final(adjacency)) == graph_view(*old(adjacency)).insert(
            a,
            push_entry(graph_view(*old(adjacency))[a], b, id),
        ),
{
    let ghost g = graph_view(*adjacency);
    let ghost pre = *adjacency;
    let mut inner = adjacency.remove(&a).unwrap();
    assert(lists_view(inner) == g[a]);
    push_into(&mut inner, b, id);
    adjacency.insert(a, inner);
    assert(adjacency@ == pre@.insert(a, inner));
    assert(graph_view(*adjacency) =~= g.insert(a, push_entry(g[a], b, id)));
}

/// Drops the entry from `src` to `tgt`, and the edges it listed from the edge index.
pub(crate) fn drop_edges(
    adjacency: &mut SparseMatrixHashMap,
    edges: &mut SparseMatrixArrowIdentity,
    src: EntityId,
    tgt: EntityId,
)
    ensures
        graph_view(*final(adjacency)) == edges_dropped(graph_view(*old(adjacency)), src, tgt),
        lists_view(*final(edges)) == arrows_dropped(
            graph_view(*old(adjacency)),
            lists_view(*old(edges)),
            src,
            tgt,
        ),
{
    let ghost g0 = graph_view(*adjacency);
    let ghost a0 = lists_view(*edges);
    let ghost pre = *adjacency;
    match adjacency.remove(&src) {
        Some(mut kv) => {
            match kv.get(&tgt) {
                Some(ids) => {
                    let ghost all = ids@;
                    remove_all_keys(edges, ids);
                    assert(lists_view(*edges) =~= a0.remove_keys(all.to_set()));
                },
                None => {},
            }
            let ghost kv0 = kv;
            kv.remove(&tgt);
            assert(lists_view(kv) =~= lists_view(kv0).remove(tgt));
            adjacency.insert(src, kv);
            assert(adjacency@ =~= pre@.insert(src, kv));
            assert(graph_view(*adjacency) =~= g0.insert(src, g0[src].remove(tgt)));
        },
        None => {
            assert(adjacency@ =~= pre@);
            assert(graph_view(*adjacency) =~= g0);
        },
    }
}

/// A directed adjacency matrix.
#[derive(Debug, Clone)]
pub struct AdjacencyMatrix {
    pub adjacency: SparseMatrixHashMap,
    pub edges: SparseMatrixArrowIdentity,
}

impl AdjacencyMatrix {
    pub open spec fn graph(&self) -> Graph {
        graph_view(self.adjacency)
    }

    pub open spec fn arrows(&self) -> ArrowIndex {
        lists_view(self.edges)
    }

    /// An empty matrix.
    pub fn new() -> (m: Self)
        ensures
            m.graph() == Graph::empty(),
            m.arrows() == ArrowIndex::empty(),
    {
        let m = AdjacencyMatrix { adjacency: HashMap::new(), edges: HashMap::new() };
        assert(m.graph() =~= Graph::empty());
        assert(m.arrows() =~= ArrowIndex::empty());
        m
    }
}

impl AdjacencyMatrix {
    /// The neighbours of `v` along at least one edge, in walk order.
    pub open spec fn neighbor_order(&self, v: EntityId) -> Seq<EntityId> {
        if self.adjacency@.contains_key(v) {
            nonempty_keys(self.adjacency@[v])
        } else {
            Seq::empty()
        }
    }

    /// The nodes that are neighbours of some node of `d`.
    pub open spec fn neighbors_of_set(&self, d: Set<EntityId>) -> Set<EntityId> {
        Set::new(|b: EntityId| exists|a: EntityId| d.contains(a) && #[trigger] self.neighbor_order(a).contains(b))
    }

    /// The nodes that are a neighbour of some node.
    pub open spec fn named_neighbors(&self) -> Set<EntityId> {
        self.neighbors_of_set(self.adjacency@.dom())
    }

    /// Every node a search from `src` can meet.
    pub open spec fn search_universe(&self, src: EntityId) -> Set<EntityId> {
        self.named_neighbors().insert(src)
    }

    /// The neighbours of the nodes of a finite set form a finite set.
    proof fn lemma_neighbors_of_set_finite(&self, d: Set<EntityId>)
        requires
            d.finite(),
        ensures
            self.neighbors_of_set(d).finite(),
        decreases d.len(),
    {
        if d.len() == 0 {
            assert(self.neighbors_of_set(d) =~= Set::<EntityId>::empty()) by {
                assert forall|b: EntityId| !self.neighbors_of_set(d).contains(b) by {
                    if self.neighbors_of_set(d).contains(b) {
                        let a = choose|a: EntityId| d.contains(a) && #[trigger] self.neighbor_order(a).contains(b);
                        assert(d.contains(a));
                    }
                }
            }
        } else {
            let a = d.choose();
            let rest = d.remove(a);
            self.lemma_neighbors_of_set_finite(rest);
            assert(self.neighbors_of_set(d) =~= self.neighbors_of_set(rest).union(self.neighbor_order(a).to_set())) by {
                assert forall|b: EntityId| self.neighbors_of_set(d).contains(b) implies
                    self.neighbors_of_set(rest).union(self.neighbor_order(a).to_set()).contains(b) by {
                    let a2 = choose|a2: EntityId| d.contains(a2) && #[trigger] self.neighbor_order(a2).contains(b);
                    if a2 != a {
                        assert(rest.contains(a2));
                    }
                }
                assert forall|b: EntityId| self.neighbors_of_set(rest).union(self.neighbor_order(a).to_set()).contains(b) implies
                    self.neighbors_of_set(d).contains(b) by {
                    if self.neighbors_of_set(rest).contains(b) {
                        let a2 = choose|a2: EntityId| rest.contains(a2) && #[trigger] self.neighbor_order(a2).contains(b);
                        assert(d.contains(a2));
                    } else {
                        assert(d.contains(a));
                    }
                }
            }
        }
    }

    /// The search universe is finite.
    pub proof fn lemma_search_universe_finite(&self, src: EntityId)
        ensures
            self.search_universe(src).finite(),
            self.search_universe(src).contains(src),
            forall|a: EntityId, n: EntityId| #[trigger] self.neighbor_order(a).contains(n) ==> self.named_neighbors().contains(n),
    {
        self.lemma_neighbors_of_set_finite(self.adjacency@.dom());
        assert forall|a: EntityId, n: EntityId| #[trigger] self.neighbor_order(a).contains(n) implies self.named_neighbors().contains(n) by {
            assert(self.adjacency@.dom().contains(a));
        }
    }

    /// The maximal simple paths extending `h`: a path stops at a node with no
    /// neighbours, or when it steps back onto a node it already holds (that
    /// node is appended). Neighbours are taken in walk order; `fuel` bounds
    /// the depth.
    pub open spec fn paths_from(&self, h: Seq<EntityId>, fuel: nat) -> Seq<Seq<EntityId>>
        decreases fuel, 2nat, 0nat,
    {
        let ns = self.neighbor_order(h.last());
        if ns.len() == 0 {
            seq![h]
        } else {
            self.paths_through(h, ns, fuel)
        }
    }

    /// The paths `paths_from` produces through the neighbours `ns` of `h.last()`.
    pub open spec fn paths_through(&self, h: Seq<EntityId>, ns: Seq<EntityId>, fuel: nat) -> Seq<Seq<EntityId>>
        decreases fuel, 1nat, ns.len(),
    {
        if ns.len() == 0 {
            Seq::empty()
        } else {
            self.paths_through(h, ns.drop_last(), fuel) + self.branch(h, ns.last(), fuel)
        }
    }

    /// The paths `paths_from` produces through neighbour `n` of `h.last()`: the
    /// closed path `h + [n]` when `n` is on `h`, else the paths extending `h + [n]`.
    pub open spec fn branch(&self, h: Seq<EntityId>, n: EntityId, fuel: nat) -> Seq<Seq<EntityId>>
        decreases fuel, 0nat, 0nat,
    {
        if h.contains(n) {
            seq![h.push(n)]
        } else if fuel == 0 {
            Seq::empty()
        } else {
            self.paths_from(h.push(n), (fuel - 1) as nat)
        }
    }

    /// What `dfs(src)` returns: the maximal simple paths from `src`.
    pub open spec fn dfs_paths(&self, src: EntityId) -> Seq<Seq<EntityId>> {
        self.paths_from(seq![src], (self.search_universe(src).len() - 1) as nat)
    }

    pub fn are_adjacent(&self, src: EntityId, tgt: EntityId) -> (b: bool)
        ensures
            b == (src == tgt || (self.graph().contains_key(src) && self.graph()[src].contains_key(tgt))),
    {
        self.check_edge(src, tgt)
    }

    fn neighbor_count(&self, src: EntityId) -> (n: usize)
        ensures
            n == (if self.graph().contains_key(src) { self.graph()[src].dom().len() } else { 0 }),
    {
        match self.adjacency.get(&src) {
            Some(adj_set) => {
                assert(lists_view(*adj_set).dom() =~= adj_set@.dom());
                adj_set.len()
            },
            None => 0,
        }
    }

    fn neighbors(&self, src: EntityId) -> (r: Vec<EntityId>)
        ensures
            r@ == self.neighbor_order(src),
    {
        match self.adjacency.get(&src) {
            Some(adj_map) => nonempty_keys_exec(adj_map),
            None => Vec::new(),
        }
    }

    fn edges(&self, src: EntityId) -> (r: Vec<EntityId>)
        ensures
            r@ == (if self.adjacency@.contains_key(src) { all_lists(self.adjacency@[src]) } else { Seq::empty() }),
    {
        match self.adjacency.get(&src) {
            Some(adj_map) => all_lists_exec(adj_map),
            None => Vec::new(),
        }
    }

    /// One step of the search: visits `current` on top of `history`.
    fn dfs_rec(
        &self,
        results: &mut Vec<Path>,
        finished: &mut HashSet<EntityId>,
        history: &mut Vec<EntityId>,
        current: EntityId,
        Ghost(u): Ghost<Set<EntityId>>,
        Ghost(fuel): Ghost<nat>,
    )
        requires
            u.finite(),
            self.named_neighbors().subset_of(u),
            u.contains(current),
            forall|i: int| 0 <= i < old(history)@.len() ==> u.contains(#[trigger] old(history)@[i]),
            old(history)@.no_duplicates(),
            !old(history)@.contains(current),
            old(finished)@ == old(history)@.to_set(),
            old(history)@.len() + 1 + fuel == u.len(),
        ensures
            final(history)@ == old(history)@,
            final(finished)@ == old(finished)@,
            paths_view(final(results)@) == paths_view(old(results)@) + self.paths_from(old(history)@.push(current), fuel),
        decreases fuel,
    {
        let ghost h0 = history@;
        let ghost r0 = paths_view(results@);
        finished.insert(current);
        history.push(current);
        let ghost h = history@;
        proof {
            h0.lemma_push_to_set_commute(current);
            assert forall|i: int, j: int| 0 <= i < h.len() && 0 <= j < h.len() && i != j implies h[i] != h[j] by {
                if i < h0.len() && j < h0.len() {
                } else if i < h0.len() {
                    assert(h0.contains(h[i]));
                } else {
                    assert(h0.contains(h[j]));
                }
            }
        }
        let neighbors = self.neighbors(current);
        if neighbors.len() == 0 {
            let snapshot = history.clone();
            assert(snapshot@ =~= h);
            results.push(snapshot);
            assert(paths_view(results@) =~= r0 + seq![h]);
        } else {
            let mut j: usize = 0;
            while j < neighbors.len()
                invariant
                    j <= neighbors.len(),
                    neighbors@ == self.neighbor_order(current),
                    h == h0.push(current),
                    h.no_duplicates(),
                    history@ == h,
                    finished@ == h.to_set(),
                    u.finite(),
                    self.named_neighbors().subset_of(u),
                    forall|i: int| 0 <= i < h.len() ==> u.contains(#[trigger] h[i]),
                    h.len() + fuel == u.len(),
                    paths_view(results@) == r0 + self.paths_through(h, neighbors@.take(j as int), fuel),
                decreases neighbors.len() - j,
            {
                let neighbor = neighbors[j];
                let ghost rj = paths_view(results@);
                assert(neighbors@.take(j + 1).drop_last() =~= neighbors@.take(j as int));
                assert(neighbors@.take(j + 1).last() == neighbor);
                assert(neighbors@.contains(neighbor));
                assert(self.named_neighbors().contains(neighbor));
                assert(self.paths_through(h, neighbors@.take(j + 1), fuel)
                    == self.paths_through(h, neighbors@.take(j as int), fuel) + self.branch(h, neighbor, fuel));
                if !finished.contains(&neighbor) {
                    assert(!h.contains(neighbor));
                    proof {
                        let hn = h.push(neighbor);
                        assert forall|i: int, k: int| 0 <= i < hn.len() && 0 <= k < hn.len() && i != k implies hn[i] != hn[k] by {
                            if i < h.len() && k < h.len() {
                            } else if i < h.len() {
                                assert(h.contains(hn[i]));
                            } else {
                                assert(h.contains(hn[k]));
                            }
                        }
                        hn.unique_seq_to_set();
                        assert(hn.to_set().subset_of(u)) by {
                            assert forall|x: EntityId| hn.to_set().contains(x) implies u.contains(x) by {
                                let i = choose|i: int| 0 <= i < hn.len() && hn[i] == x;
                                if i < h.len() {
                                    assert(u.contains(h[i]));
                                }
                            }
                        }
                        vstd::set_lib::lemma_len_subset(hn.to_set(), u);
                    }
                    self.dfs_rec(results, finished, history, neighbor, Ghost(u), Ghost((fuel - 1) as nat));
                    assert(paths_view(results@) =~= r0 + self.paths_through(h, neighbors@.take(j + 1), fuel));
                } else {
                    assert(h.contains(neighbor));
                    history.push(neighbor);
                    let snapshot = history.clone();
                    assert(snapshot@ =~= h.push(neighbor));
                    results.push(snapshot);
                    history.pop();
                    assert(history@ =~= h);
                    assert(paths_view(results@) =~= rj + seq![h.push(neighbor)]);
                    assert(paths_view(results@) =~= r0 + self.paths_through(h, neighbors@.take(j + 1), fuel));
                }
                j = j + 1;
            }
            assert(neighbors@.take(neighbors@.len() as int) =~= neighbors@);
        }
        history.pop();
        finished.remove(&current);
        proof {
            assert(history@ =~= h0);
            assert(!h0.to_set().contains(current));
            assert(finished@ =~= h0.to_set());
        }
    }

    /// The maximal simple paths from `src` (see `paths_from`).
    pub fn dfs(&self, src: EntityId) -> (paths: Vec<Path>)
        ensures
            paths_view(paths@) == self.dfs_paths(src),
    {
        let mut results: Vec<Path> = Vec::new();
        let mut finished: HashSet<EntityId> = HashSet::new();
        let mut history: Vec<EntityId> = Vec::new();
        let ghost u = self.search_universe(src);
        proof {
            self.lemma_search_universe_finite(src);
            assert(finished@ =~= history@.to_set());
        }
        self.dfs_rec(&mut results, &mut finished, &mut history, src, Ghost(u), Ghost((u.len() - 1) as nat));
        assert(paths_view(results@) =~= self.dfs_paths(src));
        results
    }
}

impl Default for AdjacencyMatrix {
    fn default() -> (m: Self)
        ensures
            m.graph() == Graph::empty(),
            m.arrows() == ArrowIndex::empty(),
    {
        AdjacencyMatrix::new()
    }
}

impl Matrix for AdjacencyMatrix {
    fn is_empty(&self) -> (b: bool)
        ensures
            b == (self.graph().dom() == Set::<EntityId>::empty()),
    {
        let b = self.adjacency.is_empty();
        assert(self.graph().dom() =~= self.adjacency@.dom());
        b
    }

    fn add_node(&mut self, node: EntityId)
        ensures
            final(self).graph() == old(self).graph().insert(node, Map::empty()),
            final(self).arrows() == old(self).arrows(),
    {
        let ghost pre = self.graph();
        let e: HashMap<EntityId, Vec<EntityId>> = HashMap::new();
        assert(lists_view(e) =~= Map::empty());
        self.adjacency.insert(node, e);
        assert(self.graph() =~= pre.insert(node, Map::empty()));
    }

    fn add_edge(&mut self, id: EntityId, src: EntityId, tgt: EntityId)
        ensures
            final(self).graph() == edge_added(old(self).graph(), id, src, tgt),
            final(self).arrows() == push_entry(old(self).arrows(), id, (src, tgt)),
    {
        if !self.adjacency.contains_key(&src) {
            self.add_node(src);
        }
        if !self.adjacency.contains_key(&tgt) {
            self.add_node(tgt);
        }
        link_once(&mut self.adjacency, id, src, tgt);
        push_into(&mut self.edges, id, (src, tgt));
    }

    fn remove_edge(&mut self, id: EntityId)
        ensures
            final(self).graph() == edge_removed(old(self).graph(), old(self).arrows(), id),
            final(self).arrows() == old(self).arrows().remove(id),
    {
        let ghost g0 = self.graph();
        match self.edges.get(&id) {
            Some(pairs) => {
                let mut j: usize = 0;
                while j < pairs.len()
                    invariant
                        j <= pairs.len(),
                        self.edges@ == old(self).edges@,
                        old(self).graph() == g0,
                        graph_view(self.adjacency) == strip_arrow(g0, pairs@.take(j as int), id),
                    decreases pairs.len() - j,
                {
                    let (src, _) = pairs[j];
                    strip_node_exec(&mut self.adjacency, src, id);
                    assert(pairs@.take(j + 1).drop_last() =~= pairs@.take(j as int));
                    j = j + 1;
                }
                assert(pairs@.take(pairs@.len() as int) =~= pairs@);
            },
            None => {
                assert(strip_arrow(g0, Seq::<(EntityId, EntityId)>::empty(), id) == g0);
            },
        }
        let ghost e0 = self.edges;
        self.edges.remove(&id);
        assert(self.edges@ == e0@.remove(id));
        assert(self.arrows() =~= lists_view(e0).remove(id));
    }

    fn remove_edges(&mut self, src: EntityId, tgt: EntityId)
        ensures
            final(self).graph() == edges_dropped(old(self).graph(), src, tgt),
            final(self).arrows() == arrows_dropped(old(self).graph(), old(self).arrows(), src, tgt),
    {
        drop_edges(&mut self.adjacency, &mut self.edges, src, tgt);
    }

    fn check_edge(&self, src: EntityId, tgt: EntityId) -> (b: bool)
        ensures
            b == (src == tgt || (self.graph().contains_key(src) && self.graph()[src].contains_key(tgt))),
    {
        if src == tgt {
            return true;
        }
        match self.adjacency.get(&src) {
            Some(adj_map) => adj_map.contains_key(&tgt),
            None => false,
        }
    }

    fn get_all_nodes(&self) -> (r: Vec<EntityId>)
        ensures
            r@ == key_order(&self.adjacency),
            r@.no_duplicates(),
            r@.to_set() == self.graph().dom(),
    {
        keys_of(&self.adjacency)
    }

    fn get_all_edges(&self) -> (r: Vec<EntityId>)
        ensures
            r@ == key_order(&self.edges),
            r@.no_duplicates(),
            r@.to_set() == self.arrows().dom(),
    {
        keys_of(&self.edges)
    }
}

/// A directed matrix that also keeps the reversed edges, for backward queries.
#[derive(Debug, Clone)]
pub struct BidirectionalMatrix {
    pub forward: AdjacencyMatrix,
    pub backward: AdjacencyMatrix,
}

/// Some path of `paths` passes through `tgt`.
pub open spec fn some_path_meets(paths: Seq<Seq<EntityId>>, tgt: EntityId) -> bool {
    exists|i: int, j: int| 0 <= i < paths.len() && 0 <= j < paths[i].len() && #[trigger] paths[i][j] == tgt
}

/// Whether some path of `paths` passes through `tgt`.
fn paths_meet(paths: &Vec<Path>, tgt: EntityId) -> (b: bool)
    ensures
        b == some_path_meets(paths_view(paths@), tgt),
{
    let mut i: usize = 0;
    while i < paths.len()
        invariant
            i <= paths.len(),
            forall|a: int, b: int| 0 <= a < i && 0 <= b < paths@[a]@.len() ==> paths@[a]@[b] != tgt,
        decreases paths.len() - i,
    {
        let p = &paths[i];
        let mut j: usize = 0;
        while j < p.len()
            invariant
                j <= p.len(),
                i < paths.len(),
                *p == paths@[i as int],
                forall|b: int| 0 <= b < j ==> p@[b] != tgt,
            decreases p.len() - j,
        {
            if p[j] == tgt {
                assert(paths_view(paths@)[i as int][j as int] == tgt);
                return true;
            }
            j = j + 1;
        }
        i = i + 1;
    }
    proof {
        if some_path_meets(paths_view(paths@), tgt) {
            let (a, b) = choose|a: int, b: int| 0 <= a < paths_view(paths@).len() && 0 <= b < paths_view(paths@)[a].len() && #[trigger] paths_view(paths@)[a][b] == tgt;
            assert(paths@[a]@[b] == tgt);
        }
    }
    false
}

impl BidirectionalMatrix {
    /// An empty matrix.
    pub fn new() -> (m: Self)
        ensures
            m.forward.graph() == Graph::empty(),
            m.forward.arrows() == ArrowIndex::empty(),
            m.backward.graph() == Graph::empty(),
            m.backward.arrows() == ArrowIndex::empty(),
    {
        BidirectionalMatrix { forward: AdjacencyMatrix::new(), backward: AdjacencyMatrix::new() }
    }

    /// The number of nodes `src` has an entry for in the forward adjacency.
    pub fn out_degree(&self, src: EntityId) -> (n: usize)
        ensures
            n == (if self.forward.graph().contains_key(src) { self.forward.graph()[src].dom().len() } else { 0 }),
    {
        self.forward.neighbor_count(src)
    }

    /// The number of nodes `src` has an entry for in the backward adjacency.
    pub fn in_degree(&self, src: EntityId) -> (n: usize)
        ensures
            n == (if self.backward.graph().contains_key(src) { self.backward.graph()[src].dom().len() } else { 0 }),
    {
        self.backward.neighbor_count(src)
    }

    pub fn are_adjacent(&self, src: EntityId, tgt: EntityId) -> (b: bool)
        ensures
            b == (src == tgt || (self.forward.graph().contains_key(src) && self.forward.graph()[src].contains_key(tgt))),
    {
        self.check_edge(src, tgt)
    }

    pub fn get_front_neighbors(&self, src: EntityId) -> (r: Vec<EntityId>)
        ensures
            r@ == self.forward.neighbor_order(src),
    {
        self.forward.neighbors(src)
    }

    pub fn get_back_neighbors(&self, src: EntityId) -> (r: Vec<EntityId>)
        ensures
            r@ == self.backward.neighbor_order(src),
    {
        self.backward.neighbors(src)
    }

    pub fn reach_forward(&self, src: EntityId) -> (paths: Vec<Path>)
        ensures
            paths_view(paths@) == self.forward.dfs_paths(src),
    {
        self.forward.dfs(src)
    }

    pub fn reach_backward(&self, src: EntityId) -> (paths: Vec<Path>)
        ensures
            paths_view(paths@) == self.backward.dfs_paths(src),
    {
        self.backward.dfs(src)
    }

    pub fn reach_forward_until(&self, src: EntityId, tgt: EntityId) -> (b: bool)
        ensures
            b == some_path_meets(self.forward.dfs_paths(src), tgt),
            b == self.forward.reachable(src, tgt),
    {
        let reach = self.reach_forward(src);
        proof {
            self.forward.lemma_dfs_meets_reachable(src, tgt);
        }
        paths_meet(&reach, tgt)
    }

    pub fn reach_backward_until(&self, src: EntityId, tgt: EntityId) -> (b: bool)
        ensures
            b == some_path_meets(self.backward.dfs_paths(src), tgt),
            b == self.backward.reachable(src, tgt),
    {
        let reach = self.reach_backward(src);
        proof {
            self.backward.lemma_dfs_meets_reachable(src, tgt);
        }
        paths_meet(&reach, tgt)
    }

    pub fn are_reachable(&self, src: EntityId, tgt: EntityId) -> (b: bool)
        ensures
            b == self.forward.reachable(src, tgt),
    {
        self.reach_forward_until(src, tgt)
    }

    pub fn edges_from(&self, src: EntityId) -> (r: Vec<EntityId>)
        ensures
            r@ == (if self.forward.adjacency@.contains_key(src) { all_lists(self.forward.adjacency@[src]) } else { Seq::empty() }),
    {
        self.forward.edges(src)
    }

    pub fn edges_into(&self, src: EntityId) -> (r: Vec<EntityId>)
        ensures
            r@ == (if self.backward.adjacency@.contains_key(src) { all_lists(self.backward.adjacency@[src]) } else { Seq::empty() }),
    {
        self.backward.edges(src)
    }
}

impl Default for BidirectionalMatrix {
    fn default() -> (m: Self)
        ensures
            m.forward.graph() == Graph::empty(),
            m.forward.arrows() == ArrowIndex::empty(),
            m.backward.graph() == Graph::empty(),
            m.backward.arrows() == ArrowIndex::empty(),
    {
        BidirectionalMatrix::new()
    }
}

impl Matrix for BidirectionalMatrix {
    fn is_empty(&self) -> (b: bool)
        ensures
            b == (self.forward.graph().dom() == Set::<EntityId>::empty()),
    {
        self.forward.is_empty()
    }

    fn add_node(&mut self, node: EntityId)
        ensures
            final(self).forward.graph() == old(self).forward.graph().insert(node, Map::empty()),
            final(self).backward.graph() == old(self).backward.graph().insert(node, Map::empty()),
            final(self).forward.arrows() == old(self).forward.arrows(),
            final(self).backward.arrows() == old(self).backward.arrows(),
    {
        self.forward.add_node(node);
        self.backward.add_node(node);
    }

    fn add_edge(&mut self, id: EntityId, src: EntityId, tgt: EntityId)
        ensures
            final(self).forward.graph() == edge_added(old(self).forward.graph(), id, src, tgt),
            final(self).forward.arrows() == push_entry(old(self).forward.arrows(), id, (src, tgt)),
            final(self).backward.graph() == edge_added(old(self).backward.graph(), id, tgt, src),
            final(self).backward.arrows() == push_entry(old(self).backward.arrows(), id, (tgt, src)),
    {
        self.forward.add_edge(id, src, tgt);
        self.backward.add_edge(id, tgt, src);
    }

    fn remove_edge(&mut self, id: EntityId)
        ensures
            final(self).forward.graph() == edge_removed(old(self).forward.graph(), old(self).forward.arrows(), id),
            final(self).forward.arrows() == old(self).forward.arrows().remove(id),
            final(self).backward.graph() == edge_removed(old(self).backward.graph(), old(self).backward.arrows(), id),
            final(self).backward.arrows() == old(self).backward.arrows().remove(id),
    {
        self.forward.remove_edge(id);
        self.backward.remove_edge(id);
    }

    /// Drops the entries from `src` to `tgt` in both stored directions
    /// (in the backward matrix too, the entry is the one keyed by `src`).
    fn remove_edges(&mut self, src: EntityId, tgt: EntityId)
        ensures
            final(self).forward.graph() == edges_dropped(old(self).forward.graph(), src, tgt),
            final(self).forward.arrows() == arrows_dropped(old(self).forward.graph(), old(self).forward.arrows(), src, tgt),
            final(self).backward.graph() == edges_dropped(old(self).backward.graph(), src, tgt),
            final(self).backward.arrows() == arrows_dropped(old(self).backward.graph(), old(self).backward.arrows(), src, tgt),
    {
        self.forward.remove_edges(src, tgt);
        self.backward.remove_edges(src, tgt);
    }

    fn check_edge(&self, src: EntityId, tgt: EntityId) -> (b: bool)
        ensures
            b == (src == tgt || (self.forward.graph().contains_key(src) && self.forward.graph()[src].contains_key(tgt))),
    {
        self.forward.check_edge(src, tgt)
    }

    fn get_all_nodes(&self) -> (r: Vec<EntityId>)
        ensures
            r@ == key_order(&self.forward.adjacency),
            r@.no_duplicates(),
            r@.to_set() == self.forward.graph().dom(),
    {
        self.forward.get_all_nodes()
    }

    fn get_all_edges(&self) -> (r: Vec<EntityId>)
        ensures
            r@ == key_order(&self.forward.edges),
            r@.no_duplicates(),
            r@.to_set() == self.forward.arrows().dom(),
    {
        self.forward.get_all_edges()
    }
}

} // verus!
