use mosaic::sparse_matrix::{Matrix, UndirectedAdjacencyMatrix};

fn sorted(mut v: Vec<usize>) -> Vec<usize> {
    v.sort();
    v
}

#[test]
fn undirected_edge_is_recorded_both_ways() {
    let mut m = UndirectedAdjacencyMatrix::default();
    assert!(m.is_empty());
    m.add_edge(7, 1, 2);
    assert!(!m.is_empty());
    assert!(m.are_adjacent(1, 2));
    assert!(m.are_adjacent(2, 1));
    assert!(!m.are_adjacent(1, 3));
    assert!(m.are_adjacent(3, 3));
    assert_eq!(m.neighbors(1), vec![2]);
    assert_eq!(m.neighbors(2), vec![1]);
    assert_eq!(m.edges(1), vec![7]);
    assert_eq!(m.edges(2), vec![7]);
    assert_eq!(m.edges.get(&7).unwrap(), &vec![(1, 2), (2, 1)]);
    assert_eq!(sorted(m.get_all_nodes()), vec![1, 2]);
    assert_eq!(m.get_all_edges(), vec![7]);
}

#[test]
fn undirected_neighbour_counts() {
    let mut m = UndirectedAdjacencyMatrix::new();
    m.add_edge(10, 1, 2);
    m.add_edge(11, 1, 3);
    m.add_edge(12, 1, 3);
    assert_eq!(m.neighbor_count(1), 2);
    assert_eq!(m.neighbor_count(3), 1);
    assert_eq!(m.neighbor_count(9), 0);
    assert_eq!(sorted(m.neighbors(1)), vec![2, 3]);
    assert_eq!(m.neighbors(9), Vec::<usize>::new());
    assert_eq!(sorted(m.edges(1)), vec![10, 11, 12]);
    assert_eq!(m.edges(3), vec![11, 12]);
}

#[test]
fn undirected_self_loop_lists_the_edge_twice() {
    let mut m = UndirectedAdjacencyMatrix::new();
    m.add_edge(5, 4, 4);
    assert_eq!(m.edges(4), vec![5, 5]);
    assert_eq!(m.neighbors(4), vec![4]);
}

#[test]
fn undirected_remove_edge_unlinks_both_ways() {
    let mut m = UndirectedAdjacencyMatrix::new();
    m.add_edge(10, 1, 2);
    m.add_edge(11, 2, 3);
    m.remove_edge(10);
    assert!(!m.are_adjacent(1, 2));
    assert!(!m.are_adjacent(2, 1));
    assert!(m.are_adjacent(2, 3));
    assert_eq!(m.get_all_edges(), vec![11]);
    assert_eq!(sorted(m.get_all_nodes()), vec![1, 2, 3]);
    m.remove_edge(99);
    assert_eq!(m.get_all_edges(), vec![11]);
}

#[test]
fn undirected_remove_edges_drops_entries_and_identifiers() {
    let mut m = UndirectedAdjacencyMatrix::new();
    m.add_edge(10, 1, 2);
    m.add_edge(11, 2, 1);
    m.add_edge(12, 2, 3);
    m.remove_edges(2, 1);
    assert!(!m.are_adjacent(1, 2));
    assert!(!m.are_adjacent(2, 1));
    assert_eq!(m.get_all_edges(), vec![12]);
    assert_eq!(m.neighbors(1), Vec::<usize>::new());
    assert_eq!(m.neighbors(2), vec![3]);
}

#[test]
fn undirected_add_node_replaces_the_neighbourhood() {
    let mut m = UndirectedAdjacencyMatrix::new();
    m.add_edge(10, 1, 2);
    m.add_node(1);
    assert_eq!(m.neighbor_count(1), 0);
    assert!(!m.are_adjacent(1, 2));
    assert!(m.are_adjacent(2, 1));
}

#[test]
fn undirected_adjacency_checks_the_second_node_when_the_first_is_unknown() {
    let mut m = UndirectedAdjacencyMatrix::new();
    m.adjacency.insert(2, std::collections::HashMap::new());
    m.adjacency.get_mut(&2).unwrap().insert(1, vec![3]);
    assert!(m.check_edge(1, 2));
    assert!(m.check_edge(2, 1));
    assert!(!m.check_edge(1, 4));
    assert!(!m.check_edge(4, 1));
}

#[test]
fn undirected_dfs_of_a_lone_node() {
    let m = UndirectedAdjacencyMatrix::new();
    assert_eq!(m.dfs(5), vec![vec![5]]);
}

#[test]
fn undirected_dfs_along_a_path() {
    let mut m = UndirectedAdjacencyMatrix::new();
    m.add_edge(10, 1, 2);
    assert_eq!(m.dfs(1), vec![vec![1, 2]]);
    assert_eq!(m.dfs(2), vec![vec![2, 1]]);
}

#[test]
fn undirected_dfs_on_a_star_follows_the_walk_order() {
    let mut m = UndirectedAdjacencyMatrix::new();
    m.add_edge(10, 2, 1);
    m.add_edge(11, 1, 3);
    let found = m.dfs(2);
    let order = m.neighbors(1);
    if order == vec![2, 3] {
        assert_eq!(found, vec![vec![2, 1], vec![2, 3]]);
    } else {
        assert_eq!(order, vec![3, 2]);
        assert_eq!(found, vec![vec![2, 1, 3], vec![2]]);
    }
}

#[test]
fn adjacency_stays_symmetric_through_changes() {
    let mut m = UndirectedAdjacencyMatrix::default();
    m.add_node(5);
    m.add_edge(10, 1, 2);
    m.add_edge(11, 2, 3);
    m.add_edge(12, 3, 5);
    m.remove_edge(11);
    m.remove_edges(3, 5);
    m.add_edge(13, 4, 1);
    for a in 0..7usize {
        for b in 0..7usize {
            assert_eq!(m.are_adjacent(a, b), m.are_adjacent(b, a));
        }
        assert!(m.are_adjacent(a, a));
    }
    assert!(m.are_adjacent(1, 2));
    assert!(!m.are_adjacent(2, 3));
    assert!(!m.are_adjacent(3, 5));
    assert!(m.are_adjacent(1, 4));
}
