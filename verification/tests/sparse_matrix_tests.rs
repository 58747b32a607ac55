use mosaic::sparse_matrix::{AdjacencyMatrix, BidirectionalMatrix, Matrix};

#[test]
fn test_adding_an_edge_builds_adjacency() {
    let mut mat = AdjacencyMatrix::default();
    mat.add_edge(3, 1, 2);
    assert!(mat.are_adjacent(1, 2));
    assert!(!mat.are_adjacent(2, 3));
    mat.add_edge(4, 2, 3);
    assert!(mat.are_adjacent(1, 2));
    assert!(mat.are_adjacent(2, 3));
    assert!(!mat.are_adjacent(3, 1));
    mat.add_edge(5, 3, 1);
    assert!(mat.are_adjacent(1, 2));
    assert!(mat.are_adjacent(2, 3));
    assert!(mat.are_adjacent(3, 1));
}

#[test]
fn test_building_bidir_matrices_works() {
    let mut mat = BidirectionalMatrix::default();
    mat.add_edge(3, 1, 2);
    assert!(mat.are_adjacent(1, 2));
    assert!(!mat.are_adjacent(2, 3));
    mat.add_edge(4, 2, 3);
    assert!(mat.are_adjacent(1, 2));
    assert!(mat.are_adjacent(2, 3));
    assert!(!mat.are_adjacent(3, 1));
    mat.add_edge(5, 3, 1);
    assert!(mat.are_adjacent(1, 2));
    assert!(mat.are_adjacent(2, 3));
    assert!(mat.are_adjacent(3, 1));
}

#[test]
fn test_dfs_on_trees() {
    let mut mat = BidirectionalMatrix::default();
    mat.add_edge(10, 1, 2);
    mat.add_edge(11, 2, 3);
    mat.add_edge(12, 3, 4);
    mat.add_edge(13, 2, 5);
    mat.add_edge(14, 5, 6);

    let paths = mat.reach_forward(1);
    println!("{:?}", paths);
    assert_eq!(paths.len(), 2);
}

#[test]
fn test_dfs_with_loops() {
    let mut mat = BidirectionalMatrix::default();
    mat.add_edge(10, 1, 2);
    mat.add_edge(11, 2, 3);
    mat.add_edge(12, 3, 1);
    mat.add_edge(13, 3, 4);
    mat.add_edge(14, 4, 1);

    let paths = mat.reach_forward(1);
    assert_eq!(paths.len(), 2);
}

#[test]
fn test_dfs_with_repeated_adds() {
    let mut mat = BidirectionalMatrix::default();
    mat.add_edge(10, 1, 2);
    mat.add_edge(11, 2, 4);
    mat.add_edge(12, 2, 4);
    mat.add_edge(13, 4, 5);

    let paths = mat.reach_forward(1);
    assert_eq!(paths.len(), 1);
}

#[test]
fn test_dfs_complex() {
    let mut mat = BidirectionalMatrix::default();
    mat.add_edge(10, 1, 2);
    mat.add_edge(11, 1, 4);
    mat.add_edge(12, 1, 9);
    mat.add_edge(13, 2, 3);
    mat.add_edge(14, 2, 6);
    mat.add_edge(15, 3, 5);
    mat.add_edge(16, 3, 7);
    mat.add_edge(17, 3, 8);
    mat.add_edge(18, 4, 6);
    mat.add_edge(19, 5, 2);
    mat.add_edge(20, 5, 6);
    mat.add_edge(21, 6, 1);
    mat.add_edge(22, 7, 5);
    mat.add_edge(23, 7, 8);
    mat.add_edge(24, 8, 1);
    mat.add_node(9);
    let paths = mat.reach_forward(1);
    assert_eq!(paths.len(), 9);
}

#[test]
fn test_dfs_with_converging_ends() {
    let mut mat = BidirectionalMatrix::default();
    mat.add_edge(10, 1, 2);
    mat.add_edge(11, 2, 3);
    mat.add_edge(12, 2, 6);
    mat.add_edge(13, 6, 4);
    mat.add_edge(14, 3, 4);
    mat.add_edge(15, 4, 5);

    let paths = mat.reach_forward(1);
    assert_eq!(paths.len(), 2);
}

#[test]
fn test_simple_reachability() {
    let mut mat = BidirectionalMatrix::default();
    mat.add_edge(10, 1, 2);
    mat.add_edge(11, 2, 3);
    mat.add_edge(12, 3, 4);
    assert!(mat.are_reachable(1, 4));
    mat.remove_edge(12);
    assert!(!mat.are_reachable(1, 4));
}

#[test]
fn test_deleting_self_loops() {
    let mut mat = BidirectionalMatrix::default();
    mat.add_edge(10, 1, 1);
    mat.add_edge(11, 1, 1);
    mat.add_edge(12, 1, 1);
    println!("{:?}", mat.edges_from(1));
    mat.remove_edge(11);
    println!("{:?}", mat.edges_from(1));

    assert!(mat.check_edge(1, 1));
}

#[test]
fn test_add_node_in_closed_adjacency_matrix() {
    let mut mat = BidirectionalMatrix::default();
    mat.add_edge(10, 1, 2);
    mat.add_edge(11, 2, 3);
    mat.add_edge(12, 4, 5);
    mat.add_edge(13, 5, 6);
    mat.add_edge(14, 3, 4);
    assert!(!mat.are_adjacent(1, 6));
    assert!(mat.are_reachable(1, 6));
}

#[test]
fn test_all_adjacent_edges_are_also_reachable() {
    let mut mat = BidirectionalMatrix::default();
    mat.add_edge(10, 1, 2);
    mat.add_edge(11, 2, 3);
    mat.add_edge(12, 3, 1);

    assert!(mat.are_reachable(1, 2));
    assert!(mat.are_reachable(2, 3));
    assert!(mat.are_reachable(3, 1));
    assert!(mat.are_reachable(1, 3));
    assert!(mat.are_reachable(2, 1));
}

#[test]
fn matrix_degrees_and_neighbours() {
    let mut mat = BidirectionalMatrix::default();
    mat.add_edge(10, 1, 2);
    mat.add_edge(11, 1, 3);
    mat.add_edge(12, 3, 2);
    assert_eq!(mat.out_degree(1), 2);
    assert_eq!(mat.in_degree(2), 2);
    assert_eq!(mat.in_degree(1), 0);
    let mut front = mat.get_front_neighbors(1);
    front.sort();
    assert_eq!(front, vec![2, 3]);
    let mut back = mat.get_back_neighbors(2);
    back.sort();
    assert_eq!(back, vec![1, 3]);
    let mut from = mat.edges_from(1);
    from.sort();
    assert_eq!(from, vec![10, 11]);
    let mut into = mat.edges_into(2);
    into.sort();
    assert_eq!(into, vec![10, 12]);
    let mut nodes = mat.get_all_nodes();
    nodes.sort();
    assert_eq!(nodes, vec![1, 2, 3]);
    let mut edges = mat.get_all_edges();
    edges.sort();
    assert_eq!(edges, vec![10, 11, 12]);
    assert!(!mat.is_empty());
    assert!(BidirectionalMatrix::default().is_empty());
}

#[test]
fn matrix_remove_edge_swap_removes_one_occurrence() {
    let mut mat = AdjacencyMatrix::default();
    mat.add_edge(10, 1, 2);
    mat.add_edge(11, 1, 2);
    mat.add_edge(12, 1, 2);
    mat.remove_edge(10);
    assert_eq!(mat.adjacency.get(&1).unwrap().get(&2).unwrap(), &vec![12, 11]);
    assert!(mat.edges.get(&10).is_none());
    assert!(mat.are_adjacent(1, 2));
}

#[test]
fn matrix_remove_edges_drops_the_entry_and_its_arrows() {
    let mut mat = AdjacencyMatrix::default();
    mat.add_edge(10, 1, 2);
    mat.add_edge(11, 1, 2);
    mat.add_edge(12, 2, 1);
    mat.remove_edges(1, 2);
    assert!(!mat.are_adjacent(1, 2));
    assert!(mat.are_adjacent(2, 1));
    assert!(mat.edges.get(&10).is_none());
    assert!(mat.edges.get(&11).is_none());
    assert!(mat.edges.get(&12).is_some());
}

#[test]
fn matrix_dfs_records_closing_node_of_a_cycle() {
    let mut mat = AdjacencyMatrix::default();
    mat.add_edge(10, 1, 2);
    mat.add_edge(11, 2, 1);
    let paths = mat.dfs(1);
    assert_eq!(paths, vec![vec![1, 2, 1]]);
    let lonely = mat.dfs(7);
    assert_eq!(lonely, vec![vec![7]]);
}

#[test]
fn matrix_reachability_follows_direction() {
    let mut mat = BidirectionalMatrix::default();
    mat.add_edge(10, 1, 2);
    mat.add_edge(11, 2, 3);
    assert!(mat.are_reachable(1, 3));
    assert!(!mat.are_reachable(3, 1));
    assert!(mat.reach_backward_until(3, 1));
    assert!(!mat.reach_backward_until(1, 3));
    assert!(mat.are_reachable(5, 5));
}
