use hybit::aggregate::{build_graph_aggregates, build_piecewise_constant_graph_aggregates};
use hybit::csr::build_block_node_adjacency;
use hybit::HybitError;

fn path(n: usize) -> Vec<Vec<usize>> {
    let mut adjacency = vec![Vec::<usize>::new(); n];
    for i in 0..(n - 1) {
        adjacency[i].push(i + 1);
        adjacency[i + 1].push(i);
    }
    adjacency
}

fn class_sizes(assignment: &[usize], count: usize) -> Vec<usize> {
    let mut counts = vec![0usize; count];
    for &a in assignment {
        counts[a] += 1;
    }
    counts
}

#[test]
fn graph_aggregation_merges_small_remainder_island() {
    let n = 35usize;
    let adjacency = path(n);
    let (assignment, count) = build_graph_aggregates(&adjacency, 16).unwrap();
    let counts = class_sizes(&assignment, count);
    assert_eq!(count, 2);
    assert_eq!(counts.iter().sum::<usize>(), n);
    assert!(*counts.iter().min().unwrap() >= 16);
    assert!(*counts.iter().max().unwrap() <= 19);
}

#[test]
fn graph_aggregates_are_numbered_in_order_of_first_appearance() {
    let (assignment, count) = build_graph_aggregates(&path(40), 8).unwrap();
    assert_eq!(assignment[0], 0);
    let mut next = 0usize;
    for &a in &assignment {
        assert!(a <= next);
        if a == next {
            next += 1;
        }
    }
    assert_eq!(next, count);
    assert!(class_sizes(&assignment, count).iter().all(|&c| c >= 3));
}

#[test]
fn rigid_body_graph_aggregation_refuses_tiny_graphs_and_components() {
    assert_eq!(
        build_graph_aggregates(&path(2), 16).unwrap_err(),
        HybitError::InvalidArgument("graph rigid-body aggregation requires at least three nodes")
    );
    let adjacency = vec![Vec::new(), vec![2], vec![1, 3], vec![2]];
    assert_eq!(
        build_graph_aggregates(&adjacency, 16).unwrap_err(),
        HybitError::InvalidArgument("a structural graph component contains fewer than three nodes")
    );
    // A later isolated node is a component too small for six modes.
    let mut tail = path(5);
    tail.push(Vec::new());
    assert_eq!(
        build_graph_aggregates(&tail, 16).unwrap_err(),
        HybitError::InvalidArgument("a structural graph component contains fewer than three nodes")
    );
    let adjacency = vec![vec![1], vec![0, 2], vec![1], vec![]];
    assert_eq!(
        build_graph_aggregates(&adjacency, 3).unwrap_err(),
        HybitError::InvalidArgument("a structural graph component contains fewer than three nodes")
    );
}

#[test]
fn rigid_body_small_tail_with_a_built_neighbour_is_dissolved() {
    // {0,1,2} fills the first aggregate; {3,4} touches node 2 and joins it.
    let (assignment, count) = build_graph_aggregates(&path(5), 3).unwrap();
    assert_eq!(count, 1);
    assert_eq!(assignment, vec![0; 5]);
}

#[test]
fn piecewise_constant_graph_aggregation_covers_every_node() {
    let (assignment, count) = build_piecewise_constant_graph_aggregates(&path(10), 4).unwrap();
    assert_eq!(assignment.len(), 10);
    assert_eq!(count, 3);
    assert_eq!(assignment, vec![0, 0, 0, 0, 1, 1, 1, 1, 2, 2]);
    assert_eq!(
        build_piecewise_constant_graph_aggregates(&path(10), 0).unwrap_err(),
        HybitError::InvalidArgument("graph two-level target aggregate size must be > 0")
    );
    assert_eq!(
        build_piecewise_constant_graph_aggregates(&Vec::new(), 4).unwrap_err(),
        HybitError::InvalidArgument("graph two-level aggregation requires at least one node")
    );
}

#[test]
fn isolated_nodes_keep_their_own_aggregate() {
    let adjacency = vec![Vec::new(), Vec::new(), Vec::new()];
    let (assignment, count) = build_piecewise_constant_graph_aggregates(&adjacency, 4).unwrap();
    assert_eq!(assignment, vec![0, 1, 2]);
    assert_eq!(count, 3);
}

/// CSR pattern (row pointers, columns) of symmetric couplings between
/// nodes of `dofs` DOFs each, every DOF coupled to the same DOF of the
/// neighbour, with a diagonal entry per row.
fn coupled_pattern(nodes: usize, dofs: usize, edges: &[(usize, usize)]) -> (Vec<u32>, Vec<u32>) {
    let n = nodes * dofs;
    let mut rows = vec![Vec::<usize>::new(); n];
    for (i, row) in rows.iter_mut().enumerate() {
        row.push(i);
    }
    for &(a, b) in edges {
        for c in 0..dofs {
            rows[a * dofs + c].push(b * dofs + c);
            rows[b * dofs + c].push(a * dofs + c);
        }
    }
    let mut row_ptr = vec![0u32];
    let mut col_idx = Vec::new();
    for row in &mut rows {
        row.sort_unstable();
        col_idx.extend(row.iter().map(|&c| c as u32));
        row_ptr.push(col_idx.len() as u32);
    }
    (row_ptr, col_idx)
}

#[test]
fn graph_aggregation_follows_connectivity_not_numbering() {
    // Path 0-2-4-1-3-5: aggregates of three follow the path.
    let (row_ptr, col_idx) = coupled_pattern(6, 1, &[(0, 2), (2, 4), (4, 1), (1, 3), (3, 5)]);
    let adjacency = build_block_node_adjacency(6, 6, &row_ptr, &col_idx, 6, 1).unwrap();
    let (assignment, count) = build_piecewise_constant_graph_aggregates(&adjacency, 3).unwrap();
    assert_eq!(count, 2);
    assert_eq!(class_sizes(&assignment, count), vec![3, 3]);
    assert_eq!(assignment[0], assignment[2]);
    assert_eq!(assignment[2], assignment[4]);
    assert_ne!(assignment[0], assignment[1]);
}

#[test]
fn rigid_body_graph_aggregation_splits_a_cube_into_two_regions() {
    let edges = [(0, 1), (0, 2), (0, 4), (1, 3), (1, 5), (2, 3), (2, 6), (3, 7), (4, 5), (4, 6), (5, 7), (6, 7)];
    let (row_ptr, col_idx) = coupled_pattern(8, 3, &edges);
    let adjacency = build_block_node_adjacency(24, 24, &row_ptr, &col_idx, 8, 3).unwrap();
    let (assignment, count) = build_graph_aggregates(&adjacency, 4).unwrap();
    let sizes = class_sizes(&assignment, count);
    assert_eq!(count, 2);
    assert!(*sizes.iter().min().unwrap() >= 3);
    assert!(*sizes.iter().max().unwrap() <= 5);
}
