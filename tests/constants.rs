use motif_rewrite::constants::{
    compute_n1_constant, compute_n2_constant, compute_n3_constant, compute_n5_constant, compute_n6_constant,
    compute_n9_constant, create_data_graph_adjacency_list,
};

fn sample() -> Vec<Vec<usize>> {
    let edges = vec![(0, 1), (0, 2), (1, 2), (2, 3), (2, 4), (3, 4), (0, 3), (4, 5)];
    create_data_graph_adjacency_list(&edges, 6)
}

#[test]
fn adjacency_list_in_edge_order() {
    assert_eq!(sample(), vec![vec![1, 2, 3], vec![0, 2], vec![0, 1, 3, 4], vec![2, 4, 0], vec![2, 3, 5], vec![4]]);
}

#[test]
fn degree_constants() {
    let g = sample();
    assert_eq!(compute_n1_constant(&g), Some(1));
    assert_eq!(compute_n2_constant(&g), Some(39));
    assert_eq!(compute_n3_constant(&g), Some(57));
}

#[test]
fn triangle_constants() {
    let g = sample();
    assert_eq!(compute_n5_constant(&g), Some(15));
    assert_eq!(compute_n6_constant(&g), Some(12));
    assert_eq!(compute_n9_constant(&g), Some(5));
}

#[test]
fn empty_graph_constants_are_zero() {
    let g: Vec<Vec<usize>> = vec![];
    assert_eq!(compute_n1_constant(&g), Some(0));
    assert_eq!(compute_n9_constant(&g), Some(0));
    let star = create_data_graph_adjacency_list(&vec![(0, 1), (0, 2), (0, 3), (0, 4), (0, 5)], 6);
    assert_eq!(compute_n1_constant(&star), Some(5));
    assert_eq!(compute_n6_constant(&star), Some(0));
}
