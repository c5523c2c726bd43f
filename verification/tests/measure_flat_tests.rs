use texture_to_vert_colors::measure_flat::chart_adjacency;

#[test]
fn chart_adjacency_lists_first_met_order() {
    let edge_faces = vec![vec![0, 1], vec![1, 2], vec![2, 0, 3]];
    let charts = [0, 0, 1, 2];
    let (adj, counts) = chart_adjacency(&edge_faces, &charts, 3);
    assert_eq!(adj, vec![vec![1, 2], vec![0, 2], vec![1, 0]]);
    assert_eq!(counts, vec![0, 1, 3]);
}

#[test]
fn chart_adjacency_is_symmetric() {
    let edge_faces = vec![vec![3, 1], vec![0, 2], vec![4, 3]];
    let charts = [1, 0, 3, 2, 0];
    let (adj, _) = chart_adjacency(&edge_faces, &charts, 4);
    for c in 0..4 {
        assert!(!adj[c].contains(&c));
        for &d in &adj[c] {
            assert!(adj[d].contains(&c));
        }
    }
}

#[test]
fn chart_adjacency_of_one_chart_is_empty() {
    let edge_faces = vec![vec![0, 1, 2], vec![2]];
    let (adj, counts) = chart_adjacency(&edge_faces, &[0, 0, 0], 1);
    assert_eq!(adj, vec![Vec::<usize>::new()]);
    assert_eq!(counts, vec![0, 0]);
}
