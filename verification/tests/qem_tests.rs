use texture_to_vert_colors::manifold::CollapsibleManifold;
use texture_to_vert_colors::qem::{absorb_faces, is_boundary_edge, link_condition, num_shared};

#[test]
fn num_shared_counts_equal_pairs() {
    assert_eq!(num_shared(&[1, 2, 3], &[3, 2, 2]), 3);
    assert_eq!(num_shared(&[], &[1]), 0);
    assert_eq!(num_shared(&[4, 4], &[4, 4, 4]), 6);
    assert_eq!(num_shared(&[1], &[2]), 0);
}

#[test]
fn link_condition_interior_and_boundary() {
    // interior edge: two shared neighbours
    assert!(link_condition(&[1, 2, 3], &[2, 3, 4], false));
    assert!(!link_condition(&[1, 2, 3], &[2, 5, 4], false));
    // boundary edge: one shared neighbour
    assert!(link_condition(&[1, 2, 3], &[2, 5, 4], true));
    assert!(!link_condition(&[1, 2, 3], &[2, 3, 4], true));
    assert!(!link_condition(&[], &[], true));
}

#[test]
fn absorb_faces_moves_new_faces() {
    let mut a = vec![3, 1, 7];
    let mut b = vec![1, 2];
    absorb_faces(&mut a, &mut b);
    assert!(a.is_empty());
    assert_eq!(b, vec![1, 2, 3, 7]);
}

#[test]
fn boundary_edge_follows_merges() {
    let mut m = CollapsibleManifold::new_with(4, |i| i as u32);
    m.add_face(&[0, 1, 2, 3]);
    let bd = [[0, 1], [2, 3]];
    assert!(is_boundary_edge(&m, &bd, 0, 1));
    assert!(!is_boundary_edge(&m, &bd, 1, 2));
    m.merge(1, 2, |a, b| a + b);
    // vertex 1 now stands in vertex 2: edge [0, 1] joins 0 and 2
    assert!(is_boundary_edge(&m, &bd, 0, 2));
    assert!(!is_boundary_edge(&m, &bd, 0, 1));
}

use texture_to_vert_colors::qem::{boundary_edge_lists, carry_boundary_edges, fan_neighbours};

#[test]
fn fan_neighbours_of_triangles_and_quads() {
    let m = CollapsibleManifold::new_with(5, |i| i as u32);
    let faces = vec![vec![0, 1, 2], vec![0, 2, 3], vec![3, 4, 0], vec![1, 2, 3, 4]];
    assert_eq!(fan_neighbours(&m, &faces, &[0, 1, 2], 0, 0), vec![1, 2, 3, 4]);
    assert_eq!(fan_neighbours(&m, &faces, &[0, 1, 2], 1, 0), vec![0, 2]);
    // quad [1, 2, 3, 4] fans into (1, 2, 3) and (1, 3, 4)
    assert_eq!(fan_neighbours(&m, &faces, &[3], 2, 0), vec![1, 3]);
    assert_eq!(fan_neighbours(&m, &faces, &[3], 3, 0), vec![1, 2, 4]);
    assert_eq!(fan_neighbours(&m, &faces, &[], 3, 0), Vec::<usize>::new());
}

#[test]
fn fan_neighbours_skip_collapsed_triangles() {
    let mut m = CollapsibleManifold::new_with(4, |i| i as u32);
    m.add_face(&[0, 1, 2]);
    m.add_face(&[0, 2, 3]);
    m.merge(1, 2, |a, b| a + b);
    // with an offset of 10, face corners are 10..14
    let faces = vec![vec![10, 11, 12], vec![10, 12, 13]];
    // the first face now maps to (0, 2, 2) and is degenerate
    assert_eq!(fan_neighbours(&m, &faces, &[0, 1], 0, 10), vec![2, 3]);
}

#[test]
fn boundary_edge_lists_records_both_ends() {
    let bd = [[5, 3], [3, 4], [9, 3], [4, 5], [3, 5]];
    let lists = boundary_edge_lists(&bd, 3, 7);
    assert_eq!(
        lists,
        vec![
            Some(vec![[0, 2], [0, 1]]),
            Some(vec![[0, 1], [1, 2]]),
            Some(vec![[0, 2], [1, 2]]),
            None,
        ]
    );
    assert_eq!(boundary_edge_lists(&bd, 7, 7), Vec::<Option<Vec<[usize; 2]>>>::new());
}

#[test]
fn carry_boundary_edges_keeps_symmetric_difference() {
    let mut m = CollapsibleManifold::new_with(4, |i| i as u32);
    m.add_face(&[0, 1, 2, 3]);
    m.merge(0, 1, |a, b| a + b);
    let l0 = Some(vec![[0, 3], [0, 1]]);
    let l1 = Some(vec![[1, 2], [0, 1]]);
    assert_eq!(carry_boundary_edges(&m, l0.clone(), l1), Some(vec![[1, 2], [1, 3]]));
    assert_eq!(carry_boundary_edges(&m, l0, None), Some(vec![[1, 3], [1, 1]]));
    assert_eq!(carry_boundary_edges(&m, None, Some(vec![[3, 0]])), Some(vec![[1, 3]]));
    assert_eq!(carry_boundary_edges(&m, None, None), None);
}
