use texture_to_vert_colors::boundary::{
    boundary_neighbours, corner_order, flip_keeping_first, label_sides, rotate_to_first, swap_slots,
    NO_CORNER, NO_VERT,
};
use texture_to_vert_colors::weighting::edge_face_slots;

fn ring() -> Vec<[usize; 2]> {
    boundary_neighbours(4, &[[0, 1], [0, 3], [1, 2], [2, 3]]).unwrap()
}

#[test]
fn boundary_neighbours_in_order_met() {
    assert_eq!(ring(), vec![[1, 3], [0, 2], [1, 3], [0, 2]]);
    let partial = boundary_neighbours(3, &[[0, 1]]).unwrap();
    assert_eq!(partial, vec![[1, NO_VERT], [0, NO_VERT], [NO_VERT, NO_VERT]]);
    assert_eq!(boundary_neighbours(4, &[[0, 1], [0, 3], [0, 2]]), None);
}

#[test]
fn boundary_edges_of_two_triangles() {
    let faces = vec![vec![[0, 1], [1, 2], [0, 2]], vec![[1, 3], [2, 3], [1, 2]]];
    let slots = edge_face_slots(&faces).unwrap();
    assert_eq!(slots.boundary_edges(), vec![[0, 1], [0, 2], [1, 3], [2, 3]]);
}

#[test]
fn corner_order_walks_the_ring() {
    let adj = ring();
    assert_eq!(corner_order(&adj, &[(10, 0), (11, 2)]), Some(vec![11, 10]));
    assert_eq!(corner_order(&adj, &[]), Some(vec![]));
    let empty = vec![[NO_VERT, NO_VERT]; 3];
    assert_eq!(corner_order(&empty, &[(10, 0)]), None);
    // a chain that never comes back
    let chain = boundary_neighbours(3, &[[0, 1], [1, 2]]).unwrap();
    assert_eq!(corner_order(&chain, &[(10, 0)]), None);
}

#[test]
fn rotations_line_up_orders() {
    assert_eq!(rotate_to_first(&vec![11, 10, 12], 10), Some(vec![10, 12, 11]));
    assert_eq!(rotate_to_first(&vec![11, 10], 7), None);
    assert_eq!(flip_keeping_first(&vec![10, 11, 12]), vec![10, 12, 11]);
    assert_eq!(flip_keeping_first(&vec![]), Vec::<usize>::new());
    let mut adj = ring();
    swap_slots(&mut adj);
    assert_eq!(adj, vec![[3, 1], [2, 0], [3, 1], [2, 0]]);
}

#[test]
fn label_sides_between_corners() {
    let adj = ring();
    let (labels, pairs) = label_sides(&adj, &[(10, 0), (11, 2)]).unwrap();
    let none = (0u32, NO_CORNER);
    assert_eq!(
        labels,
        vec![[none, none], [(1, 10), (1, 11)], [none, none], [(1, 10), (1, 11)]]
    );
    assert_eq!(pairs, vec![[11, 11], [10, 10]]);
    // a corner vertex without neighbours
    let chain = boundary_neighbours(3, &[[0, 1]]).unwrap();
    assert_eq!(label_sides(&chain, &[(10, 2)]), None);
}
