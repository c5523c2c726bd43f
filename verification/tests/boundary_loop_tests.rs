use texture_to_vert_colors::boundary_loop::loop_order;

#[test]
fn square_loop_from_lowest_vertex() {
    // 2 -> 5 -> 7 -> 9 -> 2, listed by vertex.
    let loops = vec![(2, [9, 5]), (5, [2, 7]), (7, [5, 9]), (9, [7, 2])];
    assert_eq!(loop_order(&loops), Some(vec![2, 5, 7, 9]));
}

#[test]
fn loop_follows_successors_not_listing_order() {
    // 0 -> 3 -> 1 -> 2 -> 0
    let loops = vec![(0, [2, 3]), (1, [3, 2]), (2, [1, 0]), (3, [0, 1])];
    assert_eq!(loop_order(&loops), Some(vec![0, 3, 1, 2]));
}

#[test]
fn successor_without_entry_gives_none() {
    let loops = vec![(0, [4, 1]), (1, [0, 4])];
    assert_eq!(loop_order(&loops), None);
}

#[test]
fn walk_that_never_returns_gives_none() {
    // 0 -> 1 -> 2 -> 1 -> ...
    let loops = vec![(0, [2, 1]), (1, [0, 2]), (2, [1, 1])];
    assert_eq!(loop_order(&loops), None);
}

#[test]
fn vertex_that_is_its_own_successor() {
    let loops = vec![(4, [4, 4])];
    assert_eq!(loop_order(&loops), Some(vec![4, 4]));
}
