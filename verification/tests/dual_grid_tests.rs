use texture_to_vert_colors::dual_grid::{
    any_alone, any_collinear, any_non_manifold, dual_faces, has_extent, GridPoint,
};

fn pt(u: i32, v: i32, vert: usize) -> GridPoint {
    GridPoint { at: [u, v], vert }
}

#[test]
fn block_of_four_makes_one_quad() {
    let pts = vec![pt(0, 0, 0), pt(0, 1, 1), pt(1, 0, 2), pt(1, 1, 3)];
    assert_eq!(dual_faces(&pts), vec![vec![2, 3, 1, 0]]);
    assert!(has_extent(&pts));
    assert!(!any_non_manifold(&pts));
    assert!(!any_collinear(&pts));
    assert!(!any_alone(&pts));
}

#[test]
fn column_with_a_side_point_fans_triangles() {
    let pts = vec![pt(0, 0, 0), pt(0, 1, 1), pt(0, 2, 2), pt(1, 0, 3)];
    assert_eq!(dual_faces(&pts), vec![vec![3, 1, 0], vec![1, 3, 2]]);
}

#[test]
fn line_shapes_are_detected() {
    let row = vec![pt(0, 0, 0), pt(1, 0, 1), pt(2, 0, 2)];
    assert!(any_non_manifold(&row));
    assert!(any_collinear(&row));
    assert!(!has_extent(&row));
    let column = vec![pt(0, 0, 0), pt(0, 1, 1), pt(0, 2, 2)];
    assert!(any_non_manifold(&column));
    assert!(!any_collinear(&column));
    assert!(!has_extent(&column));
}

#[test]
fn alone_points_are_detected() {
    assert!(any_alone(&vec![pt(0, 0, 0), pt(5, 5, 1)]));
    assert!(!any_alone(&vec![pt(0, 0, 0), pt(1, 1, 1)]));
    assert!(!any_alone(&vec![]));
}
