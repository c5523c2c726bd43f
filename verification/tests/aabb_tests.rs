use texture_to_vert_colors::aabb::AABB;

#[test]
fn iter_coords_row_major() {
    let b = AABB::from_corners([1, 5], [3, 7]);
    assert_eq!(b.iter_coords(), vec![[1, 5], [2, 5], [1, 6], [2, 6]]);
    let empty = AABB::from_corners([3, 5], [3, 7]);
    assert!(empty.iter_coords().is_empty());
}

#[test]
fn expand_by_grows_each_side() {
    let mut b = AABB::from_corners([1, 5], [3, 7]);
    b.expand_by(2);
    assert_eq!(b.min, [-1, 3]);
    assert_eq!(b.max, [5, 9]);
    assert_eq!(b.iter_coords().len(), 36);
}

#[test]
fn boxes_compare_by_corners() {
    assert_eq!(AABB::from_corners([1, 5], [3, 7]), AABB::from_corners([1, 5], [3, 7]));
    assert_ne!(AABB::from_corners([1, 5], [3, 7]), AABB::from_corners([1, 5], [3, 8]));
}
