use texture_to_vert_colors::aabb::AABB;
use texture_to_vert_colors::options::FaceLabel;
use texture_to_vert_colors::pixels::{any_isolated, pixel_bridges, prune_diagonal_only, Pixel};

fn pixel(u: i32, v: i32, i: usize) -> Pixel {
    Pixel { at: [u, v], verts: [4 * i, 4 * i + 1, 4 * i + 2, 4 * i + 3], face: i }
}

#[test]
fn full_block_gets_bridges_and_a_corner() {
    let px = vec![pixel(0, 0, 0), pixel(0, 1, 1), pixel(1, 0, 2), pixel(1, 1, 3)];
    let faces = pixel_bridges(&px);
    assert_eq!(
        faces,
        vec![
            (FaceLabel::Bridge(1, 0), vec![3, 2, 5, 4]),
            (FaceLabel::Bridge(2, 0), vec![11, 2, 1, 8]),
            (FaceLabel::Bridge(3, 1), vec![15, 6, 5, 12]),
            (FaceLabel::Bridge(3, 2), vec![11, 10, 13, 12]),
            (FaceLabel::BridgeCorner, vec![12, 5, 2, 11]),
        ]
    );
    assert!(!any_isolated(&px));
}

#[test]
fn missing_diagonal_gets_a_corner_triangle() {
    let px = vec![pixel(0, 0, 0), pixel(0, 1, 1), pixel(1, 0, 2)];
    let faces = pixel_bridges(&px);
    assert_eq!(faces[0], (FaceLabel::BridgeCorner, vec![2, 11, 5]));
    assert_eq!(faces.len(), 3);
}

#[test]
fn lone_diagonal_gets_a_corner_quad() {
    let px = vec![pixel(0, 1, 0), pixel(1, 0, 1)];
    let faces = pixel_bridges(&px);
    assert_eq!(faces, vec![(FaceLabel::BridgeCorner, vec![1, 7, 4, 0])]);
}

#[test]
fn isolated_pixels_are_found() {
    let px = vec![pixel(0, 0, 0), pixel(5, 5, 1), pixel(5, 6, 2)];
    assert!(any_isolated(&px));
    assert!(!any_isolated(&vec![pixel(5, 5, 1), pixel(6, 6, 2)]));
    assert!(!any_isolated(&vec![]));
}

#[test]
fn diagonal_only_pixels_are_pruned_in_visiting_order() {
    let px = vec![pixel(0, 1, 0), pixel(1, 0, 1)];
    let coords = AABB::from_corners([0, 0], [2, 2]).iter_coords();
    let (kept, dropped) = prune_diagonal_only(&px, &coords);
    assert_eq!(kept, vec![pixel(0, 1, 0)]);
    assert_eq!(dropped, vec![1]);

    let px = vec![pixel(0, 0, 0), pixel(0, 1, 1), pixel(1, 1, 2)];
    let (kept, dropped) = prune_diagonal_only(&px, &coords);
    assert_eq!(kept, px);
    assert!(dropped.is_empty());
}
