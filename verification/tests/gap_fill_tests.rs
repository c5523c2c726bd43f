use texture_to_vert_colors::gap_fill::{gap_fill_joinable, vertex_face_lists};
use texture_to_vert_colors::union_find::UnionFind;

#[test]
fn vertex_face_lists_by_class() {
    let mut uf = UnionFind::new(4);
    uf.union(0, 3);
    let faces = vec![vec![0, 1, 2], vec![2, 3], vec![1, 1]];
    let adj = vertex_face_lists(&faces, &uf);
    assert_eq!(adj, vec![vec![], vec![0, 2], vec![0, 1], vec![0, 1]]);
}

#[test]
fn gap_fill_joinable_cases() {
    let uf = UnionFind::new(6);
    let faces = vec![vec![0, 2, 1, 3]];
    let adj = vertex_face_lists(&faces, &uf);
    // neither [0, 1] nor [2, 3] is an edge of the face
    assert!(gap_fill_joinable(&[0, 2, 1, 3], &uf, [0, 1, 2, 3], &adj));
    // [0, 1] is an edge of this face
    assert!(!gap_fill_joinable(&[0, 2, 3, 1], &uf, [0, 1, 2, 3], &adj));
    // corners must differ
    assert!(!gap_fill_joinable(&[0, 2, 1, 3], &uf, [0, 0, 2, 3], &adj));
}

#[test]
fn gap_fill_joinable_refuses_many_shared_faces() {
    let uf = UnionFind::new(4);
    let faces = vec![vec![0, 2], vec![0, 2], vec![0, 2], vec![1, 3]];
    let adj = vertex_face_lists(&faces, &uf);
    // 0 and 2 share three faces
    assert!(!gap_fill_joinable(&[0, 2, 1, 3], &uf, [0, 1, 2, 3], &adj));
    let faces = vec![vec![0, 2], vec![0, 2], vec![1, 3]];
    let adj = vertex_face_lists(&faces, &uf);
    assert!(gap_fill_joinable(&[0, 2, 1, 3], &uf, [0, 1, 2, 3], &adj));
}
