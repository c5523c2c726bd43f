use texture_to_vert_colors::clustering::face_chart_adjacency;
use texture_to_vert_colors::clustering::link_edge_faces;
use texture_to_vert_colors::manifold::CollapsibleManifold;
use texture_to_vert_colors::clustering::{
    edges, merge_wedges, new_wedges, push_uniq, renumber_charts, EdgeSet, Eigenvalue,
    OrderingKind,
};

#[test]
fn test_wedges() {
    let mut wedges = [[0, 1], [2, 3], [7, 8]];
    assert_eq!(new_wedges(&mut wedges, [1, 2]), (1, Some([0, 3])));
    assert_eq!(wedges[0], [7, 8]);

    let mut wedges = [[3, 4], [1, 2], [6, 7]];
    assert_eq!(new_wedges(&mut wedges, [1, 2]), (2, None));
    assert_eq!(wedges[2], [1, 2]);

    let mut wedges = [[3, 4], [1, 2], [6, 7]];
    assert_eq!(new_wedges(&mut wedges, [0, 10]), (3, Some([0, 10])));
}

#[test]
fn new_wedges_reversed_match_cancels() {
    let mut wedges = [[5, 6], [9, 4]];
    assert_eq!(new_wedges(&mut wedges, [4, 9]), (1, None));
    assert_eq!(wedges, [[5, 6], [9, 4]]);
    let mut none: [[usize; 2]; 0] = [];
    assert_eq!(new_wedges(&mut none, [1, 2]), (0, Some([1, 2])));
}

#[test]
fn merge_wedges_cases() {
    assert_eq!(merge_wedges([0, 1], [1, 2]), Some([0, 2]));
    assert_eq!(merge_wedges([1, 2], [0, 1]), Some([0, 2]));
    assert_eq!(merge_wedges([1, 5], [1, 7]), Some([5, 7]));
    assert_eq!(merge_wedges([5, 1], [7, 1]), Some([5, 7]));
    assert_eq!(merge_wedges([0, 1], [2, 3]), None);
}

#[test]
fn face_edges_wrap_around() {
    assert_eq!(edges(&[4, 5, 6]), vec![[4, 5], [5, 6], [6, 4]]);
    assert_eq!(edges(&[3]), vec![[3, 3]]);
    assert_eq!(edges(&[]), Vec::<[usize; 2]>::new());
}

#[test]
fn edge_set_extend_builds_chains() {
    let mut s = EdgeSet::new();
    assert!(s.is_empty());
    s.extend(&[[1, 2], [2, 3], [7, 8], [1, 0]]);
    // [1,2] starts a chain, [2,3] extends it, [7,8] starts another,
    // [1,0] turns the first chain around and extends it
    assert_eq!(s.edges(), vec![[3, 2], [2, 1], [1, 0], [7, 8]]);
}

#[test]
fn edge_set_append_joins_chains() {
    let mut a = EdgeSet::new();
    a.extend(&[[1, 2], [5, 6]]);
    let mut b = EdgeSet::new();
    b.extend(&[[2, 3], [6, 5]]);
    a.append(&mut b);
    assert!(b.is_empty());
    // [2,3] joins [1,2]; [6,5] joins [5,6] closing a loop
    assert_eq!(a.edges(), vec![[1, 2], [2, 3], [6, 5], [5, 6]]);

    let mut empty = EdgeSet::new();
    let mut c = EdgeSet::new();
    c.extend(&[[4, 9]]);
    empty.append(&mut c);
    assert_eq!(empty.edges(), vec![[4, 9]]);
    assert!(c.is_empty());
}

#[test]
fn edge_set_append_consolidates() {
    let mut a = EdgeSet::new();
    a.extend(&[[1, 2], [3, 4]]);
    let mut b = EdgeSet::new();
    b.extend(&[[2, 3]]);
    a.append(&mut b);
    // [2,3] joins [1,2] into 1-2-3, which then meets 3-4
    assert_eq!(a.edges(), vec![[1, 2], [2, 3], [3, 4]]);
}

#[test]
fn shared_incident_edges_corners() {
    let mut a = EdgeSet::new();
    a.extend(&[[1, 2], [2, 3]]);
    let mut b = EdgeSet::new();
    b.extend(&[[3, 7], [7, 8]]);
    // chain 1-2-3 meets chain 3-7-8 at 3
    assert_eq!(a.shared_incident_edges(&b), vec![[2, 3, 7]]);
    let mut c = EdgeSet::new();
    c.extend(&[[10, 11]]);
    assert_eq!(a.shared_incident_edges(&c), Vec::<[usize; 3]>::new());
}

#[test]
fn shared_incident_edges_meeting_at_both_last_vertices() {
    let mut a = EdgeSet::new();
    a.extend(&[[1, 2], [2, 3]]);
    let mut b = EdgeSet::new();
    b.extend(&[[5, 4], [4, 3]]);
    // chain 1-2-3 meets chain 5-4-3 at their last vertex 3
    assert_eq!(a.shared_incident_edges(&b), vec![[2, 3, 4]]);
}

#[test]
fn renumber_charts_in_first_seen_order() {
    let (ids, reps) = renumber_charts(&vec![3, 3, 1, 3, 0, 1]);
    assert_eq!(ids, vec![0, 0, 1, 0, 2, 1]);
    assert_eq!(reps, vec![3, 1, 0]);
}

#[test]
fn push_uniq_skips_present() {
    let mut v = vec![1, 2];
    push_uniq(&mut v, 2);
    assert_eq!(v, vec![1, 2]);
    push_uniq(&mut v, 5);
    assert_eq!(v, vec![1, 2, 5]);
}

#[test]
fn eigenvalue_and_eps_choice() {
    assert_eq!(Eigenvalue::Zero.apply([1.5f64, 2.5, 3.5]), 1.5);
    assert_eq!(Eigenvalue::Two.apply([1.5f64, 2.5, 3.5]), 3.5);
    assert_eq!(OrderingKind::ColorGeomShape.first_eps(0.1f64, 0.2), 0.2);
    assert_eq!(OrderingKind::GeomShapeColor.first_eps(0.1f64, 0.2), 0.1);
}

#[test]
fn link_edge_faces_joins_faces_of_each_edge() {
    let mut m = CollapsibleManifold::new_with(4, |i| i as u32);
    link_edge_faces(&mut m, &vec![vec![0, 1], vec![1, 2, 3], vec![2]]);
    assert_eq!(m.edges[0], vec![1]);
    assert_eq!(m.edges[1], vec![0, 2, 3]);
    assert_eq!(m.edges[2], vec![1, 3]);
    assert_eq!(m.edges[3], vec![1, 2]);
}

#[test]
fn face_chart_adjacency_links_charts_across_edges() {
    let edge_faces = vec![vec![0, 1], vec![1, 2, 3]];
    let adj = face_chart_adjacency(&edge_faces, &[0, 0, 1, 2], 3);
    assert_eq!(adj, vec![vec![1, 2], vec![0, 2], vec![0, 1]]);
    let adj = face_chart_adjacency(&vec![vec![0, 1, 2]], &[0, 2, 1], 3);
    assert_eq!(adj, vec![vec![2, 1], vec![0, 2], vec![0, 1]]);
    let adj = face_chart_adjacency(&vec![vec![0, 1]], &[0, 0], 2);
    assert_eq!(adj, vec![Vec::<usize>::new(), vec![]]);
}
