use texture_to_vert_colors::manifold::{dedup_list, sort_dedup, CollapsibleManifold, EdgeKind};
use texture_to_vert_colors::union_find::UnionFind;

#[test]
fn union_find_absorbs_first_class() {
    let mut uf = UnionFind::new(5);
    assert_eq!(uf.len(), 5);
    assert_eq!(uf.capacity(), 5);
    uf.union(0, 3);
    assert_eq!(uf.find(0), 3);
    assert!(!uf.is_root(0));
    assert!(uf.is_root(3));
    uf.union(3, 4);
    assert_eq!(uf.find(0), 4);
    uf.union(0, 4);
    assert_eq!(uf.len(), 3);
}

#[test]
fn sort_dedup_sorts_distinct() {
    assert_eq!(sort_dedup(&vec![5, 1, 5, 3, 1]), vec![1, 3, 5]);
    assert_eq!(sort_dedup(&vec![]), Vec::<usize>::new());
}

#[test]
fn dedup_list_keeps_first_per_class() {
    let mut uf = UnionFind::new(6);
    uf.union(1, 4);
    uf.union(5, 0);
    // classes: 0 <- {0,5}, 4 <- {1,4}
    assert_eq!(dedup_list(&vec![4, 5, 1, 2, 0], &uf), vec![5, 2, 4]);
}

fn square() -> CollapsibleManifold<u32> {
    let mut m = CollapsibleManifold::new_with(4, |i| (i as u32) * 10);
    m.add_face(&[0, 1, 2, 3]);
    m
}

#[test]
fn add_edge_and_face_link_both_ends() {
    let m = square();
    assert_eq!(m.edges[0], vec![1, 3]);
    assert_eq!(m.edges[2], vec![1, 3]);
    assert_eq!(m.degree(1), 2);
    assert!(m.is_adj(0, 1));
    assert!(!m.is_adj(0, 2));
    let mut m = m;
    m.add_edge(2, 2);
    assert_eq!(m.edges[2], vec![1, 3]);
    assert_eq!(m.ord_edges(), vec![[0, 1], [0, 3], [1, 2], [2, 3]]);
    assert_eq!(m.edges().len(), 8);
}

#[test]
fn merge_moves_first_into_second() {
    let mut m = square();
    assert_eq!(m.num_vertices(), 4);
    m.merge(0, 1, |a, b| a + b);
    assert!(m.is_deleted(0));
    assert!(!m.is_deleted(1));
    assert_eq!(m.num_vertices(), 3);
    assert_eq!(m.get_new_vertex(0), 1);
    assert_eq!(*m.get(0), 10);
    assert_eq!(m.data[0], 10);
    assert_eq!(m.edges[0], Vec::<usize>::new());
    assert_eq!(m.edges[1], vec![2, 3]);
    assert_eq!(m.edges[3], vec![1, 2]);
    assert_eq!(m.vertex_adj(3), vec![1, 2]);
    assert_eq!(m.edges_post_merge(), vec![[1, 2], [1, 3], [2, 3]]);
    let vs: Vec<usize> = m.vertices().into_iter().map(|(v, _)| v).collect();
    assert_eq!(vs, vec![1, 2, 3]);
    m.set(0, 99);
    assert_eq!(*m.get(1), 99);
}

#[test]
fn merge_keeps_the_second_vertex_whatever_the_order() {
    let mut m = square();
    m.merge(1, 0, |a, b| 10 * a + b);
    assert!(m.is_deleted(1));
    assert!(!m.is_deleted(0));
    assert_eq!(m.get_new_vertex(1), 0);
    // the closure gets the data of 1, then that of 0
    assert_eq!(m.data[0], 100);
    assert_eq!(m.data[1], 100);
    assert_eq!(m.edges[1], Vec::<usize>::new());
    assert_eq!(m.edges[0], vec![2, 3]);
}

#[test]
fn shared_one_ring_excludes_ends() {
    let m = square();
    assert_eq!(m.shared_one_ring(0, 2), vec![1, 3]);
    assert_eq!(m.shared_one_ring_deg(0, 1), 2);
    assert_eq!(m.shared_one_ring(0, 1), vec![2, 3]);
    let sided = m.sided_shared_one_ring(0, 1);
    assert_eq!(sided.len(), 2);
    assert!(!sided[0].is_both());
}

#[test]
fn dedup_one_ring_by_class() {
    let mut m = CollapsibleManifold::new_with(4, |i| i);
    m.edges[0] = vec![3, 1, 2];
    m.edges[1] = vec![0];
    m.edges[2] = vec![0];
    m.edges[3] = vec![0];
    m.merge(1, 2, |a, _| *a);
    m.edges[0] = vec![3, 1, 2];
    m.dedup_one_ring(0);
    assert_eq!(m.edges[0], vec![1, 3]);
}

#[test]
fn new_default_has_no_lists() {
    let m: CollapsibleManifold<u8> = CollapsibleManifold::new(3);
    assert_eq!(m.data, vec![0, 0, 0]);
    assert!(m.edges.is_empty());
    assert_eq!(m.num_vertices(), 3);
}

#[test]
fn edge_kind_grows_with_faces() {
    let mut e = EdgeKind::Boundary(4);
    assert!(e.is_boundary());
    assert!(!e.insert(4));
    assert!(e.insert(7));
    assert!(matches!(e, EdgeKind::Manifold([4, 7])));
    assert!(!e.insert(7));
    assert!(e.insert(9));
    assert!(matches!(e, EdgeKind::NonManifold(_)));
    assert_eq!(e.as_slice(), &[4, 7, 9]);
    assert!(e.insert(2));
    assert_eq!(e.as_slice(), &[4, 7, 9, 2]);
    let c = e.clone();
    assert_eq!(c.as_slice(), &[4, 7, 9, 2]);
}

#[test]
fn edge_kind_from_faces() {
    assert!(EdgeKind::from_iter(&[]).is_none());
    let e = EdgeKind::from_iter(&[3, 3]).unwrap();
    assert!(e.is_boundary());
    let e = EdgeKind::from_iter(&[3, 5, 3]).unwrap();
    assert!(matches!(e, EdgeKind::Manifold([3, 5])));
    let e = EdgeKind::from_iter(&[3, 5, 1, 5]).unwrap();
    assert_eq!(e.as_slice(), &[3, 5, 1]);
}

#[test]
fn edge_kind_dedup_by_key() {
    // faces 0..5; faces 1 and 3 are the same face (same key)
    let keys = [10, 20, 30, 20, 5];
    let mut e = EdgeKind::from_iter(&[3, 1, 2]).unwrap();
    e.dedup_by_key(&keys);
    assert!(matches!(e, EdgeKind::Manifold([3, 2])));
    let mut e = EdgeKind::from_iter(&[1, 3]).unwrap();
    e.dedup_by_key(&keys);
    assert!(matches!(e, EdgeKind::Boundary(1)));
    let mut e = EdgeKind::from_iter(&[2, 0, 4, 1]).unwrap();
    e.dedup_by_key(&keys);
    assert_eq!(e.as_slice(), &[4, 0, 1, 2]);
}

#[test]
fn edge_kind_mut_slice_writes_through() {
    let mut e = EdgeKind::from_iter(&[1, 2]).unwrap();
    e.as_mut_slice()[0] = 5;
    assert_eq!(e.as_slice(), &[5, 2]);
    let mut b = EdgeKind::from_iter(&[4]).unwrap();
    b.as_mut_slice()[0] = 7;
    assert_eq!(b.as_slice(), &[7]);
    assert!(b.is_boundary());
    let mut n = EdgeKind::from_iter(&[1, 2, 3]).unwrap();
    n.as_mut_slice()[2] = 9;
    assert_eq!(n.as_slice(), &[1, 2, 9]);
}

#[test]
fn edge_kinds_compare_by_faces() {
    assert_eq!(EdgeKind::from_iter(&[4, 7]), Some(EdgeKind::Manifold([4, 7])));
    assert_ne!(EdgeKind::Boundary(3), EdgeKind::Boundary(4));
    assert_eq!(EdgeKind::from_iter(&[1, 2, 3]), EdgeKind::from_iter(&[1, 2, 3]));
}

#[test]
fn adjacency_stays_sorted_and_symmetric_across_merges() {
    let mut m = CollapsibleManifold::new_with(6, |i| i as u32);
    m.add_face(&[0, 1, 2]);
    m.add_face(&[2, 1, 3]);
    m.add_face(&[3, 4, 5]);
    m.merge(1, 3, |a, b| a + b);
    m.merge(5, 4, |a, b| a + b);
    for v in 0..6 {
        if m.is_deleted(v) {
            assert!(m.edges[v].is_empty());
            continue;
        }
        let adj = m.vertex_adj(v);
        assert!(adj.windows(2).all(|w| w[0] < w[1]));
        assert!(!adj.contains(&v));
        for &w in &adj {
            assert!(!m.is_deleted(w));
            assert!(m.vertex_adj(w).contains(&v));
        }
    }
    assert_eq!(m.vertex_adj(3), vec![0, 2, 4]);
    assert_eq!(m.vertex_adj(4), vec![3]);
}
