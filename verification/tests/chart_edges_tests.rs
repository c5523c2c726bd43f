use texture_to_vert_colors::chart_edges::ChartEdges;
use texture_to_vert_colors::clustering::EdgeSet;
use texture_to_vert_colors::manifold::CollapsibleManifold;

fn edges_of(t: &ChartEdges, k: [usize; 2]) -> Option<Vec<[usize; 2]>> {
    t.get(k).map(|s| s.edges())
}

#[test]
fn extend_at_starts_and_grows_a_pair() {
    let mut t = ChartEdges::new();
    assert_eq!(edges_of(&t, [0, 1]), None);
    t.extend_at([0, 1], &[[5, 6]]);
    t.extend_at([0, 1], &[[6, 7]]);
    assert_eq!(edges_of(&t, [0, 1]), Some(vec![[5, 6], [6, 7]]));
    assert_eq!(edges_of(&t, [1, 0]), None);
}

#[test]
fn remove_takes_the_pair_out() {
    let mut t = ChartEdges::new();
    t.extend_at([2, 3], &[[1, 2]]);
    let s = t.remove([2, 3]).unwrap();
    assert_eq!(s.edges(), vec![[1, 2]]);
    assert!(t.remove([2, 3]).is_none());
    assert_eq!(edges_of(&t, [2, 3]), None);
}

#[test]
fn append_at_moves_chains_in() {
    let mut t = ChartEdges::new();
    t.extend_at([1, 2], &[[6, 7]]);
    let mut o = EdgeSet::new();
    o.extend(&[[7, 9]]);
    t.append_at([1, 2], &mut o);
    assert!(o.is_empty());
    assert_eq!(edges_of(&t, [1, 2]), Some(vec![[6, 7], [7, 9]]));
    let mut p = EdgeSet::new();
    p.extend(&[[3, 4]]);
    t.append_at([4, 5], &mut p);
    assert_eq!(edges_of(&t, [4, 5]), Some(vec![[3, 4]]));
}

#[test]
fn merging_charts_moves_shared_edges() {
    // charts 0, 1, 2 pairwise adjacent; chart 0 is merged into chart 1.
    let mut t = ChartEdges::new();
    t.extend_at([0, 1], &[[5, 6]]);
    t.extend_at([1, 2], &[[6, 7]]);
    t.extend_at([0, 2], &[[7, 9]]);
    t.merge_charts(0, 1, &vec![1, 2]);
    assert_eq!(edges_of(&t, [0, 1]), None);
    assert_eq!(edges_of(&t, [0, 2]), None);
    assert_eq!(edges_of(&t, [1, 2]), Some(vec![[6, 7], [7, 9]]));
}

#[test]
fn merging_onto_a_pair_not_held_yet() {
    // chart 3 touched only chart 0; after merging 0 into 1 it touches 1.
    let mut t = ChartEdges::new();
    t.extend_at([0, 1], &[[1, 2]]);
    t.extend_at([0, 3], &[[4, 5], [5, 6]]);
    t.merge_charts(0, 1, &vec![3, 1]);
    assert_eq!(edges_of(&t, [0, 3]), None);
    assert_eq!(edges_of(&t, [1, 3]), Some(vec![[4, 5], [5, 6]]));
}

#[test]
fn pairs_follow_the_chart_adjacency_across_a_merge() {
    // three charts, pairwise adjacent; a fourth next to chart 0 only
    let mut m = CollapsibleManifold::new_with(4, |i| i as u32);
    m.add_face(&[0, 1, 2]);
    m.add_edge(0, 3);
    let mut t = ChartEdges::new();
    t.extend_at([0, 1], &[[10, 11]]);
    t.extend_at([0, 2], &[[11, 12]]);
    t.extend_at([1, 2], &[[12, 13]]);
    t.extend_at([0, 3], &[[14, 15]]);
    let adj0 = m.vertex_adj(0);
    t.merge_charts(0, 1, &adj0);
    m.merge(0, 1, |a, b| a + b);
    assert_eq!(m.vertex_adj(1), vec![2, 3]);
    assert_eq!(edges_of(&t, [0, 1]), None);
    assert_eq!(edges_of(&t, [0, 2]), None);
    assert_eq!(edges_of(&t, [0, 3]), None);
    assert_eq!(edges_of(&t, [1, 2]), Some(vec![[13, 12], [12, 11]]));
    assert_eq!(edges_of(&t, [1, 3]), Some(vec![[14, 15]]));
}
