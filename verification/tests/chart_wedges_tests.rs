use texture_to_vert_colors::chart_wedges::ChartWedges;

fn wedges_of(t: &ChartWedges, c: usize) -> Option<Vec<[usize; 2]>> {
    t.get(c).cloned()
}

#[test]
fn add_wedge_collects_per_vertex() {
    let mut t = ChartWedges::new();
    t.add_wedge(4, [1, 2]);
    t.add_wedge(4, [5, 6]);
    t.add_wedge(9, [3, 7]);
    assert_eq!(wedges_of(&t, 4), Some(vec![[1, 2], [5, 6]]));
    assert_eq!(wedges_of(&t, 9), Some(vec![[3, 7]]));
    assert_eq!(wedges_of(&t, 1), None);
}

#[test]
fn absorbing_joins_wedges_at_shared_vertices() {
    // around vertex 5: chart a has the wedge 0 -> 1, chart b the wedge 1 -> 2;
    // once merged they form one wedge 0 -> 2.
    let mut a = ChartWedges::new();
    a.add_wedge(5, [0, 1]);
    a.add_wedge(6, [8, 9]);
    let mut b = ChartWedges::new();
    b.add_wedge(5, [1, 2]);
    b.add_wedge(7, [3, 4]);
    a.absorb(b);
    assert_eq!(wedges_of(&a, 5), Some(vec![[0, 2]]));
    assert_eq!(wedges_of(&a, 6), Some(vec![[8, 9]]));
    assert_eq!(wedges_of(&a, 7), Some(vec![[3, 4]]));
}

#[test]
fn absorbing_an_opposite_wedge_closes_the_vertex() {
    // the two charts cover the same wedge from both sides: nothing is left.
    let mut a = ChartWedges::new();
    a.add_wedge(5, [0, 1]);
    let mut b = ChartWedges::new();
    b.add_wedge(5, [1, 0]);
    a.absorb(b);
    assert_eq!(wedges_of(&a, 5), Some(vec![]));
}

#[test]
fn absorbing_unrelated_wedges_keeps_both() {
    let mut a = ChartWedges::new();
    a.add_wedge(5, [0, 1]);
    let mut b = ChartWedges::new();
    b.add_wedge(5, [7, 8]);
    a.absorb(b);
    assert_eq!(wedges_of(&a, 5), Some(vec![[0, 1], [7, 8]]));
}
