use texture_to_vert_colors::relaxation::{introduced_entries, ordered_edge};

#[test]
fn ordered_edge_puts_lower_end_first() {
    assert_eq!(ordered_edge(5, 2), [2, 5]);
    assert_eq!(ordered_edge(2, 5), [2, 5]);
    assert_eq!(ordered_edge(3, 3), [3, 3]);
}

#[test]
fn introduced_edge_is_dropped_from_both_ends() {
    // A quad 0-1-2-3 split along the diagonal 0-2.
    let adj = vec![vec![1, 2, 3], vec![0, 2], vec![1, 0, 3], vec![2, 0]];
    let new_edges = vec![[0, 2]];
    let r = introduced_entries(&adj, &new_edges);
    assert_eq!(
        r,
        vec![vec![false, true, false], vec![false, false], vec![false, true, false], vec![false, false]]
    );
}

#[test]
fn no_introduced_edges_drops_nothing() {
    let adj = vec![vec![1], vec![0]];
    let r = introduced_entries(&adj, &vec![]);
    assert_eq!(r, vec![vec![false], vec![false]]);
}

#[test]
fn edges_listed_higher_end_first_are_not_matched() {
    // the set holds edges lower end first; a reversed entry names no edge.
    let adj = vec![vec![1], vec![0]];
    let r = introduced_entries(&adj, &vec![[1, 0]]);
    assert_eq!(r, vec![vec![false], vec![false]]);
}
