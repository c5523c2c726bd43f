use texture_to_vert_colors::hysteresis::promote_weak_edges;

fn path_adj(n: usize) -> Vec<Vec<usize>> {
    let mut adj = Vec::new();
    for i in 0..n {
        let mut a = Vec::new();
        if i > 0 {
            a.push(i - 1);
        }
        if i + 1 < n {
            a.push(i + 1);
        }
        adj.push(a);
    }
    adj
}

#[test]
fn weak_chain_is_promoted_through() {
    // 0 strong, 1..=3 weak: the promotion walks along the whole chain.
    let adj = path_adj(4);
    let edge = vec![true, true, true, true];
    let strong = vec![true, false, false, false];
    assert_eq!(promote_weak_edges(&adj, &edge, strong), vec![true, true, true, true]);
}

#[test]
fn non_edge_element_stops_the_promotion() {
    // element 2 failed the lower threshold, so 3 is cut off from 0.
    let adj = path_adj(4);
    let edge = vec![true, true, false, true];
    let strong = vec![true, false, false, false];
    assert_eq!(promote_weak_edges(&adj, &edge, strong), vec![true, true, false, false]);
}

#[test]
fn weak_without_strong_neighbour_stays_weak() {
    let adj = path_adj(3);
    let edge = vec![true, true, true];
    let strong = vec![false, false, false];
    assert_eq!(promote_weak_edges(&adj, &edge, strong), vec![false, false, false]);
}

#[test]
fn promotion_reaches_back_along_the_worklist() {
    // The weak element 2 is examined before its neighbour 1 becomes strong;
    // it is reached again once 1 is promoted.
    let adj = vec![vec![1], vec![0, 2], vec![1]];
    let edge = vec![true, true, true];
    let strong = vec![true, false, false];
    assert_eq!(promote_weak_edges(&adj, &edge, strong), vec![true, true, true]);
}

#[test]
fn strong_marks_are_kept() {
    let adj = vec![vec![], vec![]];
    let edge = vec![false, false];
    let strong = vec![true, false];
    assert_eq!(promote_weak_edges(&adj, &edge, strong), vec![true, false]);
}
