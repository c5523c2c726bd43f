use texture_to_vert_colors::corners::{corner_dir, corner_face, corner_polys};

#[test]
fn corner_dir_takes_first_pair_with_an_entry() {
    let d0 = [[1, 2], [3, 4]];
    let d1 = [[5, 6], [7, 8]];
    let dirs = vec![([2, 5], d0), ([2, 9], d1)];
    assert_eq!(corner_dir(&[5, 2, 9], &dirs), Some(d0));
    assert_eq!(corner_dir(&[5, 2, 9], &vec![([2, 9], d1)]), Some(d1));
    assert_eq!(corner_dir(&[5, 2, 9], &vec![([0, 1], d1)]), None);
    assert_eq!(corner_dir(&[], &dirs), None);
}

#[test]
fn corner_triangle_turns_against_gap_edges() {
    let adj: Vec<Vec<usize>> = vec![vec![]; 4];
    assert_eq!(corner_face(&[1, 2, 3], &adj, [[2, 3], [9, 9]]), Ok(vec![3, 2, 1]));
    assert_eq!(corner_face(&[1, 2, 3], &adj, [[7, 8], [8, 7]]), Ok(vec![1, 2, 3]));
}

#[test]
fn corner_quad_walks_links() {
    let adj = vec![vec![1, 3], vec![0, 2], vec![1, 3], vec![2, 0]];
    assert_eq!(corner_face(&[0, 1, 2, 3], &adj, [[4, 5], [5, 4]]), Ok(vec![0, 1, 2, 3]));
    assert_eq!(corner_face(&[0, 1, 2, 3], &adj, [[1, 2], [5, 4]]), Ok(vec![3, 2, 1, 0]));
    // the walk starts at the vertex with the fewest links
    let adj = vec![vec![1, 2, 3], vec![0, 2], vec![3], vec![1, 0]];
    assert_eq!(corner_face(&[0, 1, 2, 3], &adj, [[4, 5], [5, 4]]), Ok(vec![2, 3, 1, 0]));
    // stopping on the last step leaves a triangle
    let adj = vec![vec![1], vec![0], vec![], vec![]];
    assert_eq!(corner_face(&[0, 1, 2, 3], &adj, [[4, 5], [5, 4]]), Err(None));
    let adj = vec![vec![1], vec![0, 2], vec![1, 0], vec![]];
    assert_eq!(corner_face(&[3, 0, 1, 2], &adj, [[4, 5], [5, 4]]), Err(Some(vec![0, 1, 2])));
    let adj: Vec<Vec<usize>> = vec![vec![]; 4];
    assert_eq!(corner_face(&[0, 1, 2, 3], &adj, [[4, 5], [5, 4]]), Err(None));
}

#[test]
fn corner_polys_chain_each_group() {
    let adj = vec![vec![1], vec![0, 2], vec![1, 3], vec![2, 4], vec![3]];
    assert_eq!(corner_polys(&[0, 1, 2, 3, 4], &adj, [[9, 9], [9, 9]]), vec![vec![4, 3, 2, 1, 0]]);
    let adj = vec![vec![1], vec![0, 2], vec![1], vec![4], vec![3, 5], vec![4]];
    assert_eq!(
        corner_polys(&[0, 1, 2, 3, 4, 5], &adj, [[9, 9], [9, 9]]),
        vec![vec![2, 1, 0], vec![3, 4, 5]]
    );
    let adj = vec![vec![1], vec![0], vec![]];
    assert_eq!(corner_polys(&[0, 1, 2], &adj, [[9, 9], [9, 9]]), Vec::<Vec<usize>>::new());
}
