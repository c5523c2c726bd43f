use texture_to_vert_colors::merge::{Merge, Side};

fn collect_values(mut m: Merge) -> Vec<usize> {
    let mut out = Vec::new();
    while let Some(s) = m.next() {
        out.push(s.into_inner());
    }
    out
}

#[test]
fn test_merge() {
    let a: &[usize] = &[0usize, 2, 4];
    let b: &[usize] = &[1usize, 3, 4, 5];
    assert_eq!(
        collect_values(Merge::new(a.to_vec(), b.to_vec())),
        vec![0usize, 1, 2, 3, 4, 5]
    );
}

#[test]
fn merge_tags_each_side() {
    let mut m = Merge::new(vec![1, 3, 5], vec![3, 4]);
    let all = m.collect_all();
    assert_eq!(
        all,
        vec![Side::Left(1), Side::Both(3), Side::Right(4), Side::Left(5)]
    );
    assert!(all[1].is_both());
    assert!(!all[0].is_both());
    assert_eq!(*all[2].inner(), 4);
    assert_eq!(m.next(), None);
}

#[test]
fn merge_of_empty_sides() {
    let mut m = Merge::new(vec![], vec![]);
    assert_eq!(m.next(), None);
    let mut m = Merge::new(vec![7], vec![]);
    assert_eq!(m.next(), Some(Side::Left(7)));
    assert_eq!(m.next(), None);
    let mut m = Merge::new(vec![], vec![2, 9]);
    assert_eq!(m.collect_all(), vec![Side::Right(2), Side::Right(9)]);
}

#[test]
fn merge_unsorted_takes_smaller_head() {
    // heads are compared one pair at a time, whatever follows them
    let mut m = Merge::new(vec![5, 1], vec![3]);
    assert_eq!(
        m.collect_all(),
        vec![Side::Right(3), Side::Left(5), Side::Left(1)]
    );
}
