use texture_to_vert_colors::dithering::error_share;

#[test]
fn share_without_neighbours_is_nothing() {
    assert_eq!(error_share(0, 0), (0, 1));
}

#[test]
fn single_neighbour_takes_everything() {
    assert_eq!(error_share(1, 0), (1, 1));
}

#[test]
fn table_rows() {
    assert_eq!(error_share(2, 0), (3, 4));
    assert_eq!(error_share(2, 1), (1, 4));
    assert_eq!(error_share(3, 2), (3, 8));
    assert_eq!(error_share(4, 0), (7, 16));
    assert_eq!(error_share(4, 2), (5, 16));
    assert_eq!(error_share(5, 0), (15, 32));
    assert_eq!(error_share(5, 1), (2, 32));
    assert_eq!(error_share(5, 4), (5, 32));
}

#[test]
fn many_neighbours_share_equally() {
    assert_eq!(error_share(7, 3), (1, 7));
    assert_eq!(error_share(6, 0), (1, 6));
}

#[test]
fn shares_of_a_row_sum_to_the_whole() {
    for num_adj in 1..12usize {
        let mut total = 0;
        let mut den = 0;
        for ord in 0..num_adj {
            let (n, d) = error_share(num_adj, ord);
            total += n;
            den = d;
        }
        assert_eq!(total, den);
    }
}
