//! The table of error-diffusion shares used when dithering: the neighbours
//! of an element, ranked by weight, each take a fixed fraction of its error.
use vstd::prelude::*;

verus! {

/// The numerators of the shares of `num_adj` ranked neighbours, for the
/// neighbour counts that have a table of their own (two to five).
pub open spec fn share_row(num_adj: nat) -> Seq<nat> {
    if num_adj == 2 {
        seq![3nat, 1]
    } else if num_adj == 3 {
        seq![4nat, 1, 3]
    } else if num_adj == 4 {
        seq![7nat, 1, 5, 3]
    } else {
        seq![15nat, 2, 7, 3, 5]
    }
}

/// The share of the neighbour of rank `ord` among `num_adj`, as a
/// numerator and a denominator: nothing without neighbours, the whole error
/// for a single one, the table's entry over a power of two for two to five,
/// and an equal share beyond.
pub open spec fn share(num_adj: nat, ord: nat) -> (nat, nat) {
    if num_adj == 0 {
        (0, 1)
    } else if num_adj == 1 {
        (1, 1)
    } else if num_adj == 2 {
        (share_row(2)[ord as int], 4)
    } else if num_adj == 3 {
        (share_row(3)[ord as int], 8)
    } else if num_adj == 4 {
        (share_row(4)[ord as int], 16)
    } else if num_adj == 5 {
        (share_row(5)[ord as int], 32)
    } else {
        (1, num_adj)
    }
}

/// The numerators of the first `k` ranks, added up.
pub open spec fn numerators_upto(num_adj: nat, k: nat) -> nat
    decreases k,
{
    if k == 0 {
        0
    } else {
        numerators_upto(num_adj, (k - 1) as nat) + share(num_adj, (k - 1) as nat).0
    }
}

/// The share of the neighbour of rank `ord` (`0` for the heaviest) among
/// `num_adj` ranked neighbours, as `(numerator, denominator)`.
pub fn error_share(num_adj: usize, ord: usize) -> (r: (usize, usize))
    requires
        2 <= num_adj <= 5 ==> ord < num_adj,
    ensures
        r.0 == share(num_adj as nat, ord as nat).0,
        r.1 == share(num_adj as nat, ord as nat).1,
{
    if num_adj == 0 {
        (0, 1)
    } else if num_adj == 1 {
        (1, 1)
    } else if num_adj == 2 {
        let tab: [usize; 2] = [3, 1];
        (tab[ord], 4)
    } else if num_adj == 3 {
        let tab: [usize; 3] = [4, 1, 3];
        (tab[ord], 8)
    } else if num_adj == 4 {
        let tab: [usize; 4] = [7, 1, 5, 3];
        (tab[ord], 16)
    } else if num_adj == 5 {
        let tab: [usize; 5] = [15, 2, 7, 3, 5];
        (tab[ord], 32)
    } else {
        (1, num_adj)
    }
}

proof fn lemma_equal_shares(num_adj: nat, k: nat)
    requires
        num_adj > 5,
    ensures
        numerators_upto(num_adj, k) == k,
    decreases k,
{
    if k > 0 {
        lemma_equal_shares(num_adj, (k - 1) as nat);
    }
}

/// The table of shares, entry by entry: three quarters and a quarter for
/// two neighbours; four, one and three eighths for three; seven, one, five
/// and three sixteenths for four; fifteen, two, seven, three and five
/// thirty-seconds for five; nothing without neighbours, everything for
/// one, and an equal share beyond five.
pub proof fn lemma_share_table(ord: nat, many: nat)
    requires
        many > 5,
    ensures
        share(0, ord) == (0nat, 1nat),
        share(1, ord) == (1nat, 1nat),
        share(2, 0) == (3nat, 4nat),
        share(2, 1) == (1nat, 4nat),
        share(3, 0) == (4nat, 8nat),
        share(3, 1) == (1nat, 8nat),
        share(3, 2) == (3nat, 8nat),
        share(4, 0) == (7nat, 16nat),
        share(4, 1) == (1nat, 16nat),
        share(4, 2) == (5nat, 16nat),
        share(4, 3) == (3nat, 16nat),
        share(5, 0) == (15nat, 32nat),
        share(5, 1) == (2nat, 32nat),
        share(5, 2) == (7nat, 32nat),
        share(5, 3) == (3nat, 32nat),
        share(5, 4) == (5nat, 32nat),
        share(many, ord) == (1nat, many),
{
}

/// Among two to five ranked neighbours, the heaviest (rank 0) takes a
/// strictly larger share than any other, and every share is a proper
/// part: more than nothing and less than the whole.
pub proof fn lemma_heaviest_takes_most(num_adj: nat, ord: nat)
    requires
        2 <= num_adj <= 5,
        0 < ord < num_adj,
    ensures
        share(num_adj, 0).0 > share(num_adj, ord).0,
        share(num_adj, ord).1 == share(num_adj, 0).1,
        0 < share(num_adj, ord).0 < share(num_adj, ord).1,
        0 < share(num_adj, 0).0 < share(num_adj, 0).1,
{
}

/// The shares of all the neighbours of an element add up to its whole
/// error: the numerators of every rank add up to the denominator.
pub proof fn lemma_shares_sum_to_whole(num_adj: nat)
    requires
        num_adj >= 1,
    ensures
        numerators_upto(num_adj, num_adj) == share(num_adj, 0).1,
{
    if num_adj > 5 {
        lemma_equal_shares(num_adj, num_adj);
    } else {
        reveal_with_fuel(numerators_upto, 6);
    }
}

} // verus!
