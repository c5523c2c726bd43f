//! The edges shared by each pair of charts while faces are clustered, kept
//! under the pair of charts (lower chart first), and how they move when one
//! chart is merged into another.
use vstd::prelude::*;
use vstd::multiset::Multiset;
use std::collections::BTreeMap;
use crate::clustering::{EdgeSet, chains_wf, chains_edge_set, spec_append, extend_all, lemma_append_edges};
use crate::relaxation::{ordered, ordered_edge};
use crate::manifold::{adjacency_ok, merged_adj, merged_neighbour, lemma_merged_contains};
use crate::merge::strictly_increasing;
use crate::union_find::{is_partition, united};

verus! {

/// Whether every value of the map is made of chains with at least one edge.
pub open spec fn all_chains_wf(m: Map<[usize; 2], Seq<Seq<usize>>>) -> bool {
    forall|k: [usize; 2]| #[trigger] m.contains_key(k) ==> chains_wf(m[k])
}

/// The table after the chains shared by chart `a` and chart `e0` are moved
/// onto those shared by `a` and `e1`: unchanged where `a` is `e1`, none
/// where the pair of `a` and `e0` is not held.
pub open spec fn move_one(m: Map<[usize; 2], Seq<Seq<usize>>>, a: usize, e0: usize, e1: usize) -> Option<
    Map<[usize; 2], Seq<Seq<usize>>>,
> {
    if a == e1 {
        Some(m)
    } else {
        let c = ordered(a, e0);
        if !m.contains_key(c) {
            None
        } else {
            let nc = ordered(a, e1);
            let m1 = m.remove(c);
            Some(
                m1.insert(
                    nc,
                    spec_append(
                        if m1.contains_key(nc) {
                            m1[nc]
                        } else {
                            Seq::empty()
                        },
                        m[c],
                    ),
                ),
            )
        }
    }
}

/// The table after the chains shared with `e0` are moved onto `e1` for each
/// of the charts `adj` in turn; none where one of the pairs is not held.
pub open spec fn move_all(m: Map<[usize; 2], Seq<Seq<usize>>>, adj: Seq<usize>, e0: usize, e1: usize) -> Option<
    Map<[usize; 2], Seq<Seq<usize>>>,
>
    decreases adj.len(),
{
    if adj.len() == 0 {
        Some(m)
    } else {
        match move_one(m, adj[0], e0, e1) {
            Some(m1) => move_all(m1, adj.drop_first(), e0, e1),
            None => None,
        }
    }
}

/// Moving the chains shared by `a` and `e0` onto the pair of `a` and `e1`
/// loses no edge: the pair of `a` and `e1` ends with the edges it had and
/// those of the pair of `a` and `e0`, which is no longer held.
pub proof fn lemma_move_keeps_edges(m: Map<[usize; 2], Seq<Seq<usize>>>, a: usize, e0: usize, e1: usize)
    requires
        all_chains_wf(m),
        a != e1,
        move_one(m, a, e0, e1) is Some,
        e0 != e1,
    ensures
        !move_one(m, a, e0, e1).unwrap().contains_key(ordered(a, e0)),
        all_chains_wf(move_one(m, a, e0, e1).unwrap()),
        chains_edge_set(move_one(m, a, e0, e1).unwrap()[ordered(a, e1)]) == chains_edge_set(m[ordered(a, e0)]).add(
            if m.contains_key(ordered(a, e1)) {
                chains_edge_set(m[ordered(a, e1)])
            } else {
                Multiset::empty()
            },
        ),
{
    broadcast use vstd::multiset::group_multiset_axioms;
    let c = ordered(a, e0);
    let nc = ordered(a, e1);
    let base = if m.contains_key(nc) {
        m[nc]
    } else {
        Seq::<Seq<usize>>::empty()
    };
    assert(chains_wf(base));
    assert(chains_wf(m[c]));
    lemma_append_edges(base, m[c]);
    let m2 = move_one(m, a, e0, e1).unwrap();
    assert forall|k: [usize; 2]| #[trigger] m2.contains_key(k) implies chains_wf(m2[k]) by {
        if k != nc {
            assert(m.contains_key(k));
        }
    }
    if !m.contains_key(nc) {
        assert(chains_edge_set(base) =~= Multiset::empty()) by {
            reveal_with_fuel(chains_edge_set, 1);
        }
    }
}

proof fn lemma_move_adds_only_pairs_of_e1(
    m: Map<[usize; 2], Seq<Seq<usize>>>,
    adj: Seq<usize>,
    e0: usize,
    e1: usize,
    k: [usize; 2],
)
    requires
        move_all(m, adj, e0, e1) is Some,
        !m.contains_key(k),
        forall|i: int| 0 <= i < adj.len() && adj[i] != e1 ==> ordered(#[trigger] adj[i], e1) != k,
    ensures
        !move_all(m, adj, e0, e1).unwrap().contains_key(k),
    decreases adj.len(),
{
    if adj.len() > 0 {
        let m1 = move_one(m, adj[0], e0, e1).unwrap();
        assert forall|i: int| 0 <= i < adj.drop_first().len() && adj.drop_first()[i] != e1 implies ordered(
            #[trigger] adj.drop_first()[i],
            e1,
        ) != k by {
            assert(adj.drop_first()[i] == adj[i + 1]);
        }
        lemma_move_adds_only_pairs_of_e1(m1, adj.drop_first(), e0, e1, k);
    }
}

/// Once chart `e0` is merged into chart `e1`, no chart it was listed next
/// to still shares a pair with it: every such pair has been moved onto `e1`.
pub proof fn lemma_merge_leaves_no_pair_with_e0(m: Map<[usize; 2], Seq<Seq<usize>>>, adj: Seq<usize>, e0: usize, e1: usize)
    requires
        e0 != e1,
        move_all(m, adj, e0, e1) is Some,
    ensures
        forall|i: int|
            0 <= i < adj.len() && adj[i] != e1 ==> !move_all(m, adj, e0, e1).unwrap().contains_key(
                ordered(#[trigger] adj[i], e0),
            ),
    decreases adj.len(),
{
    if adj.len() > 0 {
        let m1 = move_one(m, adj[0], e0, e1).unwrap();
        let rest = adj.drop_first();
        lemma_merge_leaves_no_pair_with_e0(m1, rest, e0, e1);
        assert forall|i: int| 0 <= i < adj.len() && adj[i] != e1 implies !move_all(m, adj, e0, e1).unwrap().contains_key(
            ordered(#[trigger] adj[i], e0),
        ) by {
            if i > 0 {
                assert(rest[i - 1] == adj[i]);
            } else {
                assert(!m1.contains_key(ordered(adj[0], e0)));
                assert forall|j: int| 0 <= j < rest.len() && rest[j] != e1 implies ordered(#[trigger] rest[j], e1)
                    != ordered(adj[0], e0) by {
                    assert(adj[0] != e1);
                }
                lemma_move_adds_only_pairs_of_e1(m1, rest, e0, e1, ordered(adj[0], e0));
            }
        }
    }
}

/// Whether the pairs held are exactly the pairs of adjacent charts, the
/// lower chart first.
pub open spec fn pairs_match(m: Map<[usize; 2], Seq<Seq<usize>>>, adj: Seq<Seq<usize>>) -> bool {
    forall|k: [usize; 2]|
        #[trigger] m.contains_key(k) <==> (k[0] < k[1] && (k[0] as int) < adj.len() && adj[k[0] as int].contains(k[1]))
}

/// Whether `k` is the pair of chart `x` with one of the charts of `l`
/// other than `e1`.
pub open spec fn pair_with(l: Seq<usize>, x: usize, e1: usize, k: [usize; 2]) -> bool {
    exists|i: int| 0 <= i < l.len() && l[i] != e1 && #[trigger] ordered(l[i], x) == k
}

proof fn lemma_move_all_keys(m: Map<[usize; 2], Seq<Seq<usize>>>, l: Seq<usize>, e0: usize, e1: usize)
    requires
        e0 != e1,
        l.no_duplicates(),
        !l.contains(e0),
        forall|i: int| 0 <= i < l.len() && l[i] != e1 ==> m.contains_key(ordered(#[trigger] l[i], e0)),
    ensures
        move_all(m, l, e0, e1) is Some,
        forall|k: [usize; 2]|
            #[trigger] move_all(m, l, e0, e1).unwrap().contains_key(k) <==> ((m.contains_key(k) && !pair_with(l, e0, e1, k))
                || pair_with(l, e1, e1, k)),
    decreases l.len(),
{
    if l.len() > 0 {
        let a = l[0];
        let r = l.drop_first();
        assert forall|i: int| 0 <= i < r.len() implies r[i] != e0 && r[i] != a by {
            assert(r[i] == l[i + 1]);
            assert(l[i + 1] != l[0]);
            assert(l.contains(l[i + 1]));
        }
        assert(!r.contains(e0));
        assert(r.no_duplicates()) by {
            assert forall|i: int, j: int| 0 <= i < r.len() && 0 <= j < r.len() && i != j implies r[i] != r[j] by {
                assert(r[i] == l[i + 1] && r[j] == l[j + 1]);
            }
        }
        let m1 = move_one(m, a, e0, e1).unwrap();
        assert forall|i: int| 0 <= i < r.len() && r[i] != e1 implies m1.contains_key(ordered(#[trigger] r[i], e0)) by {
            assert(r[i] == l[i + 1]);
            assert(m.contains_key(ordered(l[i + 1], e0)));
            assert(ordered(r[i], e0) != ordered(a, e0));
            assert(ordered(r[i], e0) != ordered(a, e1));
        }
        lemma_move_all_keys(m1, r, e0, e1);
        assert forall|k: [usize; 2]|
            #[trigger] move_all(m, l, e0, e1).unwrap().contains_key(k) <==> ((m.contains_key(k) && !pair_with(l, e0, e1, k))
                || pair_with(l, e1, e1, k)) by {
            assert(move_all(m, l, e0, e1) == move_all(m1, r, e0, e1));
            if pair_with(l, e0, e1, k) && !pair_with(r, e0, e1, k) {
                let i = choose|i: int| 0 <= i < l.len() && l[i] != e1 && #[trigger] ordered(l[i], e0) == k;
                if i > 0 {
                    assert(r[i - 1] == l[i]);
                    assert(ordered(r[i - 1], e0) == k);
                }
            }
            if pair_with(r, e0, e1, k) {
                let i = choose|i: int| 0 <= i < r.len() && r[i] != e1 && #[trigger] ordered(r[i], e0) == k;
                assert(l[i + 1] == r[i]);
                assert(ordered(l[i + 1], e0) == k);
            }
            if pair_with(l, e1, e1, k) && !pair_with(r, e1, e1, k) {
                let i = choose|i: int| 0 <= i < l.len() && l[i] != e1 && #[trigger] ordered(l[i], e1) == k;
                if i > 0 {
                    assert(r[i - 1] == l[i]);
                    assert(ordered(r[i - 1], e1) == k);
                }
            }
            if pair_with(r, e1, e1, k) {
                let i = choose|i: int| 0 <= i < r.len() && r[i] != e1 && #[trigger] ordered(r[i], e1) == k;
                assert(l[i + 1] == r[i]);
                assert(ordered(l[i + 1], e1) == k);
                assert(ordered(r[i], e1) != ordered(a, e0));
            }
            if a != e1 {
                if k == ordered(a, e1) {
                    assert(ordered(l[0], e1) == k);
                    assert(pair_with(l, e1, e1, k));
                    assert(!pair_with(r, e0, e1, k)) by {
                        if pair_with(r, e0, e1, k) {
                            let i = choose|i: int| 0 <= i < r.len() && r[i] != e1 && #[trigger] ordered(r[i], e0) == k;
                        }
                    }
                }
                if k == ordered(a, e0) {
                    assert(ordered(l[0], e0) == k);
                    assert(pair_with(l, e0, e1, k));
                }
            } else {
                if pair_with(l, e1, e1, k) {
                    let i = choose|i: int| 0 <= i < l.len() && l[i] != e1 && #[trigger] ordered(l[i], e1) == k;
                    assert(i != 0);
                }
                if pair_with(l, e0, e1, k) {
                    let i = choose|i: int| 0 <= i < l.len() && l[i] != e1 && #[trigger] ordered(l[i], e0) == k;
                    assert(i != 0);
                }
            }
        }
    } else {
        assert forall|k: [usize; 2]| !pair_with(l, e0, e1, k) && !pair_with(l, e1, e1, k) by {}
    }
}

/// Merging chart `e0` into chart `e1` keeps the pairs held matched with the
/// adjacency of the charts: where the pairs are exactly the adjacent charts
/// before, dropping the pair of the two and moving the pairs of the charts
/// `e0` lists onto `e1` finds every pair it needs, and leaves exactly the
/// adjacent charts of the merged adjacency.
pub proof fn lemma_merge_keeps_pairs(
    m: Map<[usize; 2], Seq<Seq<usize>>>,
    adj: Seq<Seq<usize>>,
    roots: Seq<usize>,
    e0: usize,
    e1: usize,
)
    requires
        adjacency_ok(adj, roots),
        is_partition(roots),
        pairs_match(m, adj),
        e0 < e1,
        (e1 as int) < adj.len(),
        roots[e0 as int] == e0,
        roots[e1 as int] == e1,
        adj[e0 as int].contains(e1),
    ensures
        m.contains_key([e0, e1]),
        move_all(m.remove([e0, e1]), adj[e0 as int], e0, e1) is Some,
        pairs_match(
            move_all(m.remove([e0, e1]), adj[e0 as int], e0, e1).unwrap(),
            merged_adj(adj, united(roots, e0 as int, e1 as int), e0, e1),
        ),
{
    let n = adj.len();
    let l = adj[e0 as int];
    let m0 = m.remove([e0, e1]);
    assert(m.contains_key([e0, e1]));
    assert(strictly_increasing(l));
    assert(l.no_duplicates()) by {
        assert forall|i: int, j: int| 0 <= i < l.len() && 0 <= j < l.len() && i != j implies l[i] != l[j] by {
            if i < j {
                assert(l[i] < l[j]);
            } else {
                assert(l[j] < l[i]);
            }
        }
    }
    assert(!l.contains(e0)) by {
        if l.contains(e0) {
            let i = choose|i: int| 0 <= i < l.len() && l[i] == e0;
            assert(adj[e0 as int][i] != e0);
        }
    }
    assert forall|i: int| 0 <= i < l.len() && l[i] != e1 implies m0.contains_key(ordered(#[trigger] l[i], e0)) by {
        let a = l[i];
        assert(adj[e0 as int][i] == a);
        assert((a as int) < n && a != e0);
        assert(l.contains(a));
        assert(adj[a as int].contains(e0));
        assert(m.contains_key(ordered(a, e0)));
        assert(ordered(a, e0) != [e0, e1]);
    }
    lemma_move_all_keys(m0, l, e0, e1);
    lemma_merged_contains(adj, roots, e0, e1);
    let res = move_all(m0, l, e0, e1).unwrap();
    let a2 = merged_adj(adj, united(roots, e0 as int, e1 as int), e0, e1);
    assert forall|k: [usize; 2]|
        #[trigger] res.contains_key(k) <==> (k[0] < k[1] && (k[0] as int) < a2.len() && a2[k[0] as int].contains(k[1])) by {
        let x = k[0];
        let y = k[1];
        if pair_with(l, e0, e1, k) {
            let i = choose|i: int| 0 <= i < l.len() && l[i] != e1 && #[trigger] ordered(l[i], e0) == k;
            assert(adj[e0 as int][i] == l[i]);
        }
        if pair_with(l, e1, e1, k) {
            let i = choose|i: int| 0 <= i < l.len() && l[i] != e1 && #[trigger] ordered(l[i], e1) == k;
            assert(adj[e0 as int][i] == l[i]);
            assert((l[i] as int) < n && l[i] != e0);
            assert(l.contains(l[i]));
        }
        if (x as int) < n && adj[x as int].contains(y) {
            let j = choose|j: int| 0 <= j < adj[x as int].len() && adj[x as int][j] == y;
            assert(adj[x as int][j] == y);
            assert(adj[y as int].contains(x));
        }
        if (y as int) < n && adj[y as int].contains(x) {
            let j = choose|j: int| 0 <= j < adj[y as int].len() && adj[y as int][j] == x;
            assert(adj[y as int][j] == x);
        }
        if x < y && (x as int) < n && merged_neighbour(adj, e0, e1, x as int, y) {
            if x == e1 && l.contains(y) && !adj[x as int].contains(y) {
                let i = choose|i: int| 0 <= i < l.len() && l[i] == y;
                assert(ordered(l[i], e1) == k) by {
                    assert(ordered(l[i], e1) =~= k);
                }
                assert(pair_with(l, e1, e1, k));
            }
            if y == e1 && adj[x as int].contains(e0) && !adj[x as int].contains(y) {
                assert(adj[e0 as int].contains(x));
                let i = choose|i: int| 0 <= i < l.len() && l[i] == x;
                assert(ordered(l[i], e1) == k) by {
                    assert(ordered(l[i], e1) =~= k);
                }
                assert(pair_with(l, e1, e1, k));
            }
            if adj[x as int].contains(y) {
                assert(m.contains_key(k));
                assert(k != [e0, e1]);
                if pair_with(l, e0, e1, k) {
                    let i = choose|i: int| 0 <= i < l.len() && l[i] != e1 && #[trigger] ordered(l[i], e0) == k;
                }
            }
        }
        if res.contains_key(k) && m0.contains_key(k) && !pair_with(l, e0, e1, k) {
            assert(m.contains_key(k));
            assert(x < y && adj[x as int].contains(y));
            if x == e0 {
                assert(l.contains(y));
                let i = choose|i: int| 0 <= i < l.len() && l[i] == y;
                if y != e1 {
                    assert(ordered(l[i], e0) == k) by {
                        assert(ordered(l[i], e0) =~= k);
                    }
                } else {
                    assert(k == [e0, e1]) by {
                        assert(k =~= [e0, e1]);
                    }
                }
            }
            if y == e0 {
                assert(adj[e0 as int].contains(x));
                let i = choose|i: int| 0 <= i < l.len() && l[i] == x;
                assert(ordered(l[i], e0) == k) by {
                    assert(ordered(l[i], e0) =~= k);
                }
            }
            assert(merged_neighbour(adj, e0, e1, x as int, y));
        }
    }
}

/// The chains of edges shared by each pair of charts, under the pair.
pub struct ChartEdges {
    pairs: BTreeMap<(usize, usize), EdgeSet>,
}

impl ChartEdges {
    /// Every chain held has at least one edge.
    pub closed spec fn wf(&self) -> bool {
        forall|k: (usize, usize)| #[trigger] self.pairs@.contains_key(k) ==> chains_wf(self.pairs@[k]@)
    }
}

impl View for ChartEdges {
    type V = Map<[usize; 2], Seq<Seq<usize>>>;

    closed spec fn view(&self) -> Map<[usize; 2], Seq<Seq<usize>>> {
        Map::new(|k: [usize; 2]| self.pairs@.contains_key((k[0], k[1])), |k: [usize; 2]| self.pairs@[(k[0], k[1])]@)
    }
}

proof fn lemma_pair_key(a: [usize; 2], b: [usize; 2])
    ensures
        ((a[0], a[1]) == (b[0], b[1])) == (a == b),
{
    if a[0] == b[0] && a[1] == b[1] {
        assert(a =~= b);
    }
}

impl ChartEdges {
    /// A table without any pair.
    pub fn new() -> (r: Self)
        ensures
            r.wf(),
            r@ == Map::<[usize; 2], Seq<Seq<usize>>>::empty(),
    {
        let r = ChartEdges { pairs: BTreeMap::new() };
        assert(r@ =~= Map::<[usize; 2], Seq<Seq<usize>>>::empty());
        r
    }

    /// The chains shared by the pair `k`, if it is held.
    pub fn get(&self, k: [usize; 2]) -> (r: Option<&EdgeSet>)
        requires
            self.wf(),
        ensures
            match r {
                Some(s) => self@.contains_key(k) && s@ == self@[k] && chains_wf(s@),
                None => !self@.contains_key(k),
            },
    {
        self.pairs.get(&(k[0], k[1]))
    }

    /// Takes out the chains of the pair `k`, if it is held.
    pub fn remove(&mut self, k: [usize; 2]) -> (r: Option<EdgeSet>)
        requires
            old(self).wf(),
        ensures
            final(self).wf(),
            final(self)@ == old(self)@.remove(k),
            match r {
                Some(s) => old(self)@.contains_key(k) && s@ == old(self)@[k] && chains_wf(s@),
                None => !old(self)@.contains_key(k),
            },
    {
        let ghost before = self@;
        let r = self.pairs.remove(&(k[0], k[1]));
        assert forall|x: [usize; 2]| #[trigger] self@.contains_key(x) == before.remove(k).contains_key(x) by {
            lemma_pair_key(x, k);
        }
        assert forall|x: [usize; 2]| #[trigger] self@.contains_key(x) implies self@[x] == before.remove(k)[x] by {
            lemma_pair_key(x, k);
        }
        assert(self@ =~= before.remove(k));
        r
    }

    fn push_new(&mut self, k: [usize; 2], s: EdgeSet)
        requires
            old(self).wf(),
            !old(self)@.contains_key(k),
            chains_wf(s@),
        ensures
            final(self).wf(),
            final(self)@ == old(self)@.insert(k, s@),
    {
        let ghost before = self@;
        let ghost sv = s@;
        self.pairs.insert((k[0], k[1]), s);
        assert forall|x: [usize; 2]| #[trigger] self@.contains_key(x) == before.insert(k, sv).contains_key(x) by {
            lemma_pair_key(x, k);
        }
        assert forall|x: [usize; 2]| #[trigger] self@.contains_key(x) implies self@[x] == before.insert(k, sv)[x] by {
            lemma_pair_key(x, k);
        }
        assert(self@ =~= before.insert(k, sv));
    }

    /// Moves the chains of `o` into those of the pair `k`, starting from
    /// none where the pair is not held yet.
    pub fn append_at(&mut self, k: [usize; 2], o: &mut EdgeSet)
        requires
            old(self).wf(),
            chains_wf(old(o)@),
        ensures
            final(self).wf(),
            final(self)@ == old(self)@.insert(
                k,
                spec_append(
                    if old(self)@.contains_key(k) {
                        old(self)@[k]
                    } else {
                        Seq::empty()
                    },
                    old(o)@,
                ),
            ),
            final(o)@ == Seq::<Seq<usize>>::empty(),
    {
        let ghost before = self@;
        let mut set = match self.remove(k) {
            Some(s) => s,
            None => {
                let s = EdgeSet::new();
                assert(chains_wf(s@));
                s
            },
        };
        set.append(o);
        self.push_new(k, set);
        assert(self@ =~= before.insert(
            k,
            spec_append(
                if before.contains_key(k) {
                    before[k]
                } else {
                    Seq::empty()
                },
                old(o)@,
            ),
        ));
    }

    /// Merges chart `e0` into chart `e1`: the pair of the two is dropped, and
    /// for each chart of `adj_e0` in turn, other than `e1`, the chains it
    /// shares with `e0` move onto those it shares with `e1`.
    pub fn merge_charts(&mut self, e0: usize, e1: usize, adj_e0: &Vec<usize>)
        requires
            old(self).wf(),
            e0 < e1,
            old(self)@.contains_key([e0, e1]),
            move_all(old(self)@.remove([e0, e1]), adj_e0@, e0, e1) is Some,
        ensures
            final(self).wf(),
            final(self)@ == move_all(old(self)@.remove([e0, e1]), adj_e0@, e0, e1).unwrap(),
    {
        let _ = self.remove([e0, e1]);
        let ghost target = move_all(self@, adj_e0@, e0, e1);
        assert(adj_e0@.skip(0) =~= adj_e0@);
        let mut i: usize = 0;
        while i < adj_e0.len()
            invariant
                self.wf(),
                i <= adj_e0@.len(),
                target is Some,
                move_all(self@, adj_e0@.skip(i as int), e0, e1) == target,
            decreases adj_e0@.len() - i,
        {
            let a = adj_e0[i];
            assert(adj_e0@.skip(i as int)[0] == a);
            assert(adj_e0@.skip(i as int).drop_first() =~= adj_e0@.skip(i + 1));
            if a != e1 {
                let c = ordered_edge(a, e0);
                let ghost before = self@;
                let mut sce = self.remove(c).unwrap();
                let nc = ordered_edge(a, e1);
                self.append_at(nc, &mut sce);
                assert(self@ =~= move_one(before, a, e0, e1).unwrap());
            }
            i = i + 1;
        }
        assert(adj_e0@.skip(i as int) =~= Seq::<usize>::empty());
    }

    /// Adds the edges `es` to the chains of the pair `k`, starting from
    /// none where the pair is not held yet.
    pub fn extend_at(&mut self, k: [usize; 2], es: &[[usize; 2]])
        requires
            old(self).wf(),
        ensures
            final(self).wf(),
            final(self)@ == old(self)@.insert(
                k,
                extend_all(
                    if old(self)@.contains_key(k) {
                        old(self)@[k]
                    } else {
                        Seq::empty()
                    },
                    es@,
                ),
            ),
    {
        let ghost before = self@;
        let mut set = match self.remove(k) {
            Some(s) => s,
            None => {
                let s = EdgeSet::new();
                assert(chains_wf(s@));
                s
            },
        };
        set.extend(es);
        self.push_new(k, set);
        assert(self@ =~= before.insert(
            k,
            extend_all(
                if before.contains_key(k) {
                    before[k]
                } else {
                    Seq::empty()
                },
                es@,
            ),
        ));
    }
}

} // verus!
