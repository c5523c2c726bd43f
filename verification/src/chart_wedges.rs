//! The wedges of each chart around the vertices of its boundary, kept under
//! the vertex, and how the wedges of two charts combine when the charts are
//! merged.
use vstd::prelude::*;
use crate::clustering::{absorb_wedges, absorbed_wedges};
use std::collections::BTreeMap;
use vstd::std_specs::iter::IteratorSpec;

verus! {

/// The wedges of chart `a` after chart `b` is merged into it: where both
/// have wedges around a vertex, those of `b` are added to those of `a`;
/// elsewhere each vertex keeps the wedges it had.
pub open spec fn merged_wedges(a: Map<usize, Seq<[usize; 2]>>, b: Map<usize, Seq<[usize; 2]>>) -> Map<
    usize,
    Seq<[usize; 2]>,
> {
    Map::new(
        |c: usize| a.contains_key(c) || b.contains_key(c),
        |c: usize|
            if b.contains_key(c) {
                if a.contains_key(c) {
                    absorbed_wedges(a[c], b[c])
                } else {
                    b[c]
                }
            } else {
                a[c]
            },
    )
}

/// The wedges of one chart, around each vertex of its boundary.
pub struct ChartWedges {
    around: BTreeMap<usize, Vec<[usize; 2]>>,
}

impl View for ChartWedges {
    type V = Map<usize, Seq<[usize; 2]>>;

    closed spec fn view(&self) -> Map<usize, Seq<[usize; 2]>> {
        self.around@.map_values(|w: Vec<[usize; 2]>| w@)
    }
}

impl ChartWedges {
    /// A chart without wedges.
    pub fn new() -> (r: Self)
        ensures
            r@ == Map::<usize, Seq<[usize; 2]>>::empty(),
    {
        let r = ChartWedges { around: BTreeMap::new() };
        assert(r@ =~= Map::<usize, Seq<[usize; 2]>>::empty());
        r
    }

    /// The wedges around vertex `c`, if it has any entry.
    pub fn get(&self, c: usize) -> (r: Option<&Vec<[usize; 2]>>)
        ensures
            match r {
                Some(w) => self@.contains_key(c) && w@ == self@[c],
                None => !self@.contains_key(c),
            },
    {
        self.around.get(&c)
    }

    fn take(&mut self, c: usize) -> (r: Option<Vec<[usize; 2]>>)
        ensures
            final(self)@ == old(self)@.remove(c),
            match r {
                Some(w) => old(self)@.contains_key(c) && w@ == old(self)@[c],
                None => !old(self)@.contains_key(c),
            },
    {
        let ghost before = self@;
        let r = self.around.remove(&c);
        assert(self@ =~= before.remove(c));
        r
    }

    fn put(&mut self, c: usize, w: Vec<[usize; 2]>)
        ensures
            final(self)@ == old(self)@.insert(c, w@),
    {
        let ghost before = self@;
        let ghost wv = w@;
        self.around.insert(c, w);
        assert(self@ =~= before.insert(c, wv));
    }

    /// Records the wedge `w` (previous and next vertex, in the face's
    /// winding) around vertex `c`, which must not hold it already.
    pub fn add_wedge(&mut self, c: usize, w: [usize; 2])
        requires
            !(old(self)@.contains_key(c) && old(self)@[c].contains(w)),
        ensures
            final(self)@ == old(self)@.insert(
                c,
                if old(self)@.contains_key(c) {
                    old(self)@[c]
                } else {
                    Seq::empty()
                }.push(w),
            ),
    {
        let ghost before = self@;
        let mut list = match self.take(c) {
            Some(l) => l,
            None => Vec::new(),
        };
        list.push(w);
        self.put(c, list);
        assert(self@ =~= before.insert(
            c,
            if before.contains_key(c) {
                before[c]
            } else {
                Seq::empty()
            }.push(w),
        ));
    }

    fn absorb_at(&mut self, c: usize, pns: Vec<[usize; 2]>)
        ensures
            final(self)@ == old(self)@.insert(
                c,
                if old(self)@.contains_key(c) {
                    absorbed_wedges(old(self)@[c], pns@)
                } else {
                    pns@
                },
            ),
    {
        let ghost before = self@;
        match self.take(c) {
            Some(mut opn) => {
                absorb_wedges(&mut opn, &pns);
                self.put(c, opn);
            },
            None => {
                self.put(c, pns);
            },
        }
        assert(self@ =~= before.insert(
            c,
            if before.contains_key(c) {
                absorbed_wedges(before[c], pns@)
            } else {
                pns@
            },
        ));
    }

    /// Merges the wedges of chart `other` into those of this chart, vertex
    /// by vertex in increasing order.
    pub fn absorb(&mut self, other: ChartWedges)
        ensures
            final(self)@ == merged_wedges(old(self)@, other@),
    {
        let ghost target = merged_wedges(self@, other@);
        let mut rest = other;
        let mut ks: Vec<usize> = Vec::new();
        let ghost sq = vstd::std_specs::btree::spec_keys_iter(&rest.around).remaining();
        proof {
            vstd::std_specs::btree::axiom_spec_keys_iter(&rest.around);
        }
        for k in it: rest.around.keys()
            invariant
                it.seq() == sq,
                ks@.len() == it.index(),
                forall|i: int| 0 <= i < ks@.len() ==> ks@[i] == *sq[i],
        {
            ks.push(*k);
        }
        proof {
            assert(ks@ =~= sq.unref());
            assert(ks@.no_duplicates()) by {
                assert forall|a: int, b: int| 0 <= a < b < ks@.len() implies ks@[a] != ks@[b] by {
                    assert(sq[a] != sq[b]);
                }
            }
            assert(ks@.to_set() =~= rest.around@.dom());
        }
        assert(merged_wedges(self@, rest@) == target);
        let mut i: usize = 0;
        while i < ks.len()
            invariant
                i <= ks@.len(),
                ks@.no_duplicates(),
                forall|c: usize| #[trigger] rest@.contains_key(c) <==> exists|j: int| i <= j < ks@.len() && ks@[j] == c,
                merged_wedges(self@, rest@) == target,
            decreases ks@.len() - i,
        {
            let c = ks[i];
            assert(rest@.contains_key(c));
            let ghost before = self@;
            let ghost rb = rest@;
            let pns = rest.take(c).unwrap();
            self.absorb_at(c, pns);
            assert forall|d: usize| #[trigger] rest@.contains_key(d) <==> exists|j: int| i + 1 <= j < ks@.len() && ks@[j] == d by {
                if rest@.contains_key(d) {
                    let j = choose|j: int| i <= j < ks@.len() && ks@[j] == d;
                    assert(j != i);
                }
                if exists|j: int| i + 1 <= j < ks@.len() && ks@[j] == d {
                    let j = choose|j: int| i + 1 <= j < ks@.len() && ks@[j] == d;
                    assert(ks@[j] != ks@[i as int]);
                }
            }
            assert(merged_wedges(self@, rest@) =~= merged_wedges(before, rb));
            i = i + 1;
        }
        assert(rest@ =~= Map::<usize, Seq<[usize; 2]>>::empty());
        assert(merged_wedges(self@, rest@) =~= self@);
    }
}

} // verus!
