//! Merging two sorted sequences into one, tagging each item by the side(s)
//! it came from and removing duplicates shared by both sides.
use vstd::prelude::*;

verus! {

/// Where an item of a merge came from.
#[derive(Debug, Clone, Copy, PartialEq, Eq)]
pub enum Side<T> {
    Left(T),
    Right(T),
    Both(T),
}

impl<T> Side<T> {
    /// The item carried by a side tag, whichever side it is.
    pub open spec fn value(self) -> T {
        match self {
            Side::Left(v) => v,
            Side::Right(v) => v,
            Side::Both(v) => v,
        }
    }

    pub fn into_inner(self) -> (r: T)
        ensures
            r == self.value(),
    {
        match self {
            Side::Left(v) => v,
            Side::Right(v) => v,
            Side::Both(v) => v,
        }
    }

    pub fn inner(&self) -> (r: &T)
        ensures
            *r == self.value(),
    {
        match self {
            Side::Left(v) => v,
            Side::Right(v) => v,
            Side::Both(v) => v,
        }
    }

    pub fn is_both(&self) -> (r: bool)
        ensures
            r == (*self is Both),
    {
        matches!(self, Side::Both(_))
    }
}

/// The tagged sequence produced by merging `l` and `r`: at each step the
/// smaller head is taken, and equal heads are taken together as `Both`.
pub open spec fn merged(l: Seq<usize>, r: Seq<usize>) -> Seq<Side<usize>>
    decreases l.len() + r.len(),
{
    if l.len() == 0 && r.len() == 0 {
        Seq::empty()
    } else if r.len() == 0 {
        seq![Side::Left(l[0])] + merged(l.drop_first(), r)
    } else if l.len() == 0 {
        seq![Side::Right(r[0])] + merged(l, r.drop_first())
    } else if l[0] == r[0] {
        seq![Side::Both(l[0])] + merged(l.drop_first(), r.drop_first())
    } else if l[0] < r[0] {
        seq![Side::Left(l[0])] + merged(l.drop_first(), r)
    } else {
        seq![Side::Right(r[0])] + merged(l, r.drop_first())
    }
}

/// The plain values of a tagged sequence.
pub open spec fn values(s: Seq<Side<usize>>) -> Seq<usize> {
    s.map_values(|x: Side<usize>| x.value())
}

pub open spec fn strictly_increasing(s: Seq<usize>) -> bool {
    forall|i: int, j: int| 0 <= i < j < s.len() ==> s[i] < s[j]
}


/// Merging two strictly increasing sequences yields their union, strictly
/// increasing and so free of duplicates; an item is tagged `Both` exactly
/// when both sides hold it, `Left` or `Right` when only that side does.
pub proof fn lemma_merged_sorted_union(l: Seq<usize>, r: Seq<usize>)
    requires
        strictly_increasing(l),
        strictly_increasing(r),
    ensures
        strictly_increasing(values(merged(l, r))),
        forall|x: usize| #[trigger]
            values(merged(l, r)).contains(x) <==> (l.contains(x) || r.contains(x)),
        forall|i: int|
            0 <= i < merged(l, r).len() ==> {
                let s = #[trigger] merged(l, r)[i];
                &&& (s is Both) <==> (l.contains(s.value()) && r.contains(s.value()))
                &&& (s is Left) <==> (l.contains(s.value()) && !r.contains(s.value()))
                &&& (s is Right) <==> (!l.contains(s.value()) && r.contains(s.value()))
            },
    decreases l.len() + r.len(),
{
    let m = merged(l, r);
    if l.len() == 0 && r.len() == 0 {
        assert(values(m) =~= Seq::<usize>::empty());
        return;
    }
    let (h, tl, tr) = if r.len() == 0 || (l.len() > 0 && l[0] < r[0]) {
        (Side::Left(l[0]), l.drop_first(), r)
    } else if l.len() == 0 || r[0] < l[0] {
        (Side::Right(r[0]), l, r.drop_first())
    } else {
        (Side::Both(l[0]), l.drop_first(), r.drop_first())
    };
    assert(m == seq![h] + merged(tl, tr));
    assert(strictly_increasing(tl));
    assert(strictly_increasing(tr));
    lemma_merged_sorted_union(tl, tr);
    let rest = merged(tl, tr);
    let v = h.value();
    // every later item is greater than the head
    assert forall|x: usize| tl.contains(x) || tr.contains(x) implies v < x by {
        if tl.contains(x) {
            let k = choose|k: int| 0 <= k < tl.len() && tl[k] == x;
            if l.len() > 0 && tl == l.drop_first() {
                assert(l[k + 1] == x);
            } else {
                assert(l[k] == x);
            }
        } else {
            let k = choose|k: int| 0 <= k < tr.len() && tr[k] == x;
            if r.len() > 0 && tr == r.drop_first() {
                assert(r[k + 1] == x);
            } else {
                assert(r[k] == x);
            }
        }
    }
    assert(values(m) =~= seq![v] + values(rest));
    assert forall|i: int, j: int| 0 <= i < j < values(m).len() implies values(m)[i] < values(m)[j] by {
        if i == 0 {
            assert(values(m)[j] == values(rest)[j - 1]);
            assert(values(rest).contains(values(rest)[j - 1]));
        } else {
            assert(values(m)[i] == values(rest)[i - 1]);
            assert(values(m)[j] == values(rest)[j - 1]);
        }
    }
    assert forall|x: usize| #[trigger]
        values(m).contains(x) <==> (l.contains(x) || r.contains(x)) by {
        if values(m).contains(x) {
            let k = choose|k: int| 0 <= k < values(m).len() && values(m)[k] == x;
            if k > 0 {
                assert(values(rest)[k - 1] == x);
                assert(values(rest).contains(x));
                if tl.contains(x) {
                    let q = choose|q: int| 0 <= q < tl.len() && tl[q] == x;
                    if tl != l { assert(l[q + 1] == x); } else { assert(l[q] == x); }
                } else {
                    let q = choose|q: int| 0 <= q < tr.len() && tr[q] == x;
                    if tr != r { assert(r[q + 1] == x); } else { assert(r[q] == x); }
                }
            } else {
                if h is Right { assert(r[0] == x); } else { assert(l[0] == x); }
            }
        }
        if l.contains(x) || r.contains(x) {
            if x == v {
                assert(values(m)[0] == x);
            } else {
                if l.contains(x) {
                    let q = choose|q: int| 0 <= q < l.len() && l[q] == x;
                    if tl != l {
                        assert(q != 0);
                        assert(tl[q - 1] == x);
                    }
                    assert(tl.contains(x));
                } else {
                    let q = choose|q: int| 0 <= q < r.len() && r[q] == x;
                    if tr != r {
                        assert(q != 0);
                        assert(tr[q - 1] == x);
                    }
                    assert(tr.contains(x));
                }
                assert(values(rest).contains(x));
                let k = choose|k: int| 0 <= k < values(rest).len() && values(rest)[k] == x;
                assert(values(m)[k + 1] == x);
            }
        }
    }
    // membership of the head on each side
    assert(l.contains(v) <==> (h is Left || h is Both)) by {
        if l.contains(v) && h is Right {
            let q = choose|q: int| 0 <= q < l.len() && l[q] == v;
            assert(l[0] <= l[q]);
        }
    }
    assert(r.contains(v) <==> (h is Right || h is Both)) by {
        if r.contains(v) && h is Left {
            let q = choose|q: int| 0 <= q < r.len() && r[q] == v;
            assert(r[0] <= r[q]);
        }
    }
    assert forall|i: int| 0 <= i < m.len() implies {
        let s = #[trigger] m[i];
        &&& (s is Both) <==> (l.contains(s.value()) && r.contains(s.value()))
        &&& (s is Left) <==> (l.contains(s.value()) && !r.contains(s.value()))
        &&& (s is Right) <==> (!l.contains(s.value()) && r.contains(s.value()))
    } by {
        if i > 0 {
            let s = m[i];
            assert(s == rest[i - 1]);
            let x = s.value();
            assert(values(rest)[i - 1] == x);
            assert(values(rest).contains(x));
            assert(v < x);
            assert(l.contains(x) <==> tl.contains(x)) by {
                if l.contains(x) && tl != l {
                    let q = choose|q: int| 0 <= q < l.len() && l[q] == x;
                    assert(q != 0);
                    assert(tl[q - 1] == x);
                }
                if tl.contains(x) && tl != l {
                    let q = choose|q: int| 0 <= q < tl.len() && tl[q] == x;
                    assert(l[q + 1] == x);
                }
            }
            assert(r.contains(x) <==> tr.contains(x)) by {
                if r.contains(x) && tr != r {
                    let q = choose|q: int| 0 <= q < r.len() && r[q] == x;
                    assert(q != 0);
                    assert(tr[q - 1] == x);
                }
                if tr.contains(x) && tr != r {
                    let q = choose|q: int| 0 <= q < tr.len() && tr[q] == x;
                    assert(r[q + 1] == x);
                }
            }
        }
    }
}

/// Merges two sequences of indices into a single sequence of tagged items,
/// removing the duplicates that both sides hold at the same time.
pub struct Merge {
    left: Vec<usize>,
    right: Vec<usize>,
    li: usize,
    ri: usize,
}

impl Merge {
    pub closed spec fn wf(&self) -> bool {
        self.li <= self.left.len() && self.ri <= self.right.len()
    }

    /// What is still to come from the left side.
    pub closed spec fn rest_left(&self) -> Seq<usize> {
        self.left@.subrange(self.li as int, self.left@.len() as int)
    }

    /// What is still to come from the right side.
    pub closed spec fn rest_right(&self) -> Seq<usize> {
        self.right@.subrange(self.ri as int, self.right@.len() as int)
    }

    /// The tagged items that the merge has yet to yield.
    pub open spec fn remaining(&self) -> Seq<Side<usize>> {
        merged(self.rest_left(), self.rest_right())
    }

    pub fn new(l: Vec<usize>, r: Vec<usize>) -> (m: Self)
        ensures
            m.wf(),
            m.rest_left() == l@,
            m.rest_right() == r@,
            m.remaining() == merged(l@, r@),
    {
        let m = Merge { left: l, right: r, li: 0, ri: 0 };
        assert(m.rest_left() =~= l@);
        assert(m.rest_right() =~= r@);
        m
    }

    /// Yields the next tagged item: the smaller of the two heads, or both
    /// heads at once when they are equal.
    pub fn next(&mut self) -> (r: Option<Side<usize>>)
        requires
            old(self).wf(),
        ensures
            final(self).wf(),
            old(self).remaining().len() == 0 ==> r is None && final(self).remaining() == old(
                self,
            ).remaining(),
            old(self).remaining().len() > 0 ==> r == Some(old(self).remaining()[0])
                && final(self).remaining() == old(self).remaining().drop_first(),
    {
        let ghost l = self.rest_left();
        let ghost rr = self.rest_right();
        let lhas = self.li < self.left.len();
        let rhas = self.ri < self.right.len();
        proof {
            reveal_with_fuel(merged, 2);
        }
        if !lhas && !rhas {
            assert(l.len() == 0 && rr.len() == 0);
            return None;
        }
        let out;
        if lhas && rhas {
            let a = self.left[self.li];
            let b = self.right[self.ri];
            if a == b {
                self.li = self.li + 1;
                self.ri = self.ri + 1;
                out = Side::Both(a);
            } else if a < b {
                self.li = self.li + 1;
                out = Side::Left(a);
            } else {
                self.ri = self.ri + 1;
                out = Side::Right(b);
            }
        } else if lhas {
            let a = self.left[self.li];
            self.li = self.li + 1;
            out = Side::Left(a);
        } else {
            let b = self.right[self.ri];
            self.ri = self.ri + 1;
            out = Side::Right(b);
        }
        assert(self.rest_left() =~= if self.li == old(self).li { l } else { l.drop_first() });
        assert(self.rest_right() =~= if self.ri == old(self).ri { rr } else { rr.drop_first() });
        assert(merged(l, rr).len() > 0);
        Some(out)
    }

    /// Yields every remaining tagged item, in order.
    pub fn collect_all(&mut self) -> (r: Vec<Side<usize>>)
        requires
            old(self).wf(),
        ensures
            final(self).wf(),
            r@ == old(self).remaining(),
            final(self).remaining().len() == 0,
    {
        let mut out: Vec<Side<usize>> = Vec::new();
        let ghost all = self.remaining();
        loop
            invariant
                self.wf(),
                all == old(self).remaining(),
                all == out@ + self.remaining(),
            decreases self.remaining().len(),
        {
            let ghost before = self.remaining();
            match self.next() {
                None => {
                    assert(all =~= out@);
                    return out;
                },
                Some(s) => {
                    out.push(s);
                    assert(all =~= out@ + self.remaining()) by {
                        assert(before =~= seq![s] + before.drop_first());
                    }
                },
            }
        }
    }
}

} // verus!
