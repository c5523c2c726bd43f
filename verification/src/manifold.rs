//! A mesh representation suited to collapsing vertices: every vertex holds
//! a value and a list of adjacent vertices, and collapsed vertices are
//! tracked by a disjoint-set forest.
use vstd::prelude::*;
use crate::merge::{Merge, Side, merged, values, strictly_increasing};
use crate::union_find::{UnionFind, is_partition, num_classes, united};
use smallvec::SmallVec;

verus! {

// ---------------------------------------------------------------------------
// Sorted sets and deduplication by representative
// ---------------------------------------------------------------------------

/// `r` lists the distinct values of `s`, in increasing order.
pub open spec fn lists_sorted(r: Seq<usize>, s: Seq<usize>) -> bool {
    &&& strictly_increasing(r)
    &&& forall|x: usize| #[trigger] r.contains(x) <==> s.contains(x)
}

/// The distinct values of `s`, in increasing order.
pub open spec fn sorted_set(s: Seq<usize>) -> Seq<usize> {
    choose|r: Seq<usize>| lists_sorted(r, s)
}

/// Two increasing sequences with the same values are the same.
pub proof fn lemma_sorted_unique(a: Seq<usize>, b: Seq<usize>)
    requires
        strictly_increasing(a),
        strictly_increasing(b),
        forall|x: usize| #[trigger] a.contains(x) <==> b.contains(x),
    ensures
        a == b,
    decreases a.len() + b.len(),
{
    if a.len() == 0 {
        if b.len() > 0 {
            assert(b.contains(b[0]));
            assert(!a.contains(b[0]));
        }
        assert(a =~= b);
    } else if b.len() == 0 {
        assert(a.contains(a[0]));
    } else {
        // the first elements are the minima
        assert(a.contains(a[0]));
        assert(b.contains(b[0]));
        assert(a.contains(b[0]));
        assert(b.contains(a[0]));
        let ka = choose|k: int| 0 <= k < a.len() && a[k] == b[0];
        let kb = choose|k: int| 0 <= k < b.len() && b[k] == a[0];
        assert(a[0] <= a[ka]);
        assert(b[0] <= b[kb]);
        assert(a[0] == b[0]);
        let a1 = a.drop_first();
        let b1 = b.drop_first();
        assert forall|x: usize| #[trigger] a1.contains(x) <==> b1.contains(x) by {
            if a1.contains(x) {
                let k = choose|k: int| 0 <= k < a1.len() && a1[k] == x;
                assert(a[k + 1] == x);
                assert(a.contains(x));
                assert(b.contains(x));
                let q = choose|q: int| 0 <= q < b.len() && b[q] == x;
                assert(q != 0);
                assert(b1[q - 1] == x);
            }
            if b1.contains(x) {
                let k = choose|k: int| 0 <= k < b1.len() && b1[k] == x;
                assert(b[k + 1] == x);
                assert(b.contains(x));
                assert(a.contains(x));
                let q = choose|q: int| 0 <= q < a.len() && a[q] == x;
                assert(q != 0);
                assert(a1[q - 1] == x);
            }
        }
        lemma_sorted_unique(a1, b1);
        assert(a =~= seq![a[0]] + a1);
        assert(b =~= seq![b[0]] + b1);
    }
}

proof fn lemma_sorted_set_is(r: Seq<usize>, s: Seq<usize>)
    requires
        lists_sorted(r, s),
    ensures
        sorted_set(s) == r,
{
    let c = sorted_set(s);
    assert(lists_sorted(c, s));
    lemma_sorted_unique(c, r);
}

proof fn lemma_insert_sorted(s: Seq<usize>, p: int, x: usize)
    requires
        strictly_increasing(s),
        0 <= p <= s.len(),
        forall|t: int| 0 <= t < p ==> s[t] < x,
        p < s.len() ==> s[p] > x,
    ensures
        strictly_increasing(s.insert(p, x)),
        forall|y: usize| #[trigger] s.insert(p, x).contains(y) <==> (s.contains(y) || y == x),
{
    s.insert_ensures(p, x);
    let t = s.insert(p, x);
    assert forall|a: int, b: int| 0 <= a < b < t.len() implies t[a] < t[b] by {
        if b < p {
        } else if b == p {
        } else if a < p {
            assert(t[b] == s[b - 1]);
            assert(s[b - 1] >= s[p] || b - 1 == p);
        } else if a == p {
            assert(t[b] == s[b - 1]);
            assert(s[b - 1] >= s[p] || b - 1 == p);
        } else {
            assert(t[a] == s[a - 1]);
            assert(t[b] == s[b - 1]);
        }
    }
    assert forall|y: usize| #[trigger] t.contains(y) <==> (s.contains(y) || y == x) by {
        if t.contains(y) {
            let k = choose|k: int| 0 <= k < t.len() && t[k] == y;
            if k < p {
                assert(s[k] == y);
            } else if k > p {
                assert(s[k - 1] == y);
            }
        }
        if s.contains(y) {
            let k = choose|k: int| 0 <= k < s.len() && s[k] == y;
            if k < p {
                assert(t[k] == y);
            } else {
                assert(t[k + 1] == y);
            }
        }
        if y == x {
            assert(t[p] == x);
        }
    }
}

/// The distinct values of `v`, in increasing order.
pub fn sort_dedup(v: &Vec<usize>) -> (r: Vec<usize>)
    ensures
        r@ == sorted_set(v@),
        lists_sorted(r@, v@),
{
    let mut out: Vec<usize> = Vec::new();
    let mut i: usize = 0;
    while i < v.len()
        invariant
            i <= v@.len(),
            lists_sorted(out@, v@.take(i as int)),
        decreases v@.len() - i,
    {
        let x = v[i];
        let mut p: usize = 0;
        while p < out.len() && out[p] < x
            invariant
                p <= out@.len(),
                forall|t: int| 0 <= t < p ==> out@[t] < x,
            decreases out@.len() - p,
        {
            p = p + 1;
        }
        let ghost before = out@;
        if p < out.len() && out[p] == x {
            assert(out@.contains(x));
        } else {
            proof {
                lemma_insert_sorted(before, p as int, x);
            }
            out.insert(p, x);
        }
        let ghost t1 = v@.take(i + 1);
        let ghost t0 = v@.take(i as int);
        assert(t1 =~= t0.push(x));
        assert forall|y: usize| #[trigger] out@.contains(y) <==> t1.contains(y) by {
            if t1.contains(y) && y != x {
                let k = choose|k: int| 0 <= k < t1.len() && t1[k] == y;
                assert(t0[k] == y);
            }
            if y == x {
                assert(t1[i as int] == x);
            }
            if t0.contains(y) {
                let k = choose|k: int| 0 <= k < t0.len() && t0[k] == y;
                assert(t1[k] == y);
            }
        }
        i = i + 1;
    }
    assert(v@.take(i as int) =~= v@);
    proof {
        lemma_sorted_set_is(out@, v@);
    }
    out
}

/// The index of the first vertex of `s`, from index `i` on, in class `q`;
/// the length of `s` if there is none.
pub open spec fn first_in_class(s: Seq<usize>, roots: Seq<usize>, q: usize, i: int) -> int
    decreases s.len() - i,
{
    if i < 0 || i >= s.len() {
        s.len() as int
    } else if roots[s[i] as int] == q {
        i
    } else {
        first_in_class(s, roots, q, i + 1)
    }
}

pub open spec fn map_roots(s: Seq<usize>, roots: Seq<usize>) -> Seq<usize> {
    s.map_values(|e: usize| roots[e as int])
}

/// `r` keeps, for each class (by `roots`) met in `s`, the first vertex of
/// `s` in that class; ordered by class representative.
pub open spec fn dedups_by_root(r: Seq<usize>, s: Seq<usize>, roots: Seq<usize>) -> bool {
    &&& strictly_increasing(map_roots(r, roots))
    &&& forall|k: int|
        0 <= k < r.len() ==> {
            let f = first_in_class(s, roots, roots[r[k] as int], 0);
            f < s.len() && s[f] == #[trigger] r[k]
        }
    &&& forall|i: int| 0 <= i < s.len() ==> map_roots(r, roots).contains(roots[#[trigger] s[i] as int])
}

/// One vertex per class met in `s`: the first one, by increasing class.
pub open spec fn dedup_by_root(s: Seq<usize>, roots: Seq<usize>) -> Seq<usize> {
    choose|r: Seq<usize>| dedups_by_root(r, s, roots)
}

proof fn lemma_first_in_class(s: Seq<usize>, roots: Seq<usize>, q: usize, i: int)
    requires
        0 <= i,
    ensures
        i <= first_in_class(s, roots, q, i) <= s.len() || (i > s.len() && first_in_class(s, roots, q, i) == s.len()),
        first_in_class(s, roots, q, i) < s.len() ==> roots[s[first_in_class(s, roots, q, i)] as int] == q,
        forall|j: int| i <= j < first_in_class(s, roots, q, i) && j < s.len() ==> roots[s[j] as int] != q,
    decreases s.len() - i,
{
    if i < s.len() && roots[s[i] as int] != q {
        lemma_first_in_class(s, roots, q, i + 1);
    }
}

proof fn lemma_dedup_by_root_unique(a: Seq<usize>, b: Seq<usize>, s: Seq<usize>, roots: Seq<usize>)
    requires
        dedups_by_root(a, s, roots),
        dedups_by_root(b, s, roots),
    ensures
        a == b,
{
    let ra = map_roots(a, roots);
    let rb = map_roots(b, roots);
    assert forall|x: usize| #[trigger] ra.contains(x) implies rb.contains(x) by {
        let k = choose|k: int| 0 <= k < ra.len() && ra[k] == x;
        let f = first_in_class(s, roots, roots[a[k] as int], 0);
        lemma_first_in_class(s, roots, roots[a[k] as int], 0);
        assert(s[f] == a[k]);
        assert(rb.contains(roots[s[f] as int]));
    }
    assert forall|x: usize| #[trigger] rb.contains(x) implies ra.contains(x) by {
        let k = choose|k: int| 0 <= k < rb.len() && rb[k] == x;
        let f = first_in_class(s, roots, roots[b[k] as int], 0);
        lemma_first_in_class(s, roots, roots[b[k] as int], 0);
        assert(s[f] == b[k]);
        assert(ra.contains(roots[s[f] as int]));
    }
    lemma_sorted_unique(ra, rb);
    assert(a.len() == ra.len() && b.len() == rb.len());
    assert forall|k: int| 0 <= k < a.len() implies a[k] == b[k] by {
        assert(ra[k] == rb[k]);
        assert(a[k] == s[first_in_class(s, roots, roots[a[k] as int], 0)]);
        assert(b[k] == s[first_in_class(s, roots, roots[b[k] as int], 0)]);
    }
    assert(a =~= b);
}

proof fn lemma_dedup_by_root_is(r: Seq<usize>, s: Seq<usize>, roots: Seq<usize>)
    requires
        dedups_by_root(r, s, roots),
    ensures
        dedup_by_root(s, roots) == r,
{
    let c = dedup_by_root(s, roots);
    assert(dedups_by_root(c, s, roots));
    lemma_dedup_by_root_unique(c, r, s, roots);
}


proof fn lemma_first_in_class_push(s: Seq<usize>, x: usize, roots: Seq<usize>, q: usize, i: int)
    requires
        0 <= i <= s.len(),
    ensures
        first_in_class(s.push(x), roots, q, i) == (if first_in_class(s, roots, q, i) < s.len() {
            first_in_class(s, roots, q, i)
        } else if roots[x as int] == q {
            s.len() as int
        } else {
            s.len() + 1int
        }),
    decreases s.len() - i,
{
    if i < s.len() {
        assert(s.push(x)[i] == s[i]);
        if roots[s[i] as int] != q {
            lemma_first_in_class_push(s, x, roots, q, i + 1);
        }
    } else {
        assert(s.push(x)[i] == x);
        assert(first_in_class(s.push(x), roots, q, i + 1) == s.len() + 1);
    }
}

/// One vertex of `list` per class of `uf`: the first one met, ordered by
/// class representative.
pub fn dedup_list(list: &Vec<usize>, uf: &UnionFind) -> (r: Vec<usize>)
    requires
        uf.wf(),
        forall|k: int| 0 <= k < list@.len() ==> (#[trigger] list@[k] as int) < uf@.len(),
    ensures
        r@ == dedup_by_root(list@, uf@),
        dedups_by_root(r@, list@, uf@),
        forall|k: int| 0 <= k < r@.len() ==> list@.contains(#[trigger] r@[k]),
{
    let ghost roots = uf@;
    proof {
        uf.lemma_partition();
    }
    let mut out: Vec<usize> = Vec::new();
    let mut i: usize = 0;
    assert(map_roots(out@, roots) =~= Seq::<usize>::empty());
    while i < list.len()
        invariant
            roots == uf@,
            uf.wf(),
            is_partition(roots),
            i <= list@.len(),
            forall|k: int| 0 <= k < list@.len() ==> (#[trigger] list@[k] as int) < uf@.len(),
            dedups_by_root(out@, list@.take(i as int), roots),
            forall|k: int| 0 <= k < out@.len() ==> (#[trigger] out@[k] as int) < roots.len(),
            forall|k: int| 0 <= k < out@.len() ==> list@.take(i as int).contains(#[trigger] out@[k]),
        decreases list@.len() - i,
    {
        let ghost s0 = list@.take(i as int);
        let ghost s1 = list@.take(i + 1);
        let x = list[i];
        assert(s1 =~= s0.push(x));
        let q = uf.find(x);
        let mut p: usize = 0;
        while p < out.len() && uf.find(out[p]) < q
            invariant
                roots == uf@,
                uf.wf(),
                p <= out@.len(),
                forall|k: int| 0 <= k < out@.len() ==> (#[trigger] out@[k] as int) < roots.len(),
                forall|t: int| 0 <= t < p ==> map_roots(out@, roots)[t] < q,
            decreases out@.len() - p,
        {
            p = p + 1;
        }
        let ghost before = out@;
        let ghost mr = map_roots(before, roots);
        let present = p < out.len() && uf.find(out[p]) == q;
        if present {
            // the class of x already has its first vertex
            assert(mr[p as int] == q);
            assert(mr.contains(q));
            assert forall|k: int| 0 <= k < out@.len() implies {
                let f = first_in_class(s1, roots, roots[out@[k] as int], 0);
                f < s1.len() && s1[f] == #[trigger] out@[k]
            } by {
                lemma_first_in_class_push(s0, x, roots, roots[out@[k] as int], 0);
                let f0 = first_in_class(s0, roots, roots[before[k] as int], 0);
                assert(f0 < s0.len() && s0[f0] == before[k]);
                lemma_first_in_class(s0, roots, roots[before[k] as int], 0);
                assert(s1[f0] == s0[f0]);
            }
            assert forall|j: int| 0 <= j < s1.len() implies map_roots(out@, roots).contains(roots[#[trigger] s1[j] as int]) by {
                if j < s0.len() {
                    assert(s1[j] == s0[j]);
                }
            }
            assert forall|k: int| 0 <= k < out@.len() implies s1.contains(#[trigger] out@[k]) by {
                assert(s0.contains(out@[k]));
                let t = choose|t: int| 0 <= t < s0.len() && s0[t] == out@[k];
                assert(s1[t] == out@[k]);
            }
        } else {
            proof {
                assert(p < mr.len() ==> mr[p as int] > q);
                lemma_insert_sorted(mr, p as int, q);
                // no vertex met so far is in the class of x
                assert forall|j: int| 0 <= j < s0.len() implies roots[s0[j] as int] != q by {
                    assert(mr.contains(roots[s0[j] as int]));
                    if roots[s0[j] as int] == q {
                        let t = choose|t: int| 0 <= t < mr.len() && mr[t] == q;
                        if t < p {
                        } else {
                            assert(mr[t] >= mr[p as int] || t == p);
                        }
                    }
                }
                lemma_first_in_class(s0, roots, q, 0);
                lemma_first_in_class_push(s0, x, roots, q, 0);
            }
            out.insert(p, x);
            assert(map_roots(out@, roots) =~= mr.insert(p as int, q));
            proof {
                before.insert_ensures(p as int, x);
                mr.insert_ensures(p as int, q);
            }
            assert forall|k: int| 0 <= k < out@.len() implies {
                let f = first_in_class(s1, roots, roots[out@[k] as int], 0);
                f < s1.len() && s1[f] == #[trigger] out@[k]
            } by {
                if k == p as int {
                    assert(out@[k] == x);
                } else {
                    let kk = if k < p as int { k } else { k - 1 };
                    assert(out@[k] == before[kk]);
                    lemma_first_in_class_push(s0, x, roots, roots[before[kk] as int], 0);
                    let f0 = first_in_class(s0, roots, roots[before[kk] as int], 0);
                    assert(f0 < s0.len() && s0[f0] == before[kk]);
                    lemma_first_in_class(s0, roots, roots[before[kk] as int], 0);
                    assert(s1[f0] == s0[f0]);
                }
            }
            assert forall|j: int| 0 <= j < s1.len() implies map_roots(out@, roots).contains(roots[#[trigger] s1[j] as int]) by {
                if j < s0.len() {
                    assert(s1[j] == s0[j]);
                    assert(mr.contains(roots[s0[j] as int]));
                } else {
                    assert(s1[j] == x);
                    assert(map_roots(out@, roots)[p as int] == q);
                }
            }
            assert forall|k: int| 0 <= k < out@.len() implies s1.contains(#[trigger] out@[k]) by {
                if k == p as int {
                    assert(s1[i as int] == x);
                } else {
                    let kk = if k < p as int { k } else { k - 1 };
                    assert(out@[k] == before[kk]);
                    assert(s0.contains(before[kk]));
                    let t = choose|t: int| 0 <= t < s0.len() && s0[t] == before[kk];
                    assert(s1[t] == before[kk]);
                }
            }
            assert forall|k: int| 0 <= k < out@.len() implies (#[trigger] out@[k] as int) < roots.len() by {
                if k != p as int {
                    let kk = if k < p as int { k } else { k - 1 };
                    assert(out@[k] == before[kk]);
                }
            }
        }
        i = i + 1;
    }
    assert(list@.take(i as int) =~= list@);
    proof {
        lemma_dedup_by_root_is(out@, list@, roots);
    }
    out
}

/// One entry of `list` per key (`keys[x]` being the key of `x`): the
/// first one met, ordered by key.
pub fn dedup_keys(list: &[usize], keys: &[usize]) -> (r: Vec<usize>)
    requires
        forall|k: int| 0 <= k < list@.len() ==> (#[trigger] list@[k] as int) < keys@.len(),
    ensures
        r@ == dedup_by_root(list@, keys@),
        dedups_by_root(r@, list@, keys@),
        forall|k: int| 0 <= k < r@.len() ==> list@.contains(#[trigger] r@[k]),
{
    let ghost roots = keys@;
    let mut out: Vec<usize> = Vec::new();
    let mut i: usize = 0;
    assert(map_roots(out@, roots) =~= Seq::<usize>::empty());
    while i < list.len()
        invariant
            roots == keys@,
            i <= list@.len(),
            forall|k: int| 0 <= k < list@.len() ==> (#[trigger] list@[k] as int) < keys@.len(),
            dedups_by_root(out@, list@.take(i as int), roots),
            forall|k: int| 0 <= k < out@.len() ==> (#[trigger] out@[k] as int) < roots.len(),
            forall|k: int| 0 <= k < out@.len() ==> list@.take(i as int).contains(#[trigger] out@[k]),
        decreases list@.len() - i,
    {
        let ghost s0 = list@.take(i as int);
        let ghost s1 = list@.take(i + 1);
        let x = list[i];
        assert(s1 =~= s0.push(x));
        let q = keys[x];
        let mut p: usize = 0;
        while p < out.len() && keys[out[p]] < q
            invariant
                roots == keys@,
                p <= out@.len(),
                forall|k: int| 0 <= k < out@.len() ==> (#[trigger] out@[k] as int) < roots.len(),
                forall|t: int| 0 <= t < p ==> map_roots(out@, roots)[t] < q,
            decreases out@.len() - p,
        {
            p = p + 1;
        }
        let ghost before = out@;
        let ghost mr = map_roots(before, roots);
        let present = p < out.len() && keys[out[p]] == q;
        if present {
            // the class of x already has its first vertex
            assert(mr[p as int] == q);
            assert(mr.contains(q));
            assert forall|k: int| 0 <= k < out@.len() implies {
                let f = first_in_class(s1, roots, roots[out@[k] as int], 0);
                f < s1.len() && s1[f] == #[trigger] out@[k]
            } by {
                lemma_first_in_class_push(s0, x, roots, roots[out@[k] as int], 0);
                let f0 = first_in_class(s0, roots, roots[before[k] as int], 0);
                assert(f0 < s0.len() && s0[f0] == before[k]);
                lemma_first_in_class(s0, roots, roots[before[k] as int], 0);
                assert(s1[f0] == s0[f0]);
            }
            assert forall|j: int| 0 <= j < s1.len() implies map_roots(out@, roots).contains(roots[#[trigger] s1[j] as int]) by {
                if j < s0.len() {
                    assert(s1[j] == s0[j]);
                }
            }
            assert forall|k: int| 0 <= k < out@.len() implies s1.contains(#[trigger] out@[k]) by {
                assert(s0.contains(out@[k]));
                let t = choose|t: int| 0 <= t < s0.len() && s0[t] == out@[k];
                assert(s1[t] == out@[k]);
            }
        } else {
            proof {
                assert(p < mr.len() ==> mr[p as int] > q);
                lemma_insert_sorted(mr, p as int, q);
                // no vertex met so far is in the class of x
                assert forall|j: int| 0 <= j < s0.len() implies roots[s0[j] as int] != q by {
                    assert(mr.contains(roots[s0[j] as int]));
                    if roots[s0[j] as int] == q {
                        let t = choose|t: int| 0 <= t < mr.len() && mr[t] == q;
                        if t < p {
                        } else {
                            assert(mr[t] >= mr[p as int] || t == p);
                        }
                    }
                }
                lemma_first_in_class(s0, roots, q, 0);
                lemma_first_in_class_push(s0, x, roots, q, 0);
            }
            out.insert(p, x);
            assert(map_roots(out@, roots) =~= mr.insert(p as int, q));
            proof {
                before.insert_ensures(p as int, x);
                mr.insert_ensures(p as int, q);
            }
            assert forall|k: int| 0 <= k < out@.len() implies {
                let f = first_in_class(s1, roots, roots[out@[k] as int], 0);
                f < s1.len() && s1[f] == #[trigger] out@[k]
            } by {
                if k == p as int {
                    assert(out@[k] == x);
                } else {
                    let kk = if k < p as int { k } else { k - 1 };
                    assert(out@[k] == before[kk]);
                    lemma_first_in_class_push(s0, x, roots, roots[before[kk] as int], 0);
                    let f0 = first_in_class(s0, roots, roots[before[kk] as int], 0);
                    assert(f0 < s0.len() && s0[f0] == before[kk]);
                    lemma_first_in_class(s0, roots, roots[before[kk] as int], 0);
                    assert(s1[f0] == s0[f0]);
                }
            }
            assert forall|j: int| 0 <= j < s1.len() implies map_roots(out@, roots).contains(roots[#[trigger] s1[j] as int]) by {
                if j < s0.len() {
                    assert(s1[j] == s0[j]);
                    assert(mr.contains(roots[s0[j] as int]));
                } else {
                    assert(s1[j] == x);
                    assert(map_roots(out@, roots)[p as int] == q);
                }
            }
            assert forall|k: int| 0 <= k < out@.len() implies s1.contains(#[trigger] out@[k]) by {
                if k == p as int {
                    assert(s1[i as int] == x);
                } else {
                    let kk = if k < p as int { k } else { k - 1 };
                    assert(out@[k] == before[kk]);
                    assert(s0.contains(before[kk]));
                    let t = choose|t: int| 0 <= t < s0.len() && s0[t] == before[kk];
                    assert(s1[t] == before[kk]);
                }
            }
            assert forall|k: int| 0 <= k < out@.len() implies (#[trigger] out@[k] as int) < roots.len() by {
                if k != p as int {
                    let kk = if k < p as int { k } else { k - 1 };
                    assert(out@[k] == before[kk]);
                }
            }
        }
        i = i + 1;
    }
    assert(list@.take(i as int) =~= list@);
    proof {
        lemma_dedup_by_root_is(out@, list@, roots);
    }
    out
}


// ---------------------------------------------------------------------------
// Specifications of the adjacency updates
// ---------------------------------------------------------------------------

/// The adjacency after adding the edge `v0`–`v1`: each end's list becomes
/// the sorted set of its old entries and the other end. A loop adds nothing.
pub open spec fn add_edge_adj(adj: Seq<Seq<usize>>, v0: usize, v1: usize) -> Seq<Seq<usize>> {
    if v0 == v1 {
        adj
    } else {
        adj.update(v0 as int, sorted_set(adj[v0 as int].push(v1))).update(
            v1 as int,
            sorted_set(adj[v1 as int].push(v0)),
        )
    }
}

/// The adjacency after adding the first `k` edges of polygon `f`.
pub open spec fn add_face_adj(adj: Seq<Seq<usize>>, f: Seq<usize>, k: int) -> Seq<Seq<usize>>
    decreases k,
{
    if k <= 0 {
        adj
    } else {
        let e = crate::clustering::face_edge(f, k - 1);
        add_edge_adj(add_face_adj(adj, f, k - 1), e[0], e[1])
    }
}

/// `s` without the occurrences of `x`.
pub open spec fn drop_value(s: Seq<usize>, x: usize) -> Seq<usize>
    decreases s.len(),
{
    if s.len() == 0 {
        s
    } else {
        drop_value(s.drop_last(), x) + (if s.last() == x { Seq::empty() } else { seq![s.last()] })
    }
}

/// `s` without the occurrences of `a` and of `b`.
pub open spec fn drop_two(s: Seq<usize>, a: usize, b: usize) -> Seq<usize>
    decreases s.len(),
{
    if s.len() == 0 {
        s
    } else {
        drop_two(s.drop_last(), a, b) + (if s.last() == a || s.last() == b {
            Seq::empty()
        } else {
            seq![s.last()]
        })
    }
}

/// `s` without the items whose value is `a` or `b`.
pub open spec fn drop_two_sided(s: Seq<Side<usize>>, a: usize, b: usize) -> Seq<Side<usize>>
    decreases s.len(),
{
    if s.len() == 0 {
        s
    } else {
        drop_two_sided(s.drop_last(), a, b) + (if s.last().value() == a || s.last().value() == b {
            Seq::empty()
        } else {
            seq![s.last()]
        })
    }
}

proof fn lemma_drop_two_contains(s: Seq<usize>, a: usize, b: usize)
    ensures
        forall|y: usize| #[trigger] drop_two(s, a, b).contains(y) <==> (s.contains(y) && y != a && y != b),
    decreases s.len(),
{
    if s.len() > 0 {
        let s0 = s.drop_last();
        lemma_drop_two_contains(s0, a, b);
        let tail = if s.last() == a || s.last() == b { Seq::<usize>::empty() } else { seq![s.last()] };
        assert forall|y: usize| #[trigger] drop_two(s, a, b).contains(y) <==> (s.contains(y) && y != a && y != b) by {
            let d = drop_two(s, a, b);
            let d0 = drop_two(s0, a, b);
            assert(d == d0 + tail);
            if d.contains(y) {
                let i = choose|i: int| 0 <= i < d.len() && d[i] == y;
                if i < d0.len() {
                    assert(d0[i] == y);
                    assert(d0.contains(y));
                    let j = choose|j: int| 0 <= j < s0.len() && s0[j] == y;
                    assert(s[j] == y);
                } else {
                    assert(tail[i - d0.len()] == y);
                    assert(s[s.len() - 1] == y);
                }
            }
            if s.contains(y) && y != a && y != b {
                let j = choose|j: int| 0 <= j < s.len() && s[j] == y;
                if j < s0.len() {
                    assert(s0[j] == y);
                    assert(d0.contains(y));
                    let i = choose|i: int| 0 <= i < d0.len() && d0[i] == y;
                    assert(d[i] == y);
                } else {
                    assert(d[d.len() - 1] == y);
                }
            }
        }
    }
}

/// The new list of the surviving vertex `dst` when `src` is merged into it:
/// the classes adjacent to either, other than `dst` itself.
pub open spec fn merged_list(adj: Seq<Seq<usize>>, roots2: Seq<usize>, src: usize, dst: usize) -> Seq<usize> {
    sorted_set(drop_value(map_roots(adj[dst as int] + adj[src as int], roots2), dst))
}

/// The adjacency after merging `src` into `dst`, `roots2` being the
/// classes after the merge: `src` loses its list, `dst` gets the merged
/// list, and each vertex on that list has its entries replaced by their
/// classes, sorted and without repeats.
pub open spec fn merged_adj(adj: Seq<Seq<usize>>, roots2: Seq<usize>, src: usize, dst: usize) -> Seq<Seq<usize>> {
    let nd = merged_list(adj, roots2, src, dst);
    Seq::new(
        adj.len(),
        |u: int|
            if u == src as int {
                Seq::empty()
            } else if u == dst as int {
                nd
            } else if nd.contains(u as usize) {
                sorted_set(map_roots(adj[u], roots2))
            } else {
                adj[u]
            },
    )
}

/// Every `[src, dst]` pair of the adjacency lists, list after list.
pub open spec fn all_pairs(adj: Seq<Seq<usize>>) -> Seq<[usize; 2]>
    decreases adj.len(),
{
    if adj.len() == 0 {
        Seq::empty()
    } else {
        all_pairs(adj.drop_last()) + adj.last().map_values(|d: usize| [(adj.len() - 1) as usize, d])
    }
}

/// The pairs whose first entry is smaller than the second.
pub open spec fn increasing_pairs(s: Seq<[usize; 2]>) -> Seq<[usize; 2]>
    decreases s.len(),
{
    if s.len() == 0 {
        s
    } else {
        increasing_pairs(s.drop_last()) + (if s.last()[0] < s.last()[1] {
            seq![s.last()]
        } else {
            Seq::empty()
        })
    }
}

/// The indices below `k` that represent their class, in increasing order.
pub open spec fn roots_below(roots: Seq<usize>, k: int) -> Seq<usize>
    decreases k,
{
    if k <= 0 {
        Seq::empty()
    } else {
        roots_below(roots, k - 1) + (if roots[k - 1] as int == k - 1 {
            seq![(k - 1) as usize]
        } else {
            Seq::empty()
        })
    }
}

// ---------------------------------------------------------------------------
// The invariant of the adjacency lists
// ---------------------------------------------------------------------------

/// The invariant the adjacency lists keep: one list per vertex; a deleted
/// vertex has an empty list; each list is strictly increasing, holds only
/// remaining vertices and never the vertex itself; and a vertex lists
/// another exactly when the other lists it.
pub open spec fn adjacency_ok(adj: Seq<Seq<usize>>, roots: Seq<usize>) -> bool {
    &&& adj.len() == roots.len()
    &&& forall|v: int| 0 <= v < adj.len() && roots[v] != v ==> #[trigger] adj[v].len() == 0
    &&& forall|v: int| 0 <= v < adj.len() ==> strictly_increasing(#[trigger] adj[v])
    &&& forall|v: int, k: int|
        0 <= v < adj.len() && 0 <= k < adj[v].len() ==> {
            &&& (#[trigger] adj[v][k] as int) < roots.len()
            &&& roots[adj[v][k] as int] == adj[v][k]
            &&& adj[v][k] != v
        }
    &&& forall|u: int, w: usize| 0 <= u < adj.len() && #[trigger] adj[u].contains(w) ==> adj[w as int].contains(u as usize)
}

proof fn lemma_push_contains(s: Seq<usize>, x: usize)
    ensures
        forall|y: usize| #[trigger] s.push(x).contains(y) <==> (s.contains(y) || y == x),
{
    assert forall|y: usize| #[trigger] s.push(x).contains(y) <==> (s.contains(y) || y == x) by {
        if s.push(x).contains(y) {
            let k = choose|k: int| 0 <= k < s.push(x).len() && s.push(x)[k] == y;
            if k < s.len() {
                assert(s[k] == y);
            }
        }
        if s.contains(y) {
            let k = choose|k: int| 0 <= k < s.len() && s[k] == y;
            assert(s.push(x)[k] == y);
        }
        if y == x {
            assert(s.push(x)[s.len() as int] == y);
        }
    }
}

proof fn lemma_map_roots_contains(s: Seq<usize>, roots: Seq<usize>)
    ensures
        forall|y: usize| #[trigger] map_roots(s, roots).contains(y) <==> exists|k: int| 0 <= k < s.len() && roots[s[k] as int] == y,
{
    assert forall|y: usize| #[trigger] map_roots(s, roots).contains(y) <==> exists|k: int| 0 <= k < s.len() && roots[s[k] as int] == y by {
        if map_roots(s, roots).contains(y) {
            let k = choose|k: int| 0 <= k < map_roots(s, roots).len() && map_roots(s, roots)[k] == y;
            assert(roots[s[k] as int] == y);
        }
        if exists|k: int| 0 <= k < s.len() && roots[s[k] as int] == y {
            let k = choose|k: int| 0 <= k < s.len() && roots[s[k] as int] == y;
            assert(map_roots(s, roots)[k] == y);
        }
    }
}

/// A strictly increasing list of remaining vertices is its own list of
/// classes, and deduplicating it by class leaves it as it is.
pub proof fn lemma_root_list_is_own_dedup(s: Seq<usize>, roots: Seq<usize>)
    requires
        strictly_increasing(s),
        forall|k: int| 0 <= k < s.len() ==> (#[trigger] s[k] as int) < roots.len() && roots[s[k] as int] == s[k],
    ensures
        map_roots(s, roots) == s,
        dedup_by_root(s, roots) == s,
{
    assert(map_roots(s, roots) =~= s);
    assert forall|k: int| 0 <= k < s.len() implies {
        let f = first_in_class(s, roots, roots[s[k] as int], 0);
        f < s.len() && s[f] == #[trigger] s[k]
    } by {
        lemma_first_in_class(s, roots, s[k], 0);
        let f = first_in_class(s, roots, s[k], 0);
        if f > k {
            assert(roots[s[k] as int] != s[k]);
        }
        assert(roots[s[f] as int] == s[k]);
        assert(s[f] == s[k]);
    }
    assert forall|i: int| 0 <= i < s.len() implies map_roots(s, roots).contains(roots[#[trigger] s[i] as int]) by {
        assert(map_roots(s, roots)[i] == s[i]);
    }
    lemma_dedup_by_root_is(s, s, roots);
}

/// Under the invariant, deduplicating any list by class leaves it as it is.
pub proof fn lemma_dedup_keeps_lists(adj: Seq<Seq<usize>>, roots: Seq<usize>)
    requires
        adjacency_ok(adj, roots),
    ensures
        forall|u: int| 0 <= u < adj.len() ==> #[trigger] dedup_by_root(adj[u], roots) == adj[u],
        forall|u: int| 0 <= u < adj.len() ==> #[trigger] map_roots(adj[u], roots) == adj[u],
{
    assert forall|u: int| 0 <= u < adj.len() implies #[trigger] dedup_by_root(adj[u], roots) == adj[u] && map_roots(adj[u], roots) == adj[u] by {
        assert(strictly_increasing(adj[u]));
        lemma_root_list_is_own_dedup(adj[u], roots);
    }
}

proof fn lemma_add_edge_keeps(adj: Seq<Seq<usize>>, roots: Seq<usize>, v0: usize, v1: usize)
    requires
        adjacency_ok(adj, roots),
        v0 != v1,
        v0 < adj.len(),
        v1 < adj.len(),
        roots[v0 as int] == v0,
        roots[v1 as int] == v1,
    ensures
        adjacency_ok(add_edge_adj(adj, v0, v1), roots),
{
    let a2 = add_edge_adj(adj, v0, v1);
    lemma_sorted_set(adj[v0 as int].push(v1));
    lemma_sorted_set(adj[v1 as int].push(v0));
    lemma_push_contains(adj[v0 as int], v1);
    lemma_push_contains(adj[v1 as int], v0);
    assert(a2[v0 as int] == sorted_set(adj[v0 as int].push(v1)));
    assert(a2[v1 as int] == sorted_set(adj[v1 as int].push(v0)));
    // what each list holds
    assert forall|u: int, y: usize| 0 <= u < adj.len() implies #[trigger] a2[u].contains(y) == (adj[u].contains(y) || (
    u == v0 as int && y == v1) || (u == v1 as int && y == v0)) by {
        if u != v0 as int && u != v1 as int {
            assert(a2[u] == adj[u]);
        }
    }
    assert forall|v: int| 0 <= v < a2.len() && roots[v] != v implies #[trigger] a2[v].len() == 0 by {
        assert(a2[v] == adj[v]);
    }
    assert forall|v: int| 0 <= v < a2.len() implies strictly_increasing(#[trigger] a2[v]) by {
        if v != v0 as int && v != v1 as int {
            assert(a2[v] == adj[v]);
        }
    }
    assert forall|v: int, k: int| 0 <= v < a2.len() && 0 <= k < a2[v].len() implies {
        &&& (#[trigger] a2[v][k] as int) < roots.len()
        &&& roots[a2[v][k] as int] == a2[v][k]
        &&& a2[v][k] != v
    } by {
        let x = a2[v][k];
        assert(a2[v].contains(x));
        if adj[v].contains(x) {
            let j = choose|j: int| 0 <= j < adj[v].len() && adj[v][j] == x;
            assert(adj[v][j] == x);
        }
    }
    assert forall|u: int, w: usize| 0 <= u < a2.len() && #[trigger] a2[u].contains(w) implies a2[w as int].contains(u as usize) by {
        if adj[u].contains(w) {
            let j = choose|j: int| 0 <= j < adj[u].len() && adj[u][j] == w;
            assert((adj[u][j] as int) < roots.len());
            assert(adj[w as int].contains(u as usize));
        }
    }
}

/// What the list of `u` holds after `v0` is merged into `v1`: the
/// neighbours of the merged graph, where `v0` stands in `v1`.
pub open spec fn merged_neighbour(adj: Seq<Seq<usize>>, v0: usize, v1: usize, u: int, y: usize) -> bool {
    &&& u != v0 as int
    &&& y != v0
    &&& u != y as int
    &&& (adj[u].contains(y) || (u == v1 as int && adj[v0 as int].contains(y)) || (y == v1 && adj[u].contains(v0)))
}

/// What each list holds once `v0` is merged into `v1`: see
/// `merged_neighbour`.
pub proof fn lemma_merged_contains(adj: Seq<Seq<usize>>, roots: Seq<usize>, v0: usize, v1: usize)
    requires
        adjacency_ok(adj, roots),
        is_partition(roots),
        v0 != v1,
        v0 < adj.len(),
        v1 < adj.len(),
        roots[v0 as int] == v0,
        roots[v1 as int] == v1,
    ensures
        forall|u: int, y: usize|
            0 <= u < adj.len() ==> (#[trigger] merged_adj(adj, united(roots, v0 as int, v1 as int), v0, v1)[u].contains(y)
                <==> merged_neighbour(adj, v0, v1, u, y)),
{
    let r2 = united(roots, v0 as int, v1 as int);
    let a2 = merged_adj(adj, r2, v0, v1);
    let n = adj.len();
    let whole = adj[v1 as int] + adj[v0 as int];
    let nd = merged_list(adj, r2, v0, v1);
    lemma_sorted_set(drop_value(map_roots(whole, r2), v1));
    lemma_drop_value_contains(map_roots(whole, r2), v1);
    lemma_map_roots_contains(whole, r2);
    // the class of an entry after the merge
    assert forall|x: usize| (x as int) < n && roots[x as int] == x implies #[trigger] r2[x as int] == if x == v0 {
        v1
    } else {
        x
    } by {}
    // the merged list
    assert forall|y: usize| #[trigger] nd.contains(y) <==> (y != v1 && y != v0 && (adj[v1 as int].contains(y)
        || adj[v0 as int].contains(y))) by {
        if nd.contains(y) {
            let k = choose|k: int| 0 <= k < whole.len() && r2[whole[k] as int] == y;
            if k < adj[v1 as int].len() {
                assert(whole[k] == adj[v1 as int][k]);
                assert(roots[adj[v1 as int][k] as int] == adj[v1 as int][k]);
                assert(adj[v1 as int].contains(adj[v1 as int][k]));
            } else {
                let j = k - adj[v1 as int].len();
                assert(whole[k] == adj[v0 as int][j]);
                assert(roots[adj[v0 as int][j] as int] == adj[v0 as int][j]);
                assert(adj[v0 as int][j] != v0);
                assert(adj[v0 as int].contains(adj[v0 as int][j]));
            }
        }
        if y != v1 && y != v0 && adj[v1 as int].contains(y) {
            let k = choose|k: int| 0 <= k < adj[v1 as int].len() && adj[v1 as int][k] == y;
            assert(whole[k] == y);
            assert(roots[y as int] == y);
            assert(r2[whole[k] as int] == y);
        }
        if y != v1 && y != v0 && adj[v0 as int].contains(y) {
            let k = choose|k: int| 0 <= k < adj[v0 as int].len() && adj[v0 as int][k] == y;
            assert(whole[adj[v1 as int].len() + k] == y);
            assert(roots[y as int] == y);
            assert(r2[whole[adj[v1 as int].len() + k] as int] == y);
        }
    }
    assert forall|u: int, y: usize| 0 <= u < n implies (#[trigger] a2[u].contains(y) <==> merged_neighbour(
        adj,
        v0,
        v1,
        u,
        y,
    )) by {
        if u == v0 as int {
            assert(a2[u] =~= Seq::<usize>::empty());
        } else if u == v1 as int {
            assert(a2[u] == nd);
            if adj[v1 as int].contains(y) {
                let k = choose|k: int| 0 <= k < adj[v1 as int].len() && adj[v1 as int][k] == y;
                assert(adj[v1 as int][k] != v1);
            }
            if adj[v1 as int].contains(v0) {
                assert(adj[v0 as int].contains(v1));
            }
        } else if nd.contains(u as usize) {
            let l = map_roots(adj[u], r2);
            assert(a2[u] == sorted_set(l));
            lemma_sorted_set(l);
            lemma_map_roots_contains(adj[u], r2);
            if a2[u].contains(y) {
                let k = choose|k: int| 0 <= k < adj[u].len() && r2[adj[u][k] as int] == y;
                let e = adj[u][k];
                assert(adj[u].contains(e));
                assert(roots[e as int] == e && e != u);
                if e == v0 {
                    assert(y == v1);
                } else {
                    assert(y == e);
                }
            }
            if merged_neighbour(adj, v0, v1, u, y) {
                if adj[u].contains(y) && y != v0 {
                    let k = choose|k: int| 0 <= k < adj[u].len() && adj[u][k] == y;
                    assert(roots[y as int] == y);
                    assert(r2[adj[u][k] as int] == y);
                } else {
                    assert(y == v1 && adj[u].contains(v0));
                    let k = choose|k: int| 0 <= k < adj[u].len() && adj[u][k] == v0;
                    assert(r2[adj[u][k] as int] == y);
                }
            }
        } else {
            assert(a2[u] == adj[u]);
            if adj[u].contains(v0) {
                assert(adj[v0 as int].contains(u as usize));
                let k = choose|k: int| 0 <= k < adj[v0 as int].len() && adj[v0 as int][k] == u as usize;
                assert(adj[v0 as int][k] != v0);
                assert(nd.contains(u as usize));
            }
            if adj[u].contains(y) {
                let k = choose|k: int| 0 <= k < adj[u].len() && adj[u][k] == y;
                assert(adj[u][k] != u);
            }
        }
    }
}

proof fn lemma_merge_keeps(adj: Seq<Seq<usize>>, roots: Seq<usize>, v0: usize, v1: usize)
    requires
        adjacency_ok(adj, roots),
        is_partition(roots),
        v0 != v1,
        v0 < adj.len(),
        v1 < adj.len(),
        roots[v0 as int] == v0,
        roots[v1 as int] == v1,
    ensures
        adjacency_ok(merged_adj(adj, united(roots, v0 as int, v1 as int), v0, v1), united(roots, v0 as int, v1 as int)),
{
    let r2 = united(roots, v0 as int, v1 as int);
    let a2 = merged_adj(adj, r2, v0, v1);
    let n = adj.len();
    let nd = merged_list(adj, r2, v0, v1);
    lemma_merged_contains(adj, roots, v0, v1);
    lemma_sorted_set(drop_value(map_roots(adj[v1 as int] + adj[v0 as int], r2), v1));
    // an entry of a list is a remaining vertex other than v0
    assert forall|u: int, y: usize| 0 <= u < n && #[trigger] a2[u].contains(y) implies (y as int) < n && roots[y as int]
        == y && y != v0 && r2[y as int] == y by {
        assert(merged_neighbour(adj, v0, v1, u, y));
        if adj[u].contains(y) {
            let k = choose|k: int| 0 <= k < adj[u].len() && adj[u][k] == y;
            assert(adj[u][k] == y);
        } else if u == v1 as int && adj[v0 as int].contains(y) {
            let k = choose|k: int| 0 <= k < adj[v0 as int].len() && adj[v0 as int][k] == y;
            assert(adj[v0 as int][k] == y);
        }
    }
    assert forall|v: int| 0 <= v < a2.len() && r2[v] != v implies #[trigger] a2[v].len() == 0 by {
        if a2[v].len() > 0 {
            let y = a2[v][0];
            assert(a2[v].contains(y));
            assert(merged_neighbour(adj, v0, v1, v, y));
            if v != v0 as int {
                assert(roots[v] != v0);
                assert(roots[v] != v);
                assert(adj[v].len() == 0);
                assert(!adj[v].contains(y));
                assert(!adj[v].contains(v0));
            }
        }
    }
    assert forall|v: int| 0 <= v < a2.len() implies strictly_increasing(#[trigger] a2[v]) by {
        if v == v1 as int {
            assert(a2[v] == nd);
        } else if v != v0 as int && nd.contains(v as usize) {
            lemma_sorted_set(map_roots(adj[v], r2));
        } else if v != v0 as int {
            assert(a2[v] == adj[v]);
        }
    }
    assert forall|v: int, k: int| 0 <= v < a2.len() && 0 <= k < a2[v].len() implies {
        &&& (#[trigger] a2[v][k] as int) < r2.len()
        &&& r2[a2[v][k] as int] == a2[v][k]
        &&& a2[v][k] != v
    } by {
        let y = a2[v][k];
        assert(a2[v].contains(y));
        assert(merged_neighbour(adj, v0, v1, v, y));
    }
    assert forall|u: int, w: usize| 0 <= u < a2.len() && #[trigger] a2[u].contains(w) implies a2[w as int].contains(u as usize) by {
        assert(merged_neighbour(adj, v0, v1, u, w));
        assert((w as int) < n);
        if adj[u].contains(w) {
            assert(adj[w as int].contains(u as usize));
        }
        if u == v1 as int && adj[v0 as int].contains(w) {
            assert(adj[w as int].contains(v0));
        }
        if w == v1 && adj[u].contains(v0) {
            assert(adj[v0 as int].contains(u as usize));
        }
        assert(merged_neighbour(adj, v0, v1, w as int, u as usize));
    }
}

/// One change to a collapsible manifold: an edge added between two
/// vertices, or the first vertex merged into the second.
pub enum ManifoldStep {
    AddEdge(usize, usize),
    Merge(usize, usize),
}

/// The adjacency and classes after one step, as `add_edge` and `merge`
/// leave them.
pub open spec fn after_step(adj: Seq<Seq<usize>>, roots: Seq<usize>, s: ManifoldStep) -> (Seq<Seq<usize>>, Seq<usize>) {
    match s {
        ManifoldStep::AddEdge(a, b) => (add_edge_adj(adj, a, b), roots),
        ManifoldStep::Merge(a, b) => {
            let r2 = united(roots, a as int, b as int);
            (merged_adj(adj, r2, a, b), r2)
        },
    }
}

/// Whether a step is one the two functions accept on remaining vertices:
/// an edge between two remaining vertices (or a loop), or a merge of two
/// different remaining vertices.
pub open spec fn step_ok(adj: Seq<Seq<usize>>, roots: Seq<usize>, s: ManifoldStep) -> bool {
    match s {
        ManifoldStep::AddEdge(a, b) => a == b || (a < adj.len() && b < adj.len() && roots[a as int] == a
            && roots[b as int] == b),
        ManifoldStep::Merge(a, b) => a != b && a < adj.len() && b < adj.len() && roots[a as int] == a
            && roots[b as int] == b,
    }
}

/// The adjacency and classes after the steps, in order; none where a step
/// is not accepted.
pub open spec fn run_steps(adj: Seq<Seq<usize>>, roots: Seq<usize>, steps: Seq<ManifoldStep>) -> Option<
    (Seq<Seq<usize>>, Seq<usize>),
>
    decreases steps.len(),
{
    if steps.len() == 0 {
        Some((adj, roots))
    } else if step_ok(adj, roots, steps[0]) {
        let (a2, r2) = after_step(adj, roots, steps[0]);
        run_steps(a2, r2, steps.drop_first())
    } else {
        None
    }
}

/// A manifold built from `n` separate vertices by adding edges and
/// merging vertices, each step on remaining vertices, keeps its adjacency
/// invariant: every remaining vertex lists only remaining vertices, in
/// strictly increasing order, never itself, and lists exactly the
/// vertices that list it; a deleted vertex lists nothing.
pub proof fn lemma_built_adjacency_ok(n: nat, steps: Seq<ManifoldStep>)
    requires
        run_steps(Seq::new(n, |i: int| Seq::<usize>::empty()), Seq::new(n, |i: int| i as usize), steps) is Some,
    ensures
        ({
            let (adj, roots) = run_steps(
                Seq::new(n, |i: int| Seq::<usize>::empty()),
                Seq::new(n, |i: int| i as usize),
                steps,
            ).unwrap();
            adjacency_ok(adj, roots) && is_partition(roots)
        }),
{
    let adj = Seq::new(n, |i: int| Seq::<usize>::empty());
    let roots = Seq::new(n, |i: int| i as usize);
    assert forall|u: int, w: usize| 0 <= u < adj.len() && #[trigger] adj[u].contains(w) implies adj[w as int].contains(
        u as usize,
    ) by {
        assert(adj[u].len() == 0);
    }
    lemma_run_keeps(adj, roots, steps);
}

proof fn lemma_run_keeps(adj: Seq<Seq<usize>>, roots: Seq<usize>, steps: Seq<ManifoldStep>)
    requires
        adjacency_ok(adj, roots),
        is_partition(roots),
        run_steps(adj, roots, steps) is Some,
    ensures
        adjacency_ok(run_steps(adj, roots, steps).unwrap().0, run_steps(adj, roots, steps).unwrap().1),
        is_partition(run_steps(adj, roots, steps).unwrap().1),
    decreases steps.len(),
{
    if steps.len() > 0 {
        let (a2, r2) = after_step(adj, roots, steps[0]);
        match steps[0] {
            ManifoldStep::AddEdge(a, b) => {
                if a != b {
                    lemma_add_edge_keeps(adj, roots, a, b);
                }
            },
            ManifoldStep::Merge(a, b) => {
                lemma_merge_keeps(adj, roots, a, b);
                crate::union_find::lemma_united_partition(roots, a as int, b as int);
            },
        }
        lemma_run_keeps(a2, r2, steps.drop_first());
    }
}

// ---------------------------------------------------------------------------
// The manifold
// ---------------------------------------------------------------------------

/// A mesh representation which is suitable for collapsing vertices. It
/// associates data with each vertex and a list of adjacent vertices; a
/// collapsed vertex is represented by the vertex it was merged into.
pub struct CollapsibleManifold<T> {
    vertices: UnionFind,
    pub edges: Vec<Vec<usize>>,
    pub data: Vec<T>,
}

impl<T> CollapsibleManifold<T> {
    /// The class of each vertex: the vertex that now stands for it.
    pub closed spec fn roots(&self) -> Seq<usize> {
        self.vertices@
    }

    pub closed spec fn forest_wf(&self) -> bool {
        self.vertices.wf()
    }

    pub open spec fn num_indices(&self) -> nat {
        self.roots().len()
    }

    /// The adjacency lists.
    pub closed spec fn adj(&self) -> Seq<Seq<usize>> {
        self.edges@.map_values(|v: Vec<usize>| v@)
    }

    /// The data held by each vertex.
    pub closed spec fn data_seq(&self) -> Seq<T> {
        self.data@
    }

    pub closed spec fn wf(&self) -> bool {
        &&& self.forest_wf()
        &&& is_partition(self.roots())
        &&& self.data@.len() == self.num_indices()
        &&& (self.edges@.len() == self.num_indices() || self.edges@.len() == 0)
        &&& forall|v: int, k: int|
            0 <= v < self.adj().len() && 0 <= k < self.adj()[v].len() ==> (#[trigger] self.adj()[v][k] as int)
                < self.num_indices()
    }

    /// Whether the adjacency lists keep their invariant: see
    /// `adjacency_ok`.
    pub open spec fn adj_inv(&self) -> bool {
        adjacency_ok(self.adj(), self.roots())
    }

    /// A valid manifold's classes form a partition, each vertex has its
    /// data, and every list entry is a vertex.
    pub proof fn lemma_wf_partition(&self)
        requires
            self.wf(),
        ensures
            is_partition(self.roots()),
            self.data_seq().len() == self.num_indices(),
            self.adj().len() == self.num_indices() || self.adj().len() == 0,
            forall|v: int, k: int|
                0 <= v < self.adj().len() && 0 <= k < self.adj()[v].len() ==> (#[trigger] self.adj()[v][k] as int)
                    < self.num_indices(),
    {
    }

    /// Under the invariant, the class of `v0` lists the class of `v1`
    /// exactly when the class of `v1` lists that of `v0`.
    pub proof fn lemma_adjacent_both_ways(&self, v0: usize, v1: usize)
        requires
            self.wf(),
            self.adj_inv(),
            v0 < self.num_indices(),
            v1 < self.num_indices(),
        ensures
            self.adj()[self.roots()[v0 as int] as int].contains(self.roots()[v1 as int]) == self.adj()[self.roots()[v1 as int] as int].contains(
                self.roots()[v0 as int],
            ),
    {
        let r0 = self.roots()[v0 as int];
        let r1 = self.roots()[v1 as int];
        assert((r0 as int) < self.num_indices() && (r1 as int) < self.num_indices());
        if self.adj()[r0 as int].contains(r1) {
            assert(self.adj()[r1 as int].contains(r0));
        }
        if self.adj()[r1 as int].contains(r0) {
            assert(self.adj()[r0 as int].contains(r1));
        }
    }

    /// A manifold of `size` vertices without edges, vertex `i` holding
    /// `f(i)`.
    pub fn new_with(size: usize, f: impl Fn(usize) -> T) -> (r: Self)
        requires
            forall|i: usize| i < size ==> call_requires(f, (i,)),
        ensures
            r.wf(),
            r.adj_inv(),
            r.roots() == Seq::new(size as nat, |i: int| i as usize),
            r.adj() == Seq::new(size as nat, |i: int| Seq::<usize>::empty()),
            r.data_seq().len() == size,
            forall|i: int| 0 <= i < size ==> call_ensures(f, (i as usize,), #[trigger] r.data_seq()[i]),
    {
        let vertices = UnionFind::new(size);
        Self::new_with_remapping(vertices, f)
    }

    /// A manifold over the classes of `remap`, without edges, vertex `i`
    /// holding `f(i)`.
    pub fn new_with_remapping(remap: UnionFind, f: impl Fn(usize) -> T) -> (r: Self)
        requires
            remap.wf(),
            forall|i: usize| i < remap@.len() ==> call_requires(f, (i,)),
        ensures
            r.wf(),
            r.adj_inv(),
            r.roots() == remap@,
            r.adj() == Seq::new(remap@.len(), |i: int| Seq::<usize>::empty()),
            r.data_seq().len() == remap@.len(),
            forall|i: int| 0 <= i < remap@.len() ==> call_ensures(f, (i as usize,), #[trigger] r.data_seq()[i]),
    {
        let size = remap.capacity();
        let mut data: Vec<T> = Vec::new();
        let mut edges: Vec<Vec<usize>> = Vec::new();
        let mut i: usize = 0;
        while i < size
            invariant
                size == remap@.len(),
                i <= size,
                forall|j: usize| j < size ==> call_requires(f, (j,)),
                data@.len() == i,
                edges@.len() == i,
                forall|j: int| 0 <= j < i ==> call_ensures(f, (j as usize,), #[trigger] data@[j]),
                forall|j: int| 0 <= j < i ==> (#[trigger] edges@[j])@ == Seq::<usize>::empty(),
            decreases size - i,
        {
            let v = f(i);
            data.push(v);
            edges.push(Vec::new());
            i = i + 1;
        }
        proof {
            remap.lemma_partition();
        }
        let r = CollapsibleManifold { vertices: remap, edges, data };
        assert(r.adj() =~= Seq::new(remap@.len(), |i: int| Seq::<usize>::empty()));
        assert forall|u: int, w: usize| 0 <= u < r.adj().len() && #[trigger] r.adj()[u].contains(w) implies r.adj()[w as int].contains(
            u as usize,
        ) by {
            assert(r.adj()[u].len() == 0);
        }
        r
    }

    /// A manifold of `size` vertices holding the default value. Its
    /// adjacency starts out with no lists at all.
    pub fn new(size: usize) -> (r: Self)
        where
            T: Default + Clone,
        ensures
            r.wf(),
            r.roots() == Seq::new(size as nat, |i: int| i as usize),
            r.adj().len() == 0,
            r.data_seq().len() == size,
            exists|d: T| call_ensures(T::default, (), d) && forall|i: int| 0 <= i < size ==> cloned(d, #[trigger] r.data_seq()[i]),
    {
        let vertices = UnionFind::new(size);
        let d = T::default();
        let ghost dg = d;
        assert(call_ensures(T::default, (), dg));
        let data = vec![d; size];
        proof {
            vertices.lemma_partition();
        }
        CollapsibleManifold { vertices, edges: Vec::new(), data }
    }

    /// The vertex that now stands for vertex `old`.
    pub fn get_new_vertex(&self, old: usize) -> (r: usize)
        requires
            self.wf(),
            old < self.num_indices(),
        ensures
            r == self.roots()[old as int],
    {
        self.vertices.find(old)
    }

    /// How many vertices remain.
    pub fn num_vertices(&self) -> (r: usize)
        requires
            self.wf(),
        ensures
            r == num_classes(self.roots()),
    {
        self.vertices.len()
    }

    /// Whether vertex `vi` was merged into another one.
    pub fn is_deleted(&self, vi: usize) -> (r: bool)
        requires
            self.wf(),
            vi < self.num_indices(),
        ensures
            r == (self.roots()[vi as int] != vi),
    {
        !self.vertices.is_root(vi)
    }

    /// The remaining vertices, in increasing order, with their data.
    pub fn vertices(&self) -> (r: Vec<(usize, &T)>)
        requires
            self.wf(),
        ensures
            r@.map_values(|p: (usize, &T)| p.0) == roots_below(self.roots(), self.num_indices() as int),
            forall|k: int| 0 <= k < r@.len() ==> *(#[trigger] r@[k]).1 == self.data_seq()[r@[k].0 as int],
    {
        let n = self.vertices.capacity();
        let mut out: Vec<(usize, &T)> = Vec::new();
        let mut i: usize = 0;
        while i < n
            invariant
                self.wf(),
                n == self.num_indices(),
                i <= n,
                out@.map_values(|p: (usize, &T)| p.0) == roots_below(self.roots(), i as int),
                forall|k: int| 0 <= k < out@.len() ==> (#[trigger] out@[k]).0 < n && *out@[k].1 == self.data@[out@[k].0 as int],
            decreases n - i,
        {
            let ghost before = out@;
            if self.vertices.is_root(i) {
                out.push((i, &self.data[i]));
            }
            assert(out@.map_values(|p: (usize, &T)| p.0) =~= roots_below(self.roots(), i + 1)) by {
                assert(before.map_values(|p: (usize, &T)| p.0) == roots_below(self.roots(), i as int));
            }
            i = i + 1;
        }
        out
    }

    /// Adds an edge between `v0` and `v1` (nothing if they are the same
    /// vertex), keeping both lists sorted and without repeats.
    pub fn add_edge(&mut self, v0: usize, v1: usize)
        requires
            old(self).wf(),
            v0 == v1 || (v0 < old(self).adj().len() && v1 < old(self).adj().len()),
        ensures
            final(self).wf(),
            final(self).roots() == old(self).roots(),
            final(self).data_seq() == old(self).data_seq(),
            final(self).adj().len() == old(self).adj().len(),
            final(self).adj() == add_edge_adj(old(self).adj(), v0, v1),
            old(self).adj_inv() && (v0 == v1 || (old(self).roots()[v0 as int] == v0 && old(self).roots()[v1 as int]
                == v1)) ==> final(self).adj_inv(),
    {
        if v0 == v1 {
            return;
        }
        proof {
            if old(self).adj_inv() && old(self).roots()[v0 as int] == v0 && old(self).roots()[v1 as int] == v1 {
                lemma_add_edge_keeps(old(self).adj(), old(self).roots(), v0, v1);
            }
        }
        let ghost a = self.adj();
        let mut l0: Vec<usize> = Vec::new();
        self.edges.set_and_swap(v0, &mut l0);
        assert(l0@ == a[v0 as int]);
        l0.push(v1);
        let s0 = sort_dedup(&l0);
        self.edges.set(v0, s0);
        let mut l1: Vec<usize> = Vec::new();
        self.edges.set_and_swap(v1, &mut l1);
        assert(l1@ == a[v1 as int]);
        l1.push(v0);
        let s1 = sort_dedup(&l1);
        self.edges.set(v1, s1);
        assert(self.adj() =~= add_edge_adj(a, v0, v1));
        assert forall|v: int, k: int|
            0 <= v < self.adj().len() && 0 <= k < self.adj()[v].len() implies (#[trigger] self.adj()[v][k] as int)
                < self.num_indices() by {
            if v == v0 as int || v == v1 as int {
                let x = self.adj()[v][k];
                assert(self.adj()[v].contains(x));
                if v == v1 as int {
                    assert(l1@.contains(x));
                    let t = choose|t: int| 0 <= t < l1@.len() && l1@[t] == x;
                    if t < a[v1 as int].len() {
                        assert(a[v1 as int][t] == x);
                    }
                } else {
                    assert(l0@.contains(x));
                    let t = choose|t: int| 0 <= t < l0@.len() && l0@[t] == x;
                    if t < a[v0 as int].len() {
                        assert(a[v0 as int][t] == x);
                    }
                }
            } else {
                assert(self.adj()[v] == a[v]);
            }
        }
    }

    /// Adds the edges of polygon `face`, corner to corner and last to first.
    pub fn add_face(&mut self, face: &[usize])
        requires
            old(self).wf(),
            forall|i: int|
                0 <= i < face@.len() ==> {
                    let e = #[trigger] crate::clustering::face_edge(face@, i);
                    e[0] == e[1] || (e[0] < old(self).adj().len() && e[1] < old(self).adj().len())
                },
        ensures
            final(self).wf(),
            final(self).roots() == old(self).roots(),
            final(self).data_seq() == old(self).data_seq(),
            final(self).adj().len() == old(self).adj().len(),
            final(self).adj() == add_face_adj(old(self).adj(), face@, face@.len() as int),
            old(self).adj_inv() && (forall|i: int|
                0 <= i < face@.len() ==> (#[trigger] face@[i] as int) < old(self).num_indices() && old(self).roots()[face@[i] as int]
                    == face@[i]) ==> final(self).adj_inv(),
    {
        let n = face.len();
        let mut i: usize = 0;
        while i < n
            invariant
                n == face@.len(),
                i <= n,
                self.wf(),
                self.roots() == old(self).roots(),
                self.data@ == old(self).data_seq(),
                self.edges@.len() == old(self).adj().len(),
                self.adj() == add_face_adj(old(self).adj(), face@, i as int),
                old(self).adj_inv() && (forall|t: int|
                    0 <= t < face@.len() ==> (#[trigger] face@[t] as int) < old(self).num_indices() && old(self).roots()[face@[t] as int]
                        == face@[t]) ==> self.adj_inv(),
                forall|j: int|
                    0 <= j < face@.len() ==> {
                        let e = #[trigger] crate::clustering::face_edge(face@, j);
                        e[0] == e[1] || (e[0] < old(self).adj().len() && e[1] < old(self).adj().len())
                    },
            decreases n - i,
        {
            let j = if i + 1 == n { 0 } else { i + 1 };
            proof {
                if i + 1 == n {
                    vstd::arithmetic::div_mod::lemma_mod_self_0(n as int);
                } else {
                    vstd::arithmetic::div_mod::lemma_small_mod((i + 1) as nat, n as nat);
                }
            }
            let e0 = face[i];
            let e1 = face[j];
            assert(crate::clustering::face_edge(face@, i as int) == [e0, e1]);
            assert(e0 == face@[i as int] && e1 == face@[j as int]);
            self.add_edge(e0, e1);
            i = i + 1;
        }
    }

    /// How many entries the list of `v` has.
    pub fn degree(&self, v: usize) -> (r: usize)
        requires
            v < self.adj().len(),
        ensures
            r == self.adj()[v as int].len(),
    {
        self.edges[v].len()
    }

    /// The classes of the entries of the list of `v`, in list order.
    pub fn vertex_adj(&self, v: usize) -> (r: Vec<usize>)
        requires
            self.wf(),
            v < self.adj().len(),
        ensures
            r@ == map_roots(self.adj()[v as int], self.roots()),
            self.adj_inv() ==> r@ == self.adj()[v as int] && strictly_increasing(r@) && !r@.contains(v),
    {
        proof {
            if self.adj_inv() {
                lemma_dedup_keeps_lists(self.adj(), self.roots());
                assert(map_roots(self.adj()[v as int], self.roots()) == self.adj()[v as int]);
                if self.adj()[v as int].contains(v) {
                    let k = choose|k: int| 0 <= k < self.adj()[v as int].len() && self.adj()[v as int][k] == v;
                    assert(self.adj()[v as int][k] != v);
                }
            }
        }
        let list = &self.edges[v];
        let mut out: Vec<usize> = Vec::new();
        let mut k: usize = 0;
        while k < list.len()
            invariant
                self.wf(),
                v < self.edges@.len(),
                list@ == self.adj()[v as int],
                k <= list@.len(),
                out@ =~= map_roots(list@.take(k as int), self.roots()),
            decreases list@.len() - k,
        {
            assert((self.adj()[v as int][k as int] as int) < self.num_indices());
            out.push(self.vertices.find(list[k]));
            k = k + 1;
        }
        assert(list@.take(k as int) =~= list@);
        out
    }
}



impl<T> CollapsibleManifold<T> {
    /// Keeps one entry per class in the list of `v`: the first one, the
    /// list ordered by class.
    pub fn dedup(&mut self, v: usize)
        requires
            old(self).wf(),
            v < old(self).adj().len(),
        ensures
            final(self).wf(),
            final(self).roots() == old(self).roots(),
            final(self).data_seq() == old(self).data_seq(),
            final(self).adj() == old(self).adj().update(
                v as int,
                dedup_by_root(old(self).adj()[v as int], old(self).roots()),
            ),
            dedups_by_root(final(self).adj()[v as int], old(self).adj()[v as int], old(self).roots()),
            old(self).adj_inv() ==> final(self).adj() == old(self).adj() && final(self).adj_inv(),
    {
        let ghost a = self.adj();
        proof {
            if old(self).adj_inv() {
                lemma_dedup_keeps_lists(a, self.roots());
                assert(a.update(v as int, dedup_by_root(a[v as int], self.roots())) =~= a);
            }
        }
        let mut l: Vec<usize> = Vec::new();
        self.edges.set_and_swap(v, &mut l);
        assert(l@ == a[v as int]);
        assert forall|k: int| 0 <= k < l@.len() implies (#[trigger] l@[k] as int) < self.vertices@.len() by {
            assert(a[v as int][k] == l@[k]);
        }
        let d = dedup_list(&l, &self.vertices);
        self.edges.set(v, d);
        assert(self.adj() =~= a.update(v as int, dedup_by_root(a[v as int], self.roots())));
        assert forall|u: int, k: int|
            0 <= u < self.adj().len() && 0 <= k < self.adj()[u].len() implies (#[trigger] self.adj()[u][k] as int)
                < self.num_indices() by {
            if u == v as int {
                let x = self.adj()[u][k];
                assert(d@[k] == x);
                assert(l@.contains(x));
                let t = choose|t: int| 0 <= t < l@.len() && l@[t] == x;
                assert(a[v as int][t] == x);
            } else {
                assert(self.adj()[u] == a[u]);
            }
        }
    }

    /// Makes the lists of `v` and of every vertex on it hold one entry per
    /// class.
    pub fn dedup_one_ring(&mut self, v: usize)
        requires
            old(self).wf(),
            v < old(self).adj().len(),
            !old(self).adj()[v as int].contains(v),
        ensures
            final(self).wf(),
            final(self).roots() == old(self).roots(),
            final(self).data_seq() == old(self).data_seq(),
            final(self).adj().len() == old(self).adj().len(),
            forall|u: int|
                0 <= u < old(self).adj().len() ==> #[trigger] final(self).adj()[u] == if u == v as int
                    || dedup_by_root(old(self).adj()[v as int], old(self).roots()).contains(u as usize) {
                    dedup_by_root(old(self).adj()[u], old(self).roots())
                } else {
                    old(self).adj()[u]
                },
            old(self).adj_inv() ==> final(self).adj() == old(self).adj() && final(self).adj_inv(),
    {
        let ghost a = self.adj();
        let ghost roots = self.roots();
        proof {
            if old(self).adj_inv() {
                lemma_dedup_keeps_lists(a, roots);
            }
        }
        self.dedup(v);
        let ghost nbrs_s = dedup_by_root(a[v as int], roots);
        proof {
            assert(dedups_by_root(nbrs_s, a[v as int], roots));
        }
        proof {
            assert forall|u: int, q: int| 0 <= u < a.len() && 0 <= q < a[u].len() implies (#[trigger] a[u][q] as int) < roots.len() by {
                assert(a[u][q] == old(self).adj()[u][q]);
            }
        }
        let mut nbrs: Vec<usize> = Vec::new();
        assert(self.edges@.len() == self.adj().len());
        let elen = self.edges.len();
        assert(a.len() == elen);
        let ghost before_take = self.adj();
        self.edges.set_and_swap(v, &mut nbrs);
        assert(nbrs@ == nbrs_s);
        assert(self.adj() =~= before_take.update(v as int, Seq::<usize>::empty()));
        assert forall|u: int, q: int|
            0 <= u < self.adj().len() && 0 <= q < self.adj()[u].len() implies (#[trigger] self.adj()[u][q] as int)
                < self.num_indices() by {
            assert(self.adj()[u][q] == before_take[u][q]);
        }
        proof {
            // the neighbours come from the old list of v
            assert forall|k: int| 0 <= k < nbrs@.len() implies a[v as int].contains(#[trigger] nbrs@[k]) by {
                let f = first_in_class(a[v as int], roots, roots[nbrs@[k] as int], 0);
                lemma_first_in_class(a[v as int], roots, roots[nbrs@[k] as int], 0);
                assert(a[v as int][f] == nbrs@[k]);
            }
        }
        let mut k: usize = 0;
        while k < nbrs.len()
            invariant
                self.wf(),
                self.roots() == roots,
                self.data_seq() == old(self).data_seq(),
                self.adj().len() == a.len(),
                v < a.len(),
                nbrs@ == nbrs_s,
                a.len() == elen,
                dedups_by_root(nbrs_s, a[v as int], roots),
                forall|u: int, q: int| 0 <= u < a.len() && 0 <= q < a[u].len() ==> (#[trigger] a[u][q] as int) < roots.len(),
                forall|t: int| 0 <= t < nbrs@.len() ==> a[v as int].contains(#[trigger] nbrs@[t]),
                !a[v as int].contains(v),
                k <= nbrs@.len(),
                self.adj()[v as int] == Seq::<usize>::empty(),
                forall|u: int|
                    0 <= u < a.len() && u != v as int ==> #[trigger] self.adj()[u] == if nbrs@.take(k as int).contains(u as usize) {
                        dedup_by_root(a[u], roots)
                    } else {
                        a[u]
                    },
            decreases nbrs@.len() - k,
        {
            let adj = nbrs[k];
            assert(a[v as int].contains(adj));
            assert(adj != v);
            proof {
                let t = choose|t: int| 0 <= t < a[v as int].len() && a[v as int][t] == adj;
                assert((a[v as int][t] as int) < roots.len());
            }
            let ghost cur = self.adj();
            proof {
                // entries of a class-deduplicated list are distinct
                if nbrs@.take(k as int).contains(adj) {
                    let t2 = choose|t2: int| 0 <= t2 < k && nbrs@.take(k as int)[t2] == adj;
                    assert(map_roots(nbrs@, roots)[t2] < map_roots(nbrs@, roots)[k as int]);
                }
                assert(cur[adj as int] == a[adj as int]);
            }
            self.dedup(adj);
            assert forall|u: int| 0 <= u < a.len() && u != v as int implies #[trigger] self.adj()[u] == if nbrs@.take(k + 1).contains(u as usize) {
                dedup_by_root(a[u], roots)
            } else {
                a[u]
            } by {
                assert(nbrs@.take(k + 1) =~= nbrs@.take(k as int).push(adj));
                if u == adj as int {
                    assert(nbrs@.take(k + 1)[k as int] == adj);
                    assert(nbrs@.take(k + 1).contains(adj));
                } else {
                    let ghost tk1 = nbrs@.take(k + 1);
                    let ghost tk = nbrs@.take(k as int);
                    if tk1.contains(u as usize) {
                        let t3 = choose|t3: int| 0 <= t3 < tk1.len() && tk1[t3] == u as usize;
                        assert(t3 != k as int);
                        assert(tk[t3] == u as usize);
                    }
                    if tk.contains(u as usize) {
                        let t3 = choose|t3: int| 0 <= t3 < tk.len() && tk[t3] == u as usize;
                        assert(tk1[t3] == u as usize);
                    }
                }
            }
            k = k + 1;
        }
        assert(nbrs@.take(k as int) =~= nbrs@);
        let ghost before_set = self.adj();
        assert(self.edges@.len() == self.adj().len());
        self.edges.set(v, nbrs);
        assert(self.adj() =~= before_set.update(v as int, nbrs_s));
        assert forall|u: int, k2: int|
            0 <= u < self.adj().len() && 0 <= k2 < self.adj()[u].len() implies (#[trigger] self.adj()[u][k2] as int)
                < self.num_indices() by {
            if u == v as int {
                assert(a[v as int].contains(nbrs_s[k2]));
                let t = choose|t: int| 0 <= t < a[v as int].len() && a[v as int][t] == nbrs_s[k2];
                assert((a[v as int][t] as int) < roots.len());
            } else {
                assert(self.adj()[u][k2] == before_set[u][k2]);
            }
        }
        assert forall|u: int| 0 <= u < a.len() implies #[trigger] self.adj()[u] == if u == v as int
            || nbrs_s.contains(u as usize) {
            dedup_by_root(a[u], roots)
        } else {
            a[u]
        } by {
            if u == v as int {
                assert(self.adj()[u] == nbrs_s);
            }
        }
        proof {
            if old(self).adj_inv() {
                assert(self.adj() =~= a);
            }
        }
    }
}


impl<T> CollapsibleManifold<T> {
    /// Whether the vertices that now stand for `v0` and `v1` are adjacent.
    pub fn is_adj(&self, v0: usize, v1: usize) -> (r: bool)
        requires
            self.wf(),
            v0 < self.num_indices(),
            v1 < self.num_indices(),
            self.adj().len() == self.num_indices(),
        ensures
            r == map_roots(self.adj()[self.roots()[v0 as int] as int], self.roots()).contains(
                self.roots()[v1 as int],
            ),
            self.adj_inv() ==> r == self.adj()[self.roots()[v0 as int] as int].contains(self.roots()[v1 as int]),
    {
        proof {
            if self.adj_inv() {
                lemma_dedup_keeps_lists(self.adj(), self.roots());
                assert((self.roots()[v0 as int] as int) < self.num_indices());
                assert(map_roots(self.adj()[self.roots()[v0 as int] as int], self.roots()) == self.adj()[self.roots()[v0 as int] as int]);
            }
        }
        let r0 = self.vertices.find(v0);
        let r1 = self.vertices.find(v1);
        let nb = self.vertex_adj(r0);
        let mut k: usize = 0;
        while k < nb.len()
            invariant
                nb@ == map_roots(self.adj()[self.roots()[v0 as int] as int], self.roots()),
                self.adj_inv() ==> map_roots(self.adj()[self.roots()[v0 as int] as int], self.roots()) == self.adj()[self.roots()[v0 as int] as int],
                r1 == self.roots()[v1 as int],
                k <= nb@.len(),
                forall|t: int| 0 <= t < k ==> nb@[t] != r1,
            decreases nb@.len() - k,
        {
            if nb[k] == r1 {
                assert(nb@[k as int] == r1);
                return true;
            }
            k = k + 1;
        }
        false
    }

    /// The classes adjacent to both `v0` and `v1`, other than `v0` and `v1`,
    /// in the order the sorted merge of their lists yields them.
    pub fn shared_one_ring(&self, v0: usize, v1: usize) -> (r: Vec<usize>)
        requires
            self.wf(),
            v0 < self.adj().len(),
            v1 < self.adj().len(),
            self.roots()[v0 as int] == v0,
            self.roots()[v1 as int] == v1,
        ensures
            r@ == drop_two(
                values(
                    merged(
                        map_roots(self.adj()[v0 as int], self.roots()),
                        map_roots(self.adj()[v1 as int], self.roots()),
                    ),
                ),
                v0,
                v1,
            ),
            !r@.contains(v0),
            !r@.contains(v1),
            strictly_increasing(map_roots(self.adj()[v0 as int], self.roots())) && strictly_increasing(
                map_roots(self.adj()[v1 as int], self.roots()),
            ) ==> forall|x: usize| #[trigger]
                r@.contains(x) <==> ((map_roots(self.adj()[v0 as int], self.roots()).contains(x)
                    || map_roots(self.adj()[v1 as int], self.roots()).contains(x)) && x != v0 && x != v1),
            self.adj_inv() ==> forall|x: usize| #[trigger]
                r@.contains(x) <==> ((self.adj()[v0 as int].contains(x) || self.adj()[v1 as int].contains(x)) && x != v0
                    && x != v1),
    {
        proof {
            if self.adj_inv() {
                lemma_dedup_keeps_lists(self.adj(), self.roots());
            }
        }
        let a0 = self.vertex_adj(v0);
        let a1 = self.vertex_adj(v1);
        let ghost m0 = a0@;
        let ghost m1 = a1@;
        proof {
            if strictly_increasing(m0) && strictly_increasing(m1) {
                crate::merge::lemma_merged_sorted_union(m0, m1);
            }
        }
        let mut m = Merge::new(a0, a1);
        let all = m.collect_all();
        let ghost vals = values(all@);
        let mut out: Vec<usize> = Vec::new();
        let mut k: usize = 0;
        while k < all.len()
            invariant
                k <= all@.len(),
                vals == values(all@),
                out@ == drop_two(vals.take(k as int), v0, v1),
            decreases all@.len() - k,
        {
            let x = *all[k].inner();
            assert(vals.take(k + 1).drop_last() =~= vals.take(k as int));
            if x != v0 && x != v1 {
                out.push(x);
            }
            k = k + 1;
        }
        assert(vals.take(k as int) =~= vals);
        proof {
            lemma_drop_two_contains(vals, v0, v1);
        }
        out
    }

    /// How many classes `shared_one_ring` yields.
    pub fn shared_one_ring_deg(&self, v0: usize, v1: usize) -> (r: usize)
        requires
            self.wf(),
            v0 < self.adj().len(),
            v1 < self.adj().len(),
            self.roots()[v0 as int] == v0,
            self.roots()[v1 as int] == v1,
        ensures
            r == drop_two(
                values(
                    merged(
                        map_roots(self.adj()[v0 as int], self.roots()),
                        map_roots(self.adj()[v1 as int], self.roots()),
                    ),
                ),
                v0,
                v1,
            ).len(),
    {
        self.shared_one_ring(v0, v1).len()
    }

    /// Like `shared_one_ring`, keeping for each class the side(s) whose
    /// list it came from.
    pub fn sided_shared_one_ring(&self, v0: usize, v1: usize) -> (r: Vec<Side<usize>>)
        requires
            self.wf(),
            v0 < self.adj().len(),
            v1 < self.adj().len(),
            self.roots()[v0 as int] == v0,
            self.roots()[v1 as int] == v1,
        ensures
            r@ == drop_two_sided(
                merged(
                    map_roots(self.adj()[v0 as int], self.roots()),
                    map_roots(self.adj()[v1 as int], self.roots()),
                ),
                v0,
                v1,
            ),
    {
        let a0 = self.vertex_adj(v0);
        let a1 = self.vertex_adj(v1);
        let mut m = Merge::new(a0, a1);
        let all = m.collect_all();
        let mut out: Vec<Side<usize>> = Vec::new();
        let mut k: usize = 0;
        while k < all.len()
            invariant
                k <= all@.len(),
                out@ == drop_two_sided(all@.take(k as int), v0, v1),
            decreases all@.len() - k,
        {
            let s = all[k];
            let x = *s.inner();
            assert(all@.take(k + 1).drop_last() =~= all@.take(k as int));
            if x != v0 && x != v1 {
                out.push(s);
            }
            k = k + 1;
        }
        assert(all@.take(k as int) =~= all@);
        out
    }

    /// The data of the vertex that now stands for `v`.
    pub fn get(&self, v: usize) -> (r: &T)
        requires
            self.wf(),
            v < self.num_indices(),
        ensures
            *r == self.data_seq()[self.roots()[v as int] as int],
    {
        let r = self.vertices.find(v);
        &self.data[r]
    }

    /// Replaces the data of the vertex that now stands for `v`.
    pub fn set(&mut self, v: usize, t: T)
        requires
            old(self).wf(),
            v < old(self).num_indices(),
        ensures
            final(self).wf(),
            final(self).roots() == old(self).roots(),
            final(self).adj() == old(self).adj(),
            final(self).data_seq() == old(self).data_seq().update(old(self).roots()[v as int] as int, t),
    {
        let r = self.vertices.find(v);
        let ghost a = self.adj();
        self.data.set(r, t);
        assert(self.adj() == a);
        assert(self.data@.len() == old(self).data@.len());
    }

    /// Every `[v, w]` with `w` on the list of `v`, list after list.
    pub fn edges(&self) -> (r: Vec<[usize; 2]>)
        ensures
            r@ == all_pairs(self.adj()),
    {
        let mut out: Vec<[usize; 2]> = Vec::new();
        let n = self.edges.len();
        let mut src: usize = 0;
        while src < n
            invariant
                n == self.adj().len(),
                src <= n,
                out@ == all_pairs(self.adj().take(src as int)),
            decreases n - src,
        {
            let dsts = &self.edges[src];
            let ghost before = out@;
            let mut k: usize = 0;
            while k < dsts.len()
                invariant
                    src < n,
                    n == self.adj().len(),
                    dsts@ == self.adj()[src as int],
                    k <= dsts@.len(),
                    out@ =~= before + dsts@.take(k as int).map_values(|d: usize| [src, d]),
                decreases dsts@.len() - k,
            {
                out.push([src, dsts[k]]);
                k = k + 1;
            }
            assert(dsts@.take(k as int) =~= dsts@);
            assert(self.adj().take(src + 1).drop_last() =~= self.adj().take(src as int));
            assert(self.adj().take(src + 1).last() == dsts@);
            src = src + 1;
        }
        assert(self.adj().take(n as int) =~= self.adj());
        out
    }

    /// The `[v, w]` pairs of `edges` with `v < w`.
    pub fn ord_edges(&self) -> (r: Vec<[usize; 2]>)
        ensures
            r@ == increasing_pairs(all_pairs(self.adj())),
    {
        let all = self.edges();
        let mut out: Vec<[usize; 2]> = Vec::new();
        let mut k: usize = 0;
        while k < all.len()
            invariant
                k <= all@.len(),
                out@ == increasing_pairs(all@.take(k as int)),
            decreases all@.len() - k,
        {
            let e = all[k];
            assert(all@.take(k + 1).drop_last() =~= all@.take(k as int));
            if e[0] < e[1] {
                out.push(e);
            }
            k = k + 1;
        }
        assert(all@.take(k as int) =~= all@);
        out
    }

    /// The pairs of `edges` mapped to the vertices that now stand for
    /// them, those with the first smaller than the second.
    pub fn edges_post_merge(&self) -> (r: Vec<[usize; 2]>)
        requires
            self.wf(),
        ensures
            r@ == increasing_pairs(
                all_pairs(self.adj()).map_values(
                    |e: [usize; 2]| [self.roots()[e[0] as int], self.roots()[e[1] as int]],
                ),
            ),
    {
        let all = self.edges();
        let ghost mapped = all@.map_values(
            |e: [usize; 2]| [self.roots()[e[0] as int], self.roots()[e[1] as int]],
        );
        proof {
            lemma_all_pairs_bounded(self.adj(), self.num_indices());
        }
        let mut out: Vec<[usize; 2]> = Vec::new();
        let mut k: usize = 0;
        while k < all.len()
            invariant
                self.wf(),
                k <= all@.len(),
                all@ == all_pairs(self.adj()),
                forall|t: int| 0 <= t < all@.len() ==> (#[trigger] all@[t])[0] < self.num_indices() && all@[t][1] < self.num_indices(),
                mapped == all@.map_values(
                    |e: [usize; 2]| [self.roots()[e[0] as int], self.roots()[e[1] as int]],
                ),
                out@ == increasing_pairs(mapped.take(k as int)),
            decreases all@.len() - k,
        {
            let e = all[k];
            let a = self.vertices.find(e[0]);
            let b = self.vertices.find(e[1]);
            assert(mapped[k as int] == [a, b]);
            assert(mapped.take(k + 1).drop_last() =~= mapped.take(k as int));
            if a < b {
                out.push([a, b]);
            }
            k = k + 1;
        }
        assert(mapped.take(k as int) =~= mapped);
        out
    }
}

proof fn lemma_all_pairs_bounded(adj: Seq<Seq<usize>>, n: nat)
    requires
        adj.len() <= n,
        forall|v: int, k: int| 0 <= v < adj.len() && 0 <= k < adj[v].len() ==> (#[trigger] adj[v][k] as int) < n,
    ensures
        forall|t: int| 0 <= t < all_pairs(adj).len() ==> (#[trigger] all_pairs(adj)[t])[0] < n && all_pairs(adj)[t][1] < n,
    decreases adj.len(),
{
    if adj.len() > 0 {
        let a0 = adj.drop_last();
        assert forall|v: int, k: int| 0 <= v < a0.len() && 0 <= k < a0[v].len() implies (#[trigger] a0[v][k] as int) < n by {
            assert(a0[v] == adj[v]);
        }
        lemma_all_pairs_bounded(a0, n);
        let last = adj.last().map_values(|d: usize| [(adj.len() - 1) as usize, d]);
        assert forall|t: int| 0 <= t < all_pairs(adj).len() implies (#[trigger] all_pairs(adj)[t])[0] < n && all_pairs(adj)[t][1] < n by {
            if t >= all_pairs(a0).len() {
                let q = t - all_pairs(a0).len();
                assert(all_pairs(adj)[t] == last[q]);
                assert(adj[adj.len() - 1][q] == adj.last()[q]);
            } else {
                assert(all_pairs(adj)[t] == all_pairs(a0)[t]);
            }
        }
    }
}


/// The smaller of two indices.
pub open spec fn lo(a: usize, b: usize) -> usize {
    if a < b { a } else { b }
}

/// The larger of two indices.
pub open spec fn hi(a: usize, b: usize) -> usize {
    if a < b { b } else { a }
}

proof fn lemma_drop_value_contains(s: Seq<usize>, x: usize)
    ensures
        forall|y: usize| #[trigger] drop_value(s, x).contains(y) <==> (s.contains(y) && y != x),
    decreases s.len(),
{
    if s.len() > 0 {
        let s0 = s.drop_last();
        lemma_drop_value_contains(s0, x);
        let tail = if s.last() == x { Seq::<usize>::empty() } else { seq![s.last()] };
        assert forall|y: usize| #[trigger] drop_value(s, x).contains(y) <==> (s.contains(y) && y != x) by {
            let d = drop_value(s, x);
            assert(d == drop_value(s0, x) + tail);
            if d.contains(y) {
                let i = choose|i: int| 0 <= i < d.len() && d[i] == y;
                if i < drop_value(s0, x).len() {
                    assert(drop_value(s0, x)[i] == y);
                    assert(drop_value(s0, x).contains(y));
                    let j = choose|j: int| 0 <= j < s0.len() && s0[j] == y;
                    assert(s[j] == y);
                } else {
                    assert(tail[i - drop_value(s0, x).len()] == y);
                    assert(s[s.len() - 1] == y);
                }
            }
            if s.contains(y) && y != x {
                let j = choose|j: int| 0 <= j < s.len() && s[j] == y;
                if j < s0.len() {
                    assert(s0[j] == y);
                    assert(drop_value(s0, x).contains(y));
                    let i = choose|i: int| 0 <= i < drop_value(s0, x).len() && drop_value(s0, x)[i] == y;
                    assert(d[i] == y);
                } else {
                    assert(d[d.len() - 1] == y);
                }
            }
        }
    }
}

/// The classes of the entries of `l`, in list order.
fn map_to_roots(uf: &UnionFind, l: &Vec<usize>) -> (r: Vec<usize>)
    requires
        uf.wf(),
        forall|k: int| 0 <= k < l@.len() ==> (#[trigger] l@[k] as int) < uf@.len(),
    ensures
        r@ == map_roots(l@, uf@),
{
    let mut out: Vec<usize> = Vec::new();
    let mut k: usize = 0;
    while k < l.len()
        invariant
            uf.wf(),
            forall|t: int| 0 <= t < l@.len() ==> (#[trigger] l@[t] as int) < uf@.len(),
            k <= l@.len(),
            out@ =~= map_roots(l@.take(k as int), uf@),
        decreases l@.len() - k,
    {
        out.push(uf.find(l[k]));
        k = k + 1;
    }
    assert(l@.take(k as int) =~= l@);
    out
}

impl<T> CollapsibleManifold<T> {
    /// Merges `v0` into `v1` (both standing for themselves): `v0` is
    /// deleted and its class joins that of `v1`. Both get the data `f`
    /// computes from theirs (`v1` a clone of it); `v1` gets the merged
    /// adjacency, and every vertex on it has its list mapped to classes.
    pub fn merge(&mut self, v0: usize, v1: usize, f: impl Fn(&T, &T) -> T)
        where
            T: Clone,
        requires
            old(self).wf(),
            v0 != v1,
            v0 < old(self).num_indices(),
            v1 < old(self).num_indices(),
            old(self).roots()[v0 as int] == v0,
            old(self).roots()[v1 as int] == v1,
            old(self).adj().len() == old(self).num_indices(),
            call_requires(
                f,
                (&old(self).data_seq()[v0 as int], &old(self).data_seq()[v1 as int]),
            ),
        ensures
            final(self).wf(),
            final(self).roots() == united(old(self).roots(), v0 as int, v1 as int),
            final(self).adj() == merged_adj(old(self).adj(), final(self).roots(), v0, v1),
            final(self).data_seq().len() == old(self).data_seq().len(),
            old(self).adj_inv() ==> final(self).adj_inv(),
            call_ensures(
                f,
                (&old(self).data_seq()[v0 as int], &old(self).data_seq()[v1 as int]),
                final(self).data_seq()[v0 as int],
            ),
            cloned(final(self).data_seq()[v0 as int], final(self).data_seq()[v1 as int]),
            forall|u: int|
                0 <= u < old(self).num_indices() && u != v0 as int && u != v1 as int
                    ==> #[trigger] final(self).data_seq()[u] == old(self).data_seq()[u],
    {
        let src = v0;
        let dst = v1;
        let ghost adj0 = self.adj();
        let ghost roots0 = self.roots();
        let ghost n = self.num_indices();
        proof {
            if old(self).adj_inv() {
                lemma_merge_keeps(adj0, roots0, v0, v1);
            }
        }
        self.vertices.union(src, dst);
        let ghost roots2 = self.roots();
        proof {
            self.vertices.lemma_partition();
            assert(roots2[src as int] == dst);
            assert forall|u: int, k: int| 0 <= u < adj0.len() && 0 <= k < adj0[u].len() implies (#[trigger] adj0[u][k] as int) < n by {
                assert(adj0[u][k] == old(self).adj()[u][k]);
            }
        }
        // data
        let nd = f(&self.data[src], &self.data[dst]);
        let copy = nd.clone();
        self.data.set(dst, copy);
        self.data.set(src, nd);
        let ghost data1 = self.data@;
        // edges
        let elen = self.edges.len();
        let mut src_e: Vec<usize> = Vec::new();
        self.edges.set_and_swap(src, &mut src_e);
        let mut dst_e: Vec<usize> = Vec::new();
        self.edges.set_and_swap(dst, &mut dst_e);
        assert(src_e@ == adj0[src as int]);
        assert(dst_e@ == adj0[dst as int]);
        let ghost whole = adj0[dst as int] + adj0[src as int];
        let dl = dst_e.len();
        let sl = src_e.len();
        let mut comb: Vec<usize> = Vec::new();
        let mut k: usize = 0;
        while k < dl
            invariant
                self.vertices.wf(),
                self.vertices@ == roots2,
                roots2.len() == n,
                dl == dst_e@.len(),
                dst_e@ == adj0[dst as int],
                whole == adj0[dst as int] + adj0[src as int],
                forall|u: int, q: int| 0 <= u < adj0.len() && 0 <= q < adj0[u].len() ==> (#[trigger] adj0[u][q] as int) < n,
                0 <= dst < adj0.len(),
                k <= dl,
                comb@ == drop_value(map_roots(whole.take(k as int), roots2), dst),
            decreases dl - k,
        {
            let e = dst_e[k];
            assert(e == whole[k as int]);
            assert(adj0[dst as int][k as int] == e);
            let r = self.vertices.find(e);
            assert(map_roots(whole.take(k + 1), roots2) =~= map_roots(whole.take(k as int), roots2).push(r));
            assert(map_roots(whole.take(k as int), roots2).push(r).drop_last() =~= map_roots(whole.take(k as int), roots2));
            if r != dst {
                comb.push(r);
            }
            k = k + 1;
        }
        let mut k: usize = 0;
        while k < sl
            invariant
                self.vertices.wf(),
                self.vertices@ == roots2,
                roots2.len() == n,
                dl == dst_e@.len(),
                sl == src_e@.len(),
                src_e@ == adj0[src as int],
                dst_e@ == adj0[dst as int],
                whole == adj0[dst as int] + adj0[src as int],
                forall|u: int, q: int| 0 <= u < adj0.len() && 0 <= q < adj0[u].len() ==> (#[trigger] adj0[u][q] as int) < n,
                0 <= src < adj0.len(),
                k <= sl,
                comb@ == drop_value(map_roots(whole.take(dl + k), roots2), dst),
            decreases sl - k,
        {
            let e = src_e[k];
            assert(e == whole[dl + k]);
            assert(adj0[src as int][k as int] == e);
            let r = self.vertices.find(e);
            assert(map_roots(whole.take(dl + k + 1), roots2) =~= map_roots(whole.take(dl + k), roots2).push(r));
            assert(map_roots(whole.take(dl + k), roots2).push(r).drop_last() =~= map_roots(whole.take(dl + k), roots2));
            if r != dst {
                comb.push(r);
            }
            k = k + 1;
        }
        assert(whole.take(dl + sl) =~= whole);
        let new_dst = sort_dedup(&comb);
        let ghost nd_list = new_dst@;
        assert(nd_list == merged_list(adj0, roots2, src, dst));
        proof {
            lemma_drop_value_contains(map_roots(whole, roots2), dst);
        }
        // every entry of the merged list is a class other than src and dst
        assert forall|t: int| 0 <= t < nd_list.len() implies {
            &&& (#[trigger] nd_list[t] as int) < n
            &&& roots2[nd_list[t] as int] == nd_list[t]
            &&& nd_list[t] != src
            &&& nd_list[t] != dst
        } by {
            let x = nd_list[t];
            assert(nd_list.contains(x));
            assert(comb@.contains(x));
            assert(map_roots(whole, roots2).contains(x));
            let i = choose|i: int| 0 <= i < map_roots(whole, roots2).len() && map_roots(whole, roots2)[i] == x;
            assert(roots2[whole[i] as int] == x);
            assert((whole[i] as int) < n) by {
                if i < adj0[dst as int].len() {
                    assert(whole[i] == adj0[dst as int][i]);
                } else {
                    assert(whole[i] == adj0[src as int][i - adj0[dst as int].len()]);
                }
            }
        }
        // update the lists of the merged list's entries
        let ghost adj1 = self.adj();
        assert(adj1 =~= adj0.update(src as int, Seq::<usize>::empty()).update(dst as int, Seq::<usize>::empty()));
        let mut j: usize = 0;
        while j < new_dst.len()
            invariant
                self.vertices.wf(),
                self.vertices@ == roots2,
                is_partition(roots2),
                roots2.len() == n,
                self.edges@.len() == n,
                self.data@ == data1,
                data1.len() == n,
                elen == n,
                self.adj().len() == n,
                adj0.len() == n,
                forall|u: int, q: int| 0 <= u < n && 0 <= q < self.adj()[u].len() ==> (#[trigger] self.adj()[u][q] as int) < n,
                0 <= src < n,
                0 <= dst < n,
                src != dst,
                new_dst@ == nd_list,
                strictly_increasing(nd_list),
                forall|t: int| 0 <= t < nd_list.len() ==> {
                    &&& (#[trigger] nd_list[t] as int) < n
                    &&& roots2[nd_list[t] as int] == nd_list[t]
                    &&& nd_list[t] != src
                    &&& nd_list[t] != dst
                },
                forall|u: int, q: int| 0 <= u < adj0.len() && 0 <= q < adj0[u].len() ==> (#[trigger] adj0[u][q] as int) < n,
                j <= nd_list.len(),
                forall|u: int|
                    0 <= u < n ==> #[trigger] self.adj()[u] == if u == src as int || u == dst as int {
                        Seq::<usize>::empty()
                    } else if nd_list.take(j as int).contains(u as usize) {
                        sorted_set(map_roots(adj0[u], roots2))
                    } else {
                        adj0[u]
                    },
            decreases nd_list.len() - j,
        {
            let a = new_dst[j];
            let ghost cur = self.adj();
            proof {
                if nd_list.take(j as int).contains(a) {
                    let t2 = choose|t2: int| 0 <= t2 < nd_list.take(j as int).len() && nd_list.take(j as int)[t2] == a;
                    assert(nd_list[t2] < nd_list[j as int]);
                }
                assert(cur[a as int] == adj0[a as int]);
            }
            let mut la: Vec<usize> = Vec::new();
            self.edges.set_and_swap(a, &mut la);
            assert(la@ == adj0[a as int]);
            let mapped = map_to_roots(&self.vertices, &la);
            let sorted = sort_dedup(&mapped);
            let ghost sl_v = sorted@;
            self.edges.set(a, sorted);
            assert forall|u: int, q: int| 0 <= u < n && 0 <= q < self.adj()[u].len() implies (#[trigger] self.adj()[u][q] as int) < n by {
                if u == a as int {
                    let x = sl_v[q];
                    assert(sl_v.contains(x));
                    assert(mapped@.contains(x));
                    let i = choose|i: int| 0 <= i < mapped@.len() && mapped@[i] == x;
                    assert(mapped@[i] == roots2[la@[i] as int]);
                    assert(la@[i] == adj0[a as int][i]);
                } else {
                    assert(self.adj()[u] == cur[u]);
                }
            }
            assert forall|u: int|
                0 <= u < n implies #[trigger] self.adj()[u] == if u == src as int || u == dst as int {
                    Seq::<usize>::empty()
                } else if nd_list.take(j + 1).contains(u as usize) {
                    sorted_set(map_roots(adj0[u], roots2))
                } else {
                    adj0[u]
                } by {
                let tk1 = nd_list.take(j + 1);
                let tk = nd_list.take(j as int);
                assert(tk1 =~= tk.push(a));
                if u == a as int {
                    assert(tk1[j as int] == a);
                } else {
                    assert(self.adj()[u] == cur[u]);
                    if tk1.contains(u as usize) {
                        let t3 = choose|t3: int| 0 <= t3 < tk1.len() && tk1[t3] == u as usize;
                        assert(t3 != j as int);
                        assert(tk[t3] == u as usize);
                    }
                    if tk.contains(u as usize) {
                        let t3 = choose|t3: int| 0 <= t3 < tk.len() && tk[t3] == u as usize;
                        assert(tk1[t3] == u as usize);
                    }
                }
            }
            j = j + 1;
        }
        assert(nd_list.take(j as int) =~= nd_list);
        let ghost adj2 = self.adj();
        self.edges.set(dst, new_dst);
        assert(self.adj() =~= adj2.update(dst as int, nd_list));
        assert(self.adj() =~= merged_adj(adj0, roots2, src, dst)) by {
            assert forall|u: int| 0 <= u < n implies #[trigger] self.adj()[u] == merged_adj(adj0, roots2, src, dst)[u] by {
                if u != dst as int {
                    assert(self.adj()[u] == adj2[u]);
                }
            }
        }
        // the lists hold classes
        assert forall|u: int, q: int|
            0 <= u < self.adj().len() && 0 <= q < self.adj()[u].len() implies (#[trigger] self.adj()[u][q] as int)
                < self.num_indices() by {
            if u == dst as int {
                assert(nd_list[q] == self.adj()[u][q]);
            } else {
                assert(self.adj()[u] == adj2[u]);
            }
        }
    }
}

// ---------------------------------------------------------------------------
// Faces around an edge
// ---------------------------------------------------------------------------

/// A short list of face indices, kept in a `SmallVec` that holds up to
/// three of them inline.
#[verifier::external_body]
#[derive(Debug, PartialEq, Eq)]
pub struct FaceList {
    v: SmallVec<[usize; 3]>,
}

/// The face indices a list holds, in order.
pub uninterp spec fn face_list_items(v: FaceList) -> Seq<usize>;

/// `SmallVec::from_slice`: a list holding a copy of the slice's items.
#[verifier::external_body]
fn face_list_from_slice(s: &[usize]) -> (r: FaceList)
    ensures
        face_list_items(r) == s@,
{
    FaceList { v: SmallVec::from_slice(s) }
}

/// `SmallVec::push`: appends one item at the end.
#[verifier::external_body]
fn face_list_push(l: &mut FaceList, x: usize)
    ensures
        face_list_items(*final(l)) == face_list_items(*old(l)).push(x),
{
    l.v.push(x)
}

/// `SmallVec::as_slice`: the items, as a slice.
#[verifier::external_body]
fn face_list_as_slice(l: &FaceList) -> (r: &[usize])
    ensures
        r@ == face_list_items(*l),
{
    l.v.as_slice()
}

/// `s` with each item kept only at its first occurrence.
pub open spec fn first_occurrences(s: Seq<usize>) -> Seq<usize>
    decreases s.len(),
{
    if s.len() == 0 {
        s
    } else {
        let p = first_occurrences(s.drop_last());
        if p.contains(s.last()) {
            p
        } else {
            p.push(s.last())
        }
    }
}

/// `SmallVec::as_mut_slice`: the items, as a mutable slice; what is
/// written through the slice is what the list then holds.
#[verifier::external_body]
fn face_list_as_mut_slice(l: &mut FaceList) -> (r: &mut [usize])
    ensures
        r@ == face_list_items(*old(l)),
        final(r)@.len() == r@.len(),
        face_list_items(*final(l)) == final(r)@,
{
    l.v.as_mut_slice()
}

/// `std::slice::from_mut`: the one item, as a mutable slice; what is
/// written through the slice is the item's new value.
#[verifier::external_body]
fn slice_from_mut(x: &mut usize) -> (r: &mut [usize])
    ensures
        r@ == seq![*old(x)],
        final(r)@.len() == 1,
        *final(x) == final(r)@[0],
{
    std::slice::from_mut(x)
}

/// `<[usize; 2]>::as_mut_slice`: the pair, as a mutable slice; what is
/// written through the slice is the pair's new value.
#[verifier::external_body]
fn pair_as_mut_slice(p: &mut [usize; 2]) -> (r: &mut [usize])
    ensures
        r@ == seq![old(p)[0], old(p)[1]],
        final(r)@.len() == 2,
        final(p)[0] == final(r)@[0],
        final(p)[1] == final(r)@[1],
{
    p.as_mut_slice()
}

/// `std::slice::from_ref`: a slice holding the one item.
#[verifier::external_body]
fn slice_from_ref(x: &usize) -> (r: &[usize])
    ensures
        r@ == seq![*x],
{
    std::slice::from_ref(x)
}

/// The faces around an edge of a mesh: one on a boundary edge, two on a
/// manifold edge, more on a non-manifold edge.
#[derive(Debug, PartialEq, Eq)]
pub enum EdgeKind {
    Boundary(usize),
    Manifold([usize; 2]),
    NonManifold(FaceList),
}

fn slice_contains(s: &[usize], v: usize) -> (r: bool)
    ensures
        r == s@.contains(v),
{
    let mut i: usize = 0;
    while i < s.len()
        invariant
            i <= s@.len(),
            forall|t: int| 0 <= t < i ==> s@[t] != v,
        decreases s@.len() - i,
    {
        if s[i] == v {
            assert(s@[i as int] == v);
            return true;
        }
        i = i + 1;
    }
    false
}

impl Clone for EdgeKind {
    fn clone(&self) -> (r: Self)
        ensures
            r.items() == self.items(),
            (r is Boundary) == (*self is Boundary),
            (r is Manifold) == (*self is Manifold),
    {
        match self {
            EdgeKind::Boundary(a) => EdgeKind::Boundary(*a),
            EdgeKind::Manifold(p) => EdgeKind::Manifold([p[0], p[1]]),
            EdgeKind::NonManifold(fs) => EdgeKind::NonManifold(face_list_from_slice(face_list_as_slice(fs))),
        }
    }
}

impl EdgeKind {
    /// The faces, in the order they were added.
    pub open spec fn items(&self) -> Seq<usize> {
        match *self {
            EdgeKind::Boundary(a) => seq![a],
            EdgeKind::Manifold(p) => seq![p[0], p[1]],
            EdgeKind::NonManifold(v) => face_list_items(v),
        }
    }

    /// Adds face `v` unless it is already there; says whether it was added.
    pub fn insert(&mut self, v: usize) -> (r: bool)
        ensures
            r == !old(self).items().contains(v),
            !r ==> *final(self) == *old(self),
            r ==> final(self).items() == old(self).items().push(v),
            r ==> match *old(self) {
                EdgeKind::Boundary(a) => *final(self) == EdgeKind::Manifold([a, v]),
                _ => *final(self) is NonManifold,
            },
    {
        match self {
            EdgeKind::Boundary(a) => {
                let a = *a;
                if a == v {
                    assert(old(self).items()[0] == v);
                    return false;
                }
                *self = EdgeKind::Manifold([a, v]);
                assert(self.items() =~= old(self).items().push(v));
                true
            },
            EdgeKind::Manifold(p) => {
                let a = p[0];
                let b = p[1];
                if a == v || b == v {
                    assert(old(self).items()[0] == a && old(self).items()[1] == b);
                    return false;
                }
                let arr = [a, b, v];
                let sv = face_list_from_slice(&arr);
                *self = EdgeKind::NonManifold(sv);
                assert(self.items() =~= old(self).items().push(v));
                true
            },
            EdgeKind::NonManifold(vs) => {
                if slice_contains(face_list_as_slice(vs), v) {
                    return false;
                }
                face_list_push(vs, v);
                true
            },
        }
    }

    pub fn is_boundary(&self) -> (r: bool)
        ensures
            r == (*self is Boundary),
    {
        matches!(self, EdgeKind::Boundary(_))
    }

    /// The faces, as a slice.
    pub fn as_slice(&self) -> (r: &[usize])
        ensures
            r@ == self.items(),
    {
        match self {
            EdgeKind::Boundary(f) => slice_from_ref(f),
            EdgeKind::Manifold(fs) => fs.as_slice(),
            EdgeKind::NonManifold(fs) => face_list_as_slice(fs),
        }
    }

    /// The faces, as a mutable slice: what is written through it is what
    /// the edge then holds, its kind unchanged.
    pub fn as_mut_slice(&mut self) -> (r: &mut [usize])
        ensures
            r@ == old(self).items(),
            final(r)@.len() == r@.len(),
            final(self).items() == final(r)@,
            (*final(self) is Boundary) == (*old(self) is Boundary),
            (*final(self) is Manifold) == (*old(self) is Manifold),
    {
        match self {
            EdgeKind::Boundary(f) => slice_from_mut(f),
            EdgeKind::Manifold(fs) => pair_as_mut_slice(fs),
            EdgeKind::NonManifold(fs) => face_list_as_mut_slice(fs),
        }
    }

    /// The faces of `v` in order, each once, as a boundary, manifold or
    /// non-manifold edge depending on how many there are; nothing if `v`
    /// is empty.
    pub fn from_iter(v: &[usize]) -> (r: Option<Self>)
        ensures
            v@.len() == 0 <==> r is None,
            r matches Some(e) ==> e.items() == first_occurrences(v@),
            r matches Some(e) ==> ((e is Boundary) <==> first_occurrences(v@).len() == 1),
            r matches Some(e) ==> ((e is Manifold) <==> first_occurrences(v@).len() == 2),
    {
        if v.len() == 0 {
            return None;
        }
        let mut curr = EdgeKind::Boundary(v[0]);
        assert(v@.take(1) =~= seq![v@[0]]);
        assert(first_occurrences(v@.take(1)) =~= seq![v@[0]]) by {
            let t = v@.take(1);
            assert(t.drop_last() =~= Seq::<usize>::empty());
            assert(first_occurrences(t.drop_last()) =~= Seq::<usize>::empty());
            assert(!first_occurrences(t.drop_last()).contains(t.last()));
            assert(t.last() == v@[0]);
        }
        let mut i: usize = 1;
        while i < v.len()
            invariant
                1 <= i <= v@.len(),
                curr.items() == first_occurrences(v@.take(i as int)),
                (curr is Boundary) <==> curr.items().len() == 1,
                (curr is Manifold) <==> curr.items().len() == 2,
                curr.items().len() >= 1,
            decreases v@.len() - i,
        {
            let x = v[i];
            assert(v@.take(i + 1).drop_last() =~= v@.take(i as int));
            curr.insert(x);
            i = i + 1;
        }
        assert(v@.take(i as int) =~= v@);
        Some(curr)
    }

    /// Keeps one face per key (`keys[f]` being the key of face `f`): the
    /// first, ordered by key; becomes a boundary or manifold edge when one
    /// or two faces are left.
    pub fn dedup_by_key(&mut self, keys: &[usize])
        requires
            forall|k: int| 0 <= k < old(self).items().len() ==> (#[trigger] old(self).items()[k] as int) < keys@.len(),
            old(self).items().len() > 0,
        ensures
            match *old(self) {
                EdgeKind::Boundary(_) => *final(self) == *old(self),
                EdgeKind::Manifold(p) => *final(self) == if keys@[p[0] as int] == keys@[p[1] as int] {
                    EdgeKind::Boundary(p[0])
                } else {
                    *old(self)
                },
                EdgeKind::NonManifold(_) => {
                    let d = dedup_by_root(old(self).items(), keys@);
                    &&& final(self).items() == d
                    &&& (*final(self) is Boundary) <==> d.len() == 1
                    &&& (*final(self) is Manifold) <==> d.len() == 2
                },
            },
    {
        match self {
            EdgeKind::Boundary(_) => {},
            EdgeKind::Manifold(p) => {
                let a = p[0];
                let b = p[1];
                assert(old(self).items()[0] == a && old(self).items()[1] == b);
                if keys[a] == keys[b] {
                    *self = EdgeKind::Boundary(a);
                }
            },
            EdgeKind::NonManifold(fs) => {
                let items = face_list_as_slice(fs);
                assert(items@ == old(self).items());
                assert forall|k: int| 0 <= k < items@.len() implies (#[trigger] items@[k] as int) < keys@.len() by {
                    assert(items@[k] == old(self).items()[k]);
                }
                let d = dedup_keys(items, keys);
                let ghost s0 = old(self).items();
                assert(d.len() > 0 || s0.len() == 0) by {
                    if s0.len() > 0 {
                        assert(map_roots(d@, keys@).contains(keys@[s0[0] as int]));
                    }
                }
                if d.len() == 1 {
                    *self = EdgeKind::Boundary(d[0]);
                    assert(self.items() =~= d@);
                } else if d.len() == 2 {
                    *self = EdgeKind::Manifold([d[0], d[1]]);
                    assert(self.items() =~= d@);
                } else {
                    let sv = face_list_from_slice(d.as_slice());
                    *self = EdgeKind::NonManifold(sv);
                }
            },
        }
    }
}

proof fn lemma_drop_two_increasing(s: Seq<usize>, a: usize, b: usize)
    requires
        strictly_increasing(s),
    ensures
        strictly_increasing(drop_two(s, a, b)),
    decreases s.len(),
{
    if s.len() > 0 {
        let s0 = s.drop_last();
        assert(strictly_increasing(s0)) by {
            assert forall|i: int, j: int| 0 <= i < j < s0.len() implies s0[i] < s0[j] by {
                assert(s0[i] == s[i] && s0[j] == s[j]);
            }
        }
        lemma_drop_two_increasing(s0, a, b);
        lemma_drop_two_contains(s0, a, b);
        let d0 = drop_two(s0, a, b);
        let d = drop_two(s, a, b);
        if !(s.last() == a || s.last() == b) {
            assert(d == d0 + seq![s.last()]);
            assert forall|i: int, j: int| 0 <= i < j < d.len() implies d[i] < d[j] by {
                if j == d0.len() {
                    assert(d0.contains(d[i]));
                    let k = choose|k: int| 0 <= k < s0.len() && s0[k] == d[i];
                    assert(s[k] < s[s.len() - 1]);
                } else {
                    assert(d[i] == d0[i] && d[j] == d0[j]);
                }
            }
        } else {
            assert(d =~= d0);
        }
    }
}

/// Merging two sorted neighbour lists and dropping both vertices does not
/// depend on which list comes first: the ring around an edge is the same
/// from either end.
pub proof fn lemma_shared_one_ring_symmetric(l: Seq<usize>, r: Seq<usize>, v0: usize, v1: usize)
    requires
        strictly_increasing(l),
        strictly_increasing(r),
    ensures
        drop_two(values(merged(l, r)), v0, v1) == drop_two(values(merged(r, l)), v1, v0),
{
    crate::merge::lemma_merged_sorted_union(l, r);
    crate::merge::lemma_merged_sorted_union(r, l);
    let a = values(merged(l, r));
    let b = values(merged(r, l));
    lemma_drop_two_increasing(a, v0, v1);
    lemma_drop_two_increasing(b, v1, v0);
    lemma_drop_two_contains(a, v0, v1);
    lemma_drop_two_contains(b, v1, v0);
    assert forall|x: usize| #[trigger] drop_two(a, v0, v1).contains(x) <==> drop_two(b, v1, v0).contains(x) by {
        assert(a.contains(x) <==> b.contains(x));
    }
    lemma_sorted_unique(drop_two(a, v0, v1), drop_two(b, v1, v0));
}

/// Merging a remaining vertex `v0` into another, `v1`, deletes `v0`, keeps
/// `v1`, puts the two in one class and leaves one vertex fewer.
pub proof fn lemma_merge_collapses(roots: Seq<usize>, v0: usize, v1: usize)
    requires
        is_partition(roots),
        v0 != v1,
        v0 < roots.len(),
        v1 < roots.len(),
        roots[v0 as int] == v0,
        roots[v1 as int] == v1,
    ensures
        ({
            let r2 = united(roots, v0 as int, v1 as int);
            &&& is_partition(r2)
            &&& r2[v0 as int] != v0
            &&& r2[v1 as int] == v1
            &&& r2[v0 as int] == r2[v1 as int]
            &&& num_classes(r2) + 1 == num_classes(roots)
        }),
{
    let a = v0 as int;
    let b = v1 as int;
    crate::union_find::lemma_united_partition(roots, a, b);
    crate::union_find::lemma_classes_after_union(roots, a, b);
}

/// The first index from `i` on whose entry is at least `x`.
pub open spec fn pos_at_least(r: Seq<usize>, x: usize, i: int) -> int
    decreases r.len() - i,
{
    if i < 0 || i >= r.len() {
        r.len() as int
    } else if r[i] >= x {
        i
    } else {
        pos_at_least(r, x, i + 1)
    }
}

proof fn lemma_pos_at_least(r: Seq<usize>, x: usize, i: int)
    requires
        0 <= i <= r.len(),
    ensures
        i <= pos_at_least(r, x, i) <= r.len(),
        forall|t: int| i <= t < pos_at_least(r, x, i) ==> r[t] < x,
        pos_at_least(r, x, i) < r.len() ==> r[pos_at_least(r, x, i)] >= x,
    decreases r.len() - i,
{
    if i < r.len() && r[i] < x {
        lemma_pos_at_least(r, x, i + 1);
    }
}

/// Every sequence has a sorted set of its values.
pub proof fn lemma_sorted_set(s: Seq<usize>)
    ensures
        lists_sorted(sorted_set(s), s),
    decreases s.len(),
{
    if s.len() == 0 {
        let e = Seq::<usize>::empty();
        assert(lists_sorted(e, s));
    } else {
        let s0 = s.drop_last();
        let x = s.last();
        lemma_sorted_set(s0);
        let r0 = sorted_set(s0);
        let r = if r0.contains(x) {
            r0
        } else {
            lemma_pos_at_least(r0, x, 0);
            let p = pos_at_least(r0, x, 0);
            if p < r0.len() {
                assert(r0[p] != x);
            }
            lemma_insert_sorted(r0, p, x);
            r0.insert(p, x)
        };
        assert forall|y: usize| #[trigger] r.contains(y) <==> s.contains(y) by {
            assert(s =~= s0.push(x));
            if s.contains(y) && y != x {
                let j = choose|j: int| 0 <= j < s.len() && s[j] == y;
                assert(s0[j] == y);
            }
            if s0.contains(y) {
                let j = choose|j: int| 0 <= j < s0.len() && s0[j] == y;
                assert(s[j] == y);
            }
            if y == x {
                assert(s[s.len() - 1] == x);
            }
        }
        assert(lists_sorted(r, s));
    }
}

/// Adding an edge between two different vertices puts each on the other's
/// list, both lists staying sorted without repeats.
pub proof fn lemma_add_edge_links(adj: Seq<Seq<usize>>, v0: usize, v1: usize)
    requires
        v0 != v1,
        v0 < adj.len(),
        v1 < adj.len(),
    ensures
        add_edge_adj(adj, v0, v1)[v0 as int].contains(v1),
        add_edge_adj(adj, v0, v1)[v1 as int].contains(v0),
        strictly_increasing(add_edge_adj(adj, v0, v1)[v0 as int]),
        strictly_increasing(add_edge_adj(adj, v0, v1)[v1 as int]),
        forall|u: int| 0 <= u < adj.len() && u != v0 && u != v1 ==> #[trigger] add_edge_adj(adj, v0, v1)[u] == adj[u],
{
    let l0 = adj[v0 as int].push(v1);
    let l1 = adj[v1 as int].push(v0);
    lemma_sorted_set(l0);
    lemma_sorted_set(l1);
    assert(l0[l0.len() - 1] == v1);
    assert(l1[l1.len() - 1] == v0);
    assert(l0.contains(v1));
    assert(l1.contains(v0));
}

} // verus!
