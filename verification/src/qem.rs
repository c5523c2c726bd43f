//! The integer decisions of edge-collapse simplification: the link
//! condition that keeps a collapse from making the mesh non-manifold, and
//! the bookkeeping of faces and boundary edges around a collapsed edge.
use vstd::prelude::*;
use crate::manifold::{CollapsibleManifold, lo, hi, sort_dedup, lists_sorted};
use crate::merge::strictly_increasing;

verus! {

/// How many times `x` occurs in `s`.
pub open spec fn occurrences(s: Seq<usize>, x: usize) -> nat
    decreases s.len(),
{
    if s.len() == 0 {
        0
    } else {
        occurrences(s.drop_last(), x) + (if s.last() == x { 1nat } else { 0nat })
    }
}

/// How many pairs `(i, j)` have `a[i] == b[j]`.
pub open spec fn shared_pairs(a: Seq<usize>, b: Seq<usize>) -> nat
    decreases a.len(),
{
    if a.len() == 0 {
        0
    } else {
        shared_pairs(a.drop_last(), b) + occurrences(b, a.last())
    }
}

proof fn lemma_occurrences_bound(s: Seq<usize>, x: usize)
    ensures
        occurrences(s, x) <= s.len(),
    decreases s.len(),
{
    if s.len() > 0 {
        lemma_occurrences_bound(s.drop_last(), x);
    }
}

/// Equal pairs number at most the product of the two lengths.
pub proof fn lemma_shared_pairs_bound(a: Seq<usize>, b: Seq<usize>)
    ensures
        shared_pairs(a, b) <= a.len() * b.len(),
    decreases a.len(),
{
    if a.len() > 0 {
        lemma_shared_pairs_bound(a.drop_last(), b);
        lemma_occurrences_bound(b, a.last());
        assert((a.len() - 1) * b.len() + b.len() == a.len() * b.len()) by (nonlinear_arith);
    }
}

/// How many pairs of an entry of `a` and an entry of `b` are equal.
pub fn num_shared(a: &[usize], b: &[usize]) -> (r: usize)
    requires
        shared_pairs(a@, b@) <= usize::MAX,
    ensures
        r == shared_pairs(a@, b@),
{
    let mut total: usize = 0;
    let mut i: usize = 0;
    while i < a.len()
        invariant
            i <= a@.len(),
            shared_pairs(a@, b@) <= usize::MAX,
            total == shared_pairs(a@.take(i as int), b@),
        decreases a@.len() - i,
    {
        let x = a[i];
        let mut j: usize = 0;
        let ghost start = total;
        proof {
            lemma_shared_pairs_prefix(a@, b@, i as int + 1);
            assert(a@.take(i + 1).drop_last() =~= a@.take(i as int));
        }
        while j < b.len()
            invariant
                j <= b@.len(),
                i < a@.len(),
                x == a@[i as int],
                shared_pairs(a@.take(i + 1), b@) <= usize::MAX,
                shared_pairs(a@.take(i + 1), b@) == shared_pairs(a@.take(i as int), b@) + occurrences(b@, x),
                start == shared_pairs(a@.take(i as int), b@),
                total == start + occurrences(b@.take(j as int), x),
            decreases b@.len() - j,
        {
            assert(b@.take(j + 1).drop_last() =~= b@.take(j as int));
            proof {
                lemma_occurrences_prefix(b@, x, j as int + 1);
            }
            if b[j] == x {
                total = total + 1;
            }
            j = j + 1;
        }
        assert(b@.take(j as int) =~= b@);
        i = i + 1;
    }
    assert(a@.take(i as int) =~= a@);
    total
}

proof fn lemma_shared_pairs_prefix(a: Seq<usize>, b: Seq<usize>, k: int)
    requires
        0 <= k <= a.len(),
    ensures
        shared_pairs(a.take(k), b) <= shared_pairs(a, b),
    decreases a.len() - k,
{
    if k < a.len() {
        lemma_shared_pairs_prefix(a, b, k + 1);
        assert(a.take(k + 1).drop_last() =~= a.take(k));
    } else {
        assert(a.take(k) =~= a);
    }
}

/// Equal pairs between `a` and a list `b` without repeats number at most
/// the entries of `a`.
pub proof fn lemma_shared_pairs_distinct(a: Seq<usize>, b: Seq<usize>)
    requires
        b.no_duplicates(),
    ensures
        shared_pairs(a, b) <= a.len(),
    decreases a.len(),
{
    if a.len() > 0 {
        lemma_shared_pairs_distinct(a.drop_last(), b);
        lemma_occurrences_distinct(b, a.last());
    }
}

proof fn lemma_occurrences_distinct(s: Seq<usize>, x: usize)
    requires
        s.no_duplicates(),
    ensures
        occurrences(s, x) <= 1,
        !s.contains(x) ==> occurrences(s, x) == 0,
    decreases s.len(),
{
    if s.len() > 0 {
        let d = s.drop_last();
        assert(d.no_duplicates()) by {
            assert forall|i: int, j: int| 0 <= i < d.len() && 0 <= j < d.len() && i != j implies d[i] != d[j] by {
                assert(d[i] == s[i] && d[j] == s[j]);
            }
        }
        lemma_occurrences_distinct(d, x);
        if s.last() == x {
            if d.contains(x) {
                let k = choose|k: int| 0 <= k < d.len() && d[k] == x;
                assert(s[k] == s[s.len() - 1]);
            }
        }
        if !s.contains(x) && d.contains(x) {
            let k = choose|k: int| 0 <= k < d.len() && d[k] == x;
            assert(s[k] == x);
        }
        if !s.contains(x) {
            assert(s[s.len() - 1] != x);
        }
    }
}

proof fn lemma_occurrences_prefix(s: Seq<usize>, x: usize, k: int)
    requires
        0 <= k <= s.len(),
    ensures
        occurrences(s.take(k), x) <= occurrences(s, x),
    decreases s.len() - k,
{
    if k < s.len() {
        lemma_occurrences_prefix(s, x, k + 1);
        assert(s.take(k + 1).drop_last() =~= s.take(k));
    } else {
        assert(s.take(k) =~= s);
    }
}

/// How many entries of `a` occur somewhere in `b`.
pub open spec fn count_contained(a: Seq<usize>, b: Seq<usize>) -> nat
    decreases a.len(),
{
    if a.len() == 0 {
        0
    } else {
        count_contained(a.drop_last(), b) + (if b.contains(a.last()) { 1nat } else { 0nat })
    }
}

proof fn lemma_count_contained_bound(a: Seq<usize>, b: Seq<usize>)
    ensures
        count_contained(a, b) <= a.len(),
    decreases a.len(),
{
    if a.len() > 0 {
        lemma_count_contained_bound(a.drop_last(), b);
    }
}

/// The count of shared neighbours is the number of entries of `a` that
/// occur in `b`: the length of `a` filtered by membership in `b`.
pub proof fn lemma_count_contained_filter(a: Seq<usize>, b: Seq<usize>)
    ensures
        count_contained(a, b) == a.filter(|x: usize| b.contains(x)).len(),
    decreases a.len(),
{
    reveal(Seq::filter);
    if a.len() > 0 {
        lemma_count_contained_filter(a.drop_last(), b);
    }
}

/// The link condition of collapsing an edge: the two ends share exactly
/// one neighbour on a boundary edge and exactly two on an interior edge.
/// `v1_adj` and `v0_adj` are the neighbours of the two ends.
pub fn link_condition(v0_adj: &[usize], v1_adj: &[usize], is_bd: bool) -> (r: bool)
    ensures
        r == (count_contained(v1_adj@, v0_adj@) == if is_bd { 1nat } else { 2nat }),
        r == (v1_adj@.filter(|x: usize| v0_adj@.contains(x)).len() == if is_bd { 1nat } else { 2nat }),
{
    proof {
        lemma_count_contained_filter(v1_adj@, v0_adj@);
    }
    let mut cnt: usize = 0;
    let mut i: usize = 0;
    while i < v1_adj.len()
        invariant
            i <= v1_adj@.len(),
            cnt == count_contained(v1_adj@.take(i as int), v0_adj@),
        decreases v1_adj@.len() - i,
    {
        let x = v1_adj[i];
        let mut found = false;
        let mut j: usize = 0;
        while j < v0_adj.len()
            invariant
                j <= v0_adj@.len(),
                found == v0_adj@.take(j as int).contains(x),
            decreases v0_adj@.len() - j,
        {
            let ghost was = found;
            if v0_adj[j] == x {
                found = true;
            }
            assert(found == v0_adj@.take(j + 1).contains(x)) by {
                let tk = v0_adj@.take(j as int);
                let tk1 = v0_adj@.take(j + 1);
                if v0_adj@[j as int] == x {
                    assert(tk1[j as int] == x);
                } else if was {
                    let t = choose|t: int| 0 <= t < tk.len() && tk[t] == x;
                    assert(tk1[t] == x);
                } else if tk1.contains(x) {
                    let t = choose|t: int| 0 <= t < tk1.len() && tk1[t] == x;
                    assert(tk[t] == x);
                }
            }
            j = j + 1;
        }
        assert(v0_adj@.take(j as int) =~= v0_adj@);
        assert(v1_adj@.take(i + 1).drop_last() =~= v1_adj@.take(i as int));
        proof {
            lemma_count_contained_bound(v1_adj@.take(i as int), v0_adj@);
        }
        if found {
            cnt = cnt + 1;
        }
        i = i + 1;
    }
    assert(v1_adj@.take(i as int) =~= v1_adj@);
    if is_bd {
        cnt == 1
    } else {
        cnt == 2
    }
}

/// The entries of `s` that do not occur in `t`, in order.
pub open spec fn not_in(s: Seq<usize>, t: Seq<usize>) -> Seq<usize>
    decreases s.len(),
{
    if s.len() == 0 {
        s
    } else {
        not_in(s.drop_last(), t) + (if t.contains(s.last()) { Seq::empty() } else { seq![s.last()] })
    }
}

/// Moves the faces around a collapsed vertex to the faces around the
/// vertex it collapses into: `ef0` is emptied, and each of its faces that
/// `ef1` did not hold is appended to `ef1`.
pub fn absorb_faces(ef0: &mut Vec<usize>, ef1: &mut Vec<usize>)
    ensures
        final(ef0)@ == Seq::<usize>::empty(),
        final(ef1)@ == old(ef1)@ + not_in(old(ef0)@, old(ef1)@),
{
    let ef1_len = ef1.len();
    let mut taken: Vec<usize> = Vec::new();
    std::mem::swap(ef0, &mut taken);
    let mut k: usize = 0;
    while k < taken.len()
        invariant
            ef1_len == old(ef1)@.len(),
            taken@ == old(ef0)@,
            k <= taken@.len(),
            ef1@ == old(ef1)@ + not_in(taken@.take(k as int), old(ef1)@),
        decreases taken@.len() - k,
    {
        let f = taken[k];
        let mut present = false;
        let mut j: usize = 0;
        while j < ef1_len
            invariant
                ef1_len == old(ef1)@.len(),
                ef1_len <= ef1@.len(),
                ef1@.take(ef1_len as int) == old(ef1)@,
                j <= ef1_len,
                present == old(ef1)@.take(j as int).contains(f),
            decreases ef1_len - j,
        {
            assert(ef1@[j as int] == old(ef1)@[j as int]);
            let ghost was = present;
            if ef1[j] == f {
                present = true;
            }
            assert(present == old(ef1)@.take(j + 1).contains(f)) by {
                let tk = old(ef1)@.take(j as int);
                let tk1 = old(ef1)@.take(j + 1);
                if old(ef1)@[j as int] == f {
                    assert(tk1[j as int] == f);
                } else if was {
                    let t = choose|t: int| 0 <= t < tk.len() && tk[t] == f;
                    assert(tk1[t] == f);
                } else if tk1.contains(f) {
                    let t = choose|t: int| 0 <= t < tk1.len() && tk1[t] == f;
                    assert(tk[t] == f);
                }
            }
            j = j + 1;
        }
        assert(old(ef1)@.take(ef1_len as int) =~= old(ef1)@);
        assert(taken@.take(k + 1).drop_last() =~= taken@.take(k as int));
        if !present {
            ef1.push(f);
        }
        assert(ef1@ =~= old(ef1)@ + not_in(taken@.take(k + 1), old(ef1)@));
        k = k + 1;
    }
    assert(taken@.take(k as int) =~= taken@);
}

/// Whether edge `e`, its ends mapped by `roots`, joins `e0` and `e1` (`e0 < e1`).
pub open spec fn joins(roots: Seq<usize>, e: [usize; 2], e0: usize, e1: usize) -> bool {
    let a = roots[e[0] as int];
    let b = roots[e[1] as int];
    lo(a, b) == e0 && hi(a, b) == e1
}

/// Whether one of the boundary edges `bd_es` now joins the vertices `e0`
/// and `e1` (`e0 < e1`), its ends mapped to the vertices standing for them.
pub fn is_boundary_edge<T>(m: &CollapsibleManifold<T>, bd_es: &[[usize; 2]], e0: usize, e1: usize) -> (r: bool)
    requires
        m.wf(),
        forall|k: int| 0 <= k < bd_es@.len() ==> (#[trigger] bd_es@[k])[0] < m.num_indices() && bd_es@[k][1] < m.num_indices(),
    ensures
        r == exists|k: int| 0 <= k < bd_es@.len() && #[trigger] joins(m.roots(), bd_es@[k], e0, e1),
{
    let mut k: usize = 0;
    while k < bd_es.len()
        invariant
            m.wf(),
            forall|q: int| 0 <= q < bd_es@.len() ==> (#[trigger] bd_es@[q])[0] < m.num_indices() && bd_es@[q][1] < m.num_indices(),
            k <= bd_es@.len(),
            forall|q: int| 0 <= q < k ==> !#[trigger] joins(m.roots(), bd_es@[q], e0, e1),
        decreases bd_es@.len() - k,
    {
        let e = bd_es[k];
        let a = m.get_new_vertex(e[0]);
        let b = m.get_new_vertex(e[1]);
        let (x, y) = if a < b { (a, b) } else { (b, a) };
        assert(bd_es@[k as int] == e);
        if x == e0 && y == e1 {
            assert(joins(m.roots(), bd_es@[k as int], e0, e1));
            return true;
        }
        k = k + 1;
    }
    false
}

/// The `i`-th triangle of the fan of polygon `f` from its first corner.
pub open spec fn fan_tri(f: Seq<usize>, i: int) -> [usize; 3] {
    [f[0], f[i + 1], f[i + 2]]
}

/// Whether a triangle has three different corners.
pub open spec fn non_degenerate(t: [usize; 3]) -> bool {
    t[0] != t[1] && t[0] != t[2] && t[1] != t[2]
}

/// Whether a triangle has `x` as a corner.
pub open spec fn has_corner(t: [usize; 3], x: usize) -> bool {
    t[0] == x || t[1] == x || t[2] == x
}

/// Whether `x` is a corner, other than `v`, of a non-degenerate triangle of
/// the fan of `f` that has `v` as a corner.
pub open spec fn fan_neighbour(f: Seq<usize>, v: usize, x: usize) -> bool {
    x != v && exists|i: int|
        0 <= i && i + 2 < f.len() && #[trigger] non_degenerate(fan_tri(f, i)) && has_corner(fan_tri(f, i), v)
            && has_corner(fan_tri(f, i), x)
}

/// Face `f`, its corners `offset` and above mapped to the vertices that
/// now stand for them.
pub open spec fn mapped_face(f: Seq<usize>, roots: Seq<usize>, offset: usize) -> Seq<usize> {
    f.map_values(|vi: usize| roots[vi - offset])
}

/// Whether `x` neighbours `v` in the fan of one of the first `n` faces of
/// `ids`, mapped by `roots`.
pub open spec fn neighbour_in_faces(
    faces: Seq<Seq<usize>>,
    ids: Seq<usize>,
    roots: Seq<usize>,
    offset: usize,
    v: usize,
    x: usize,
    n: int,
) -> bool {
    exists|j: int| 0 <= j < n && #[trigger] fan_neighbour(mapped_face(faces[ids[j] as int], roots, offset), v, x)
}

/// The vertices that share a non-degenerate triangle with `v` in the
/// triangle fans of the faces `adj_faces` (indices into `faces`), their
/// corners `offset` and above mapped to the vertices of `m` that stand for
/// them: the distinct ones, in increasing order.
pub fn fan_neighbours<T>(m: &CollapsibleManifold<T>, faces: &Vec<Vec<usize>>, adj_faces: &[usize], v: usize, offset: usize) -> (r: Vec<usize>)
    requires
        m.wf(),
        forall|j: int| 0 <= j < adj_faces@.len() ==> (#[trigger] adj_faces@[j]) < faces@.len(),
        forall|f: int, k: int|
            0 <= f < faces@.len() && 0 <= k < faces@[f]@.len() ==> offset <= #[trigger] faces@[f]@[k] && faces@[f]@[k]
                - offset < m.num_indices(),
    ensures
        strictly_increasing(r@),
        forall|x: usize|
            #[trigger] r@.contains(x) <==> neighbour_in_faces(
                faces@.map_values(|f: Vec<usize>| f@),
                adj_faces@,
                m.roots(),
                offset,
                v,
                x,
                adj_faces@.len() as int,
            ),
{
    let ghost fs = faces@.map_values(|f: Vec<usize>| f@);
    let ghost roots = m.roots();
    let mut out: Vec<usize> = Vec::new();
    let mut j: usize = 0;
    while j < adj_faces.len()
        invariant
            m.wf(),
            fs == faces@.map_values(|f: Vec<usize>| f@),
            roots == m.roots(),
            j <= adj_faces@.len(),
            forall|j: int| 0 <= j < adj_faces@.len() ==> (#[trigger] adj_faces@[j]) < faces@.len(),
            forall|f: int, k: int|
                0 <= f < faces@.len() && 0 <= k < faces@[f]@.len() ==> offset <= #[trigger] faces@[f]@[k] && faces@[f]@[k]
                    - offset < m.num_indices(),
            forall|x: usize| #[trigger] out@.contains(x) <==> neighbour_in_faces(fs, adj_faces@, roots, offset, v, x, j as int),
        decreases adj_faces@.len() - j,
    {
        let fi = adj_faces[j];
        let f = &faces[fi];
        assert(f@ == fs[fi as int]);
        let ghost mf = mapped_face(f@, roots, offset);
        let ghost before = out@;
        let n = f.len();
        if n >= 3 {
            assert(faces@[fi as int]@[0] == f@[0]);
            let a = m.get_new_vertex(f[0] - offset);
            let mut i: usize = 0;
            while i + 2 < n
                invariant
                    m.wf(),
                    fs == faces@.map_values(|f: Vec<usize>| f@),
                    roots == m.roots(),
                    j < adj_faces@.len(),
                    fi == adj_faces@[j as int],
                    fi < faces@.len(),
                    f@ == fs[fi as int],
                    n == f@.len(),
                    n >= 3,
                    mf == mapped_face(f@, roots, offset),
                    a == mf[0],
                    i + 2 <= n,
                    forall|f: int, k: int|
                        0 <= f < faces@.len() && 0 <= k < faces@[f]@.len() ==> offset <= #[trigger] faces@[f]@[k]
                            && faces@[f]@[k] - offset < m.num_indices(),
                    forall|x: usize| #[trigger] out@.contains(x) <==> (before.contains(x) || (x != v && exists|q: int|
                        0 <= q < i && #[trigger] non_degenerate(fan_tri(mf, q)) && has_corner(fan_tri(mf, q), v)
                            && has_corner(fan_tri(mf, q), x))),
                decreases n - i,
            {
                assert(faces@[fi as int]@[i + 1] == f@[i + 1]);
                assert(faces@[fi as int]@[i + 2] == f@[i + 2]);
                let b = m.get_new_vertex(f[i + 1] - offset);
                let c = m.get_new_vertex(f[i + 2] - offset);
                let ghost t = fan_tri(mf, i as int);
                assert(t == [a, b, c]);
                let ghost prev = out@;
                if a != b && a != c && b != c && (a == v || b == v || c == v) {
                    if a != v {
                        out.push(a);
                    }
                    if b != v {
                        out.push(b);
                    }
                    if c != v {
                        out.push(c);
                    }
                }
                assert forall|x: usize| #[trigger] out@.contains(x) <==> (before.contains(x) || (x != v && exists|q: int|
                    0 <= q < i + 1 && #[trigger] non_degenerate(fan_tri(mf, q)) && has_corner(fan_tri(mf, q), v)
                        && has_corner(fan_tri(mf, q), x))) by {
                    let here = non_degenerate(t) && has_corner(t, v) && has_corner(t, x) && x != v;
                    assert(out@.contains(x) <==> (prev.contains(x) || here)) by {
                        if here {
                            if x == a { assert(out@[prev.len() as int] == a); }
                            else if x == b { assert(out@.contains(b)) by {
                                if a != v { assert(out@[(prev.len() + 1) as int] == b); } else { assert(out@[prev.len() as int] == b); }
                            } }
                            else {
                                assert(out@.last() == c);
                                assert(out@[out@.len() - 1] == c);
                            }
                        }
                        if out@.contains(x) && !prev.contains(x) {
                            let k = choose|k: int| 0 <= k < out@.len() && out@[k] == x;
                            if k < prev.len() {
                                assert(prev[k] == x);
                            }
                        }
                        if prev.contains(x) {
                            let k = choose|k: int| 0 <= k < prev.len() && prev[k] == x;
                            assert(out@[k] == x);
                        }
                    }
                    if x != v && exists|q: int| 0 <= q < i + 1 && #[trigger] non_degenerate(fan_tri(mf, q))
                        && has_corner(fan_tri(mf, q), v) && has_corner(fan_tri(mf, q), x) {
                        let q = choose|q: int| 0 <= q < i + 1 && #[trigger] non_degenerate(fan_tri(mf, q))
                            && has_corner(fan_tri(mf, q), v) && has_corner(fan_tri(mf, q), x);
                        if q == i as int {
                            assert(here);
                        }
                    }
                    if here {
                        assert(non_degenerate(fan_tri(mf, i as int)));
                    }
                }
                i = i + 1;
            }
            assert forall|x: usize| #[trigger] out@.contains(x) <==> (before.contains(x) || fan_neighbour(mf, v, x)) by {
                if fan_neighbour(mf, v, x) {
                    let q = choose|q: int| 0 <= q && q + 2 < mf.len() && #[trigger] non_degenerate(fan_tri(mf, q))
                        && has_corner(fan_tri(mf, q), v) && has_corner(fan_tri(mf, q), x);
                    assert(q < i);
                }
            }
        } else {
            assert forall|x: usize| !fan_neighbour(mf, v, x) by {}
        }
        assert forall|x: usize| #[trigger] out@.contains(x) <==> neighbour_in_faces(fs, adj_faces@, roots, offset, v, x, j + 1) by {
            if neighbour_in_faces(fs, adj_faces@, roots, offset, v, x, j + 1) {
                let q = choose|q: int| 0 <= q < j + 1 && #[trigger] fan_neighbour(mapped_face(fs[adj_faces@[q] as int], roots, offset), v, x);
                if q < j {
                    assert(neighbour_in_faces(fs, adj_faces@, roots, offset, v, x, j as int));
                }
            }
            if neighbour_in_faces(fs, adj_faces@, roots, offset, v, x, j as int) {
                let q = choose|q: int| 0 <= q < j && #[trigger] fan_neighbour(mapped_face(fs[adj_faces@[q] as int], roots, offset), v, x);
                assert(neighbour_in_faces(fs, adj_faces@, roots, offset, v, x, j + 1));
            }
            if fan_neighbour(mf, v, x) {
                assert(fan_neighbour(mapped_face(fs[adj_faces@[j as int] as int], roots, offset), v, x));
            }
        }
        j = j + 1;
    }
    let r = sort_dedup(&out);
    assert forall|x: usize| #[trigger] r@.contains(x) <==> out@.contains(x) by {}
    r
}

// ---------------------------------------------------------------------------
// Boundary edges around each vertex
// ---------------------------------------------------------------------------

/// `s` with `e` appended unless it already holds it.
pub open spec fn pushed_uniq_edge(s: Seq<[usize; 2]>, e: [usize; 2]) -> Seq<[usize; 2]> {
    if s.contains(e) {
        s
    } else {
        s.push(e)
    }
}

/// The list held in a slot, empty where there is none.
pub open spec fn or_empty(o: Option<Seq<[usize; 2]>>) -> Seq<[usize; 2]> {
    match o {
        Some(s) => s,
        None => Seq::empty(),
    }
}

/// The boundary edge lists after recording edge `e` at vertex `v`.
pub open spec fn record_at(ls: Seq<Option<Seq<[usize; 2]>>>, v: usize, e: [usize; 2]) -> Seq<Option<Seq<[usize; 2]>>> {
    ls.update(v as int, Some(pushed_uniq_edge(or_empty(ls[v as int]), e)))
}

/// The boundary edge lists after meeting mesh boundary edge `be`: an edge
/// with both ends in `start..end` is recorded at both its ends, its ends
/// counted from `start`, the smaller first.
pub open spec fn record_boundary(ls: Seq<Option<Seq<[usize; 2]>>>, be: [usize; 2], start: usize, end: usize) -> Seq<
    Option<Seq<[usize; 2]>>,
> {
    if start <= be[0] < end && start <= be[1] < end {
        let a = (be[0] - start) as usize;
        let b = (be[1] - start) as usize;
        let e = [lo(a, b), hi(a, b)];
        record_at(record_at(ls, e[0], e), e[1], e)
    } else {
        ls
    }
}

/// The boundary edge lists after meeting the edges `bes` in order.
pub open spec fn record_all(ls: Seq<Option<Seq<[usize; 2]>>>, bes: Seq<[usize; 2]>, start: usize, end: usize) -> Seq<
    Option<Seq<[usize; 2]>>,
>
    decreases bes.len(),
{
    if bes.len() == 0 {
        ls
    } else {
        record_boundary(record_all(ls, bes.drop_last(), start, end), bes.last(), start, end)
    }
}

/// The lists held in the slots of `ls`.
pub open spec fn slots_view(ls: Seq<Option<Vec<[usize; 2]>>>) -> Seq<Option<Seq<[usize; 2]>>> {
    ls.map_values(|o: Option<Vec<[usize; 2]>>| match o {
        Some(v) => Some(v@),
        None => None,
    })
}

/// Appends `e` to `l` unless `l` already holds it.
fn push_uniq_edge(l: &mut Vec<[usize; 2]>, e: [usize; 2])
    ensures
        final(l)@ == pushed_uniq_edge(old(l)@, e),
{
    let mut i: usize = 0;
    while i < l.len()
        invariant
            i <= l@.len(),
            l@ == old(l)@,
            forall|t: int| 0 <= t < i ==> l@[t] != e,
        decreases l@.len() - i,
    {
        if crate::clustering::same_pair(l[i], e) {
            assert(l@[i as int] == e);
            return;
        }
        i = i + 1;
    }
    l.push(e);
}

fn record_edge(lists: &mut Vec<Option<Vec<[usize; 2]>>>, v: usize, e: [usize; 2])
    requires
        v < old(lists)@.len(),
    ensures
        final(lists)@.len() == old(lists)@.len(),
        slots_view(final(lists)@) == record_at(slots_view(old(lists)@), v, e),
{
    let mut slot: Option<Vec<[usize; 2]>> = None;
    lists.set_and_swap(v, &mut slot);
    let ghost old_slot = slot;
    let mut l = match slot {
        Some(l) => l,
        None => Vec::new(),
    };
    assert(l@ == or_empty(slots_view(old(lists)@)[v as int]));
    push_uniq_edge(&mut l, e);
    lists.set(v, Some(l));
    assert(slots_view(lists@) =~= record_at(slots_view(old(lists)@), v, e));
}

/// For each vertex of `start..end`, counted from `start`, the boundary edges
/// `bd_es` of the mesh at it that have both ends in that range, each once,
/// ends counted from `start` and the smaller first; no list for a vertex
/// without one.
pub fn boundary_edge_lists(bd_es: &[[usize; 2]], start: usize, end: usize) -> (r: Vec<Option<Vec<[usize; 2]>>>)
    requires
        start <= end,
    ensures
        slots_view(r@) == record_all(Seq::new((end - start) as nat, |i: int| None::<Seq<[usize; 2]>>), bd_es@, start, end),
{
    let n = end - start;
    let mut lists: Vec<Option<Vec<[usize; 2]>>> = Vec::new();
    let mut t: usize = 0;
    while t < n
        invariant
            t <= n,
            lists@.len() == t,
            forall|q: int| 0 <= q < t ==> (#[trigger] lists@[q]) is None,
        decreases n - t,
    {
        lists.push(None);
        t = t + 1;
    }
    let ghost init = Seq::new((end - start) as nat, |i: int| None::<Seq<[usize; 2]>>);
    assert(slots_view(lists@) =~= init);
    let mut k: usize = 0;
    while k < bd_es.len()
        invariant
            n == end - start,
            start <= end,
            k <= bd_es@.len(),
            lists@.len() == n,
            init == Seq::new((end - start) as nat, |i: int| None::<Seq<[usize; 2]>>),
            slots_view(lists@) == record_all(init, bd_es@.take(k as int), start, end),
        decreases bd_es@.len() - k,
    {
        let be = bd_es[k];
        assert(bd_es@.take(k + 1).drop_last() =~= bd_es@.take(k as int));
        assert(bd_es@.take(k + 1).last() == be);
        if start <= be[0] && be[0] < end && start <= be[1] && be[1] < end {
            let a = be[0] - start;
            let b = be[1] - start;
            let e = if a < b { [a, b] } else { [b, a] };
            assert(e == [lo(a, b), hi(a, b)]);
            record_edge(&mut lists, e[0], e);
            record_edge(&mut lists, e[1], e);
        }
        k = k + 1;
    }
    assert(bd_es@.take(k as int) =~= bd_es@);
    lists
}

/// Edge `e` with its ends mapped by `roots`, the smaller first.
pub open spec fn remap_edge(roots: Seq<usize>, e: [usize; 2]) -> [usize; 2] {
    let a = roots[e[0] as int];
    let b = roots[e[1] as int];
    [lo(a, b), hi(a, b)]
}

/// The edges of `s` with their ends mapped by `roots`.
pub open spec fn remap_edges(roots: Seq<usize>, s: Seq<[usize; 2]>) -> Seq<[usize; 2]> {
    s.map_values(|e: [usize; 2]| remap_edge(roots, e))
}

/// Whether edge `a` comes before edge `b`: by first end, then by second.
pub open spec fn edge_lt(a: [usize; 2], b: [usize; 2]) -> bool {
    a[0] < b[0] || (a[0] == b[0] && a[1] < b[1])
}

/// Whether the edges of `s` come in strictly increasing order.
pub open spec fn edges_increasing(s: Seq<[usize; 2]>) -> bool {
    forall|i: int, j: int| 0 <= i < j < s.len() ==> edge_lt(#[trigger] s[i], #[trigger] s[j])
}

/// Whether an edge list only names vertices below `n`.
pub open spec fn edges_below(s: Seq<[usize; 2]>, n: nat) -> bool {
    forall|k: int| 0 <= k < s.len() ==> (#[trigger] s[k])[0] < n && s[k][1] < n
}

/// The edges of `l`, their ends mapped to the vertices of `m` that stand
/// for them.
fn remap_list<T>(m: &CollapsibleManifold<T>, l: &Vec<[usize; 2]>) -> (r: Vec<[usize; 2]>)
    requires
        m.wf(),
        edges_below(l@, m.num_indices()),
    ensures
        r@ == remap_edges(m.roots(), l@),
{
    let mut out: Vec<[usize; 2]> = Vec::new();
    let mut i: usize = 0;
    while i < l.len()
        invariant
            m.wf(),
            edges_below(l@, m.num_indices()),
            i <= l@.len(),
            out@ == remap_edges(m.roots(), l@.take(i as int)),
        decreases l@.len() - i,
    {
        let e = l[i];
        let a = m.get_new_vertex(e[0]);
        let b = m.get_new_vertex(e[1]);
        let r = if a < b { [a, b] } else { [b, a] };
        assert(r == remap_edge(m.roots(), e));
        out.push(r);
        assert(remap_edges(m.roots(), l@.take(i + 1)) =~= remap_edges(m.roots(), l@.take(i as int)).push(r));
        i = i + 1;
    }
    assert(l@.take(i as int) =~= l@);
    out
}

fn contains_edge(s: &Vec<[usize; 2]>, e: [usize; 2]) -> (r: bool)
    ensures
        r == s@.contains(e),
{
    let mut i: usize = 0;
    while i < s.len()
        invariant
            i <= s@.len(),
            forall|t: int| 0 <= t < i ==> s@[t] != e,
        decreases s@.len() - i,
    {
        if crate::clustering::same_pair(s[i], e) {
            assert(s@[i as int] == e);
            return true;
        }
        i = i + 1;
    }
    false
}

/// The distinct edges of `v`, in increasing order.
pub(crate) fn sort_dedup_edges(v: &Vec<[usize; 2]>) -> (r: Vec<[usize; 2]>)
    ensures
        edges_increasing(r@),
        forall|e: [usize; 2]| #[trigger] r@.contains(e) <==> v@.contains(e),
{
    let mut out: Vec<[usize; 2]> = Vec::new();
    let mut i: usize = 0;
    while i < v.len()
        invariant
            i <= v@.len(),
            edges_increasing(out@),
            forall|e: [usize; 2]| #[trigger] out@.contains(e) <==> v@.take(i as int).contains(e),
        decreases v@.len() - i,
    {
        let x = v[i];
        let mut p: usize = 0;
        while p < out.len() && (out[p][0] < x[0] || (out[p][0] == x[0] && out[p][1] < x[1]))
            invariant
                p <= out@.len(),
                forall|t: int| 0 <= t < p ==> edge_lt(out@[t], x),
            decreases out@.len() - p,
        {
            p = p + 1;
        }
        let ghost before = out@;
        if p < out.len() && crate::clustering::same_pair(out[p], x) {
            assert(out@.contains(x));
        } else {
            proof {
                lemma_insert_edge_sorted(before, p as int, x);
            }
            out.insert(p, x);
        }
        let ghost t1 = v@.take(i + 1);
        let ghost t0 = v@.take(i as int);
        assert(t1 =~= t0.push(x));
        assert forall|y: [usize; 2]| #[trigger] out@.contains(y) <==> t1.contains(y) by {
            if t1.contains(y) && y != x {
                let k = choose|k: int| 0 <= k < t1.len() && t1[k] == y;
                assert(t0[k] == y);
            }
            if y == x {
                assert(t1[i as int] == x);
            }
            if t0.contains(y) {
                let k = choose|k: int| 0 <= k < t0.len() && t0[k] == y;
                assert(t1[k] == y);
            }
        }
        i = i + 1;
    }
    assert(v@.take(i as int) =~= v@);
    out
}

proof fn lemma_insert_edge_sorted(s: Seq<[usize; 2]>, p: int, x: [usize; 2])
    requires
        edges_increasing(s),
        0 <= p <= s.len(),
        forall|t: int| 0 <= t < p ==> edge_lt(s[t], x),
        p < s.len() ==> s[p] != x && !edge_lt(s[p], x),
    ensures
        edges_increasing(s.insert(p, x)),
        forall|y: [usize; 2]| #[trigger] s.insert(p, x).contains(y) <==> (s.contains(y) || y == x),
{
    s.insert_ensures(p, x);
    let t = s.insert(p, x);
    if p < s.len() {
        assert(edge_lt(x, s[p])) by {
            if x[0] == s[p][0] && x[1] == s[p][1] {
                assert(x =~= s[p]);
            }
        }
    }
    assert forall|a: int, b: int| 0 <= a < b < t.len() implies edge_lt(#[trigger] t[a], #[trigger] t[b]) by {
        if b < p {
        } else if b == p {
        } else if a < p {
            assert(t[b] == s[b - 1]);
            assert(b - 1 == p || edge_lt(s[p], s[b - 1]));
        } else if a == p {
            assert(t[b] == s[b - 1]);
            assert(b - 1 == p || edge_lt(s[p], s[b - 1]));
        } else {
            assert(t[a] == s[a - 1]);
            assert(t[b] == s[b - 1]);
        }
    }
    assert forall|y: [usize; 2]| #[trigger] t.contains(y) <==> (s.contains(y) || y == x) by {
        if t.contains(y) {
            let k = choose|k: int| 0 <= k < t.len() && t[k] == y;
            if k < p {
                assert(s[k] == y);
            } else if k > p {
                assert(s[k - 1] == y);
            }
        }
        if s.contains(y) {
            let k = choose|k: int| 0 <= k < s.len() && s[k] == y;
            if k < p {
                assert(t[k] == y);
            } else {
                assert(t[k + 1] == y);
            }
        }
        if y == x {
            assert(t[p] == x);
        }
    }
}

/// The boundary edges kept at the vertex that `e0` collapses into, from the
/// lists `l0` of `e0` and `l1` of that vertex, edges remapped to the
/// vertices of `m` now standing for their ends: one list alone is remapped
/// as it is; from two, the edges that lie in exactly one of them, each once,
/// in increasing order.
pub fn carry_boundary_edges<T>(
    m: &CollapsibleManifold<T>,
    l0: Option<Vec<[usize; 2]>>,
    l1: Option<Vec<[usize; 2]>>,
) -> (r: Option<Vec<[usize; 2]>>)
    requires
        m.wf(),
        l0 matches Some(a) ==> edges_below(a@, m.num_indices()),
        l1 matches Some(b) ==> edges_below(b@, m.num_indices()),
    ensures
        match (l0, l1) {
            (None, None) => r is None,
            (Some(a), None) => r matches Some(x) && x@ == remap_edges(m.roots(), a@),
            (None, Some(b)) => r matches Some(x) && x@ == remap_edges(m.roots(), b@),
            (Some(a), Some(b)) => r matches Some(x) && edges_increasing(x@) && forall|e: [usize; 2]|
                #[trigger] x@.contains(e) <==> (remap_edges(m.roots(), a@).contains(e) != remap_edges(
                    m.roots(),
                    b@,
                ).contains(e)),
        },
{
    match (l0, l1) {
        (None, None) => None,
        (Some(a), None) => Some(remap_list(m, &a)),
        (None, Some(b)) => Some(remap_list(m, &b)),
        (Some(a), Some(b)) => {
            let ra = remap_list(m, &a);
            let rb = remap_list(m, &b);
            let mut both: Vec<[usize; 2]> = Vec::new();
            let mut i: usize = 0;
            while i < rb.len()
                invariant
                    i <= rb@.len(),
                    forall|e: [usize; 2]| #[trigger] both@.contains(e) <==> (rb@.take(i as int).contains(e) && !ra@.contains(e)),
                decreases rb@.len() - i,
            {
                let e = rb[i];
                let ghost prev = both@;
                if !contains_edge(&ra, e) {
                    both.push(e);
                }
                assert forall|y: [usize; 2]| #[trigger] both@.contains(y) <==> (rb@.take(i + 1).contains(y) && !ra@.contains(y)) by {
                    lemma_take_push_contains(rb@, i as int, y);
                    lemma_push_contains(prev, e, y);
                }
                i = i + 1;
            }
            assert(rb@.take(i as int) =~= rb@);
            let mut j: usize = 0;
            while j < ra.len()
                invariant
                    j <= ra@.len(),
                    forall|e: [usize; 2]| #[trigger] both@.contains(e) <==> ((rb@.contains(e) && !ra@.contains(e)) || (
                    ra@.take(j as int).contains(e) && !rb@.contains(e))),
                decreases ra@.len() - j,
            {
                let e = ra[j];
                let ghost prev = both@;
                if !contains_edge(&rb, e) {
                    both.push(e);
                }
                assert forall|y: [usize; 2]| #[trigger] both@.contains(y) <==> ((rb@.contains(y) && !ra@.contains(y)) || (
                ra@.take(j + 1).contains(y) && !rb@.contains(y))) by {
                    lemma_take_push_contains(ra@, j as int, y);
                    lemma_push_contains(prev, e, y);
                }
                j = j + 1;
            }
            assert(ra@.take(j as int) =~= ra@);
            let x = sort_dedup_edges(&both);
            Some(x)
        },
    }
}

proof fn lemma_take_push_contains(s: Seq<[usize; 2]>, i: int, y: [usize; 2])
    requires
        0 <= i < s.len(),
    ensures
        s.take(i + 1).contains(y) <==> (s.take(i).contains(y) || s[i] == y),
{
    assert(s.take(i + 1) =~= s.take(i).push(s[i]));
    lemma_push_contains(s.take(i), s[i], y);
}

proof fn lemma_push_contains(s: Seq<[usize; 2]>, x: [usize; 2], y: [usize; 2])
    ensures
        s.push(x).contains(y) <==> (s.contains(y) || x == y),
{
    let t = s.push(x);
    if s.contains(y) {
        let k = choose|k: int| 0 <= k < s.len() && s[k] == y;
        assert(t[k] == y);
    }
    if x == y {
        assert(t[s.len() as int] == y);
    }
    if t.contains(y) {
        let k = choose|k: int| 0 <= k < t.len() && t[k] == y;
        if k < s.len() {
            assert(s[k] == y);
        }
    }
}

} // verus!
