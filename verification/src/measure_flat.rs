//! The adjacency of charts that developability is measured over: two charts
//! are adjacent where a mesh edge has faces in both.
use vstd::prelude::*;
use crate::clustering::push_uniq;

verus! {

/// `s` with `v` appended unless it already holds it.
pub open spec fn pushed_uniq(s: Seq<usize>, v: usize) -> Seq<usize> {
    if s.contains(v) {
        s
    } else {
        s.push(v)
    }
}

/// The chart pairs met on one edge whose faces are `ek`: each face paired
/// with every face listed before it, face after face.
pub open spec fn chart_pairs(ek: Seq<usize>, charts: Seq<usize>) -> Seq<(usize, usize)>
    decreases ek.len(),
{
    if ek.len() == 0 {
        Seq::empty()
    } else {
        chart_pairs(ek.drop_last(), charts) + Seq::new(
            (ek.len() - 1) as nat,
            |j: int| (charts[ek.last() as int], charts[ek[j] as int]),
        )
    }
}

/// The chart pairs met on all edges, edge after edge.
pub open spec fn all_chart_pairs(edges: Seq<Seq<usize>>, charts: Seq<usize>) -> Seq<(usize, usize)>
    decreases edges.len(),
{
    if edges.len() == 0 {
        Seq::empty()
    } else {
        all_chart_pairs(edges.drop_last(), charts) + chart_pairs(edges.last(), charts)
    }
}

/// How many of the pairs join two different charts.
pub open spec fn crossings(ps: Seq<(usize, usize)>) -> nat
    decreases ps.len(),
{
    if ps.len() == 0 {
        0
    } else {
        crossings(ps.drop_last()) + (if ps.last().0 != ps.last().1 { 1nat } else { 0nat })
    }
}

/// The adjacency after meeting the pair `p`: two different charts each
/// list the other once.
pub open spec fn link(adj: Seq<Seq<usize>>, p: (usize, usize)) -> Seq<Seq<usize>> {
    if p.0 == p.1 {
        adj
    } else {
        adj.update(p.0 as int, pushed_uniq(adj[p.0 as int], p.1)).update(
            p.1 as int,
            pushed_uniq(adj[p.1 as int], p.0),
        )
    }
}

/// The adjacency after meeting the pairs `ps` in order.
pub open spec fn link_all(adj: Seq<Seq<usize>>, ps: Seq<(usize, usize)>) -> Seq<Seq<usize>>
    decreases ps.len(),
{
    if ps.len() == 0 {
        adj
    } else {
        link(link_all(adj, ps.drop_last()), ps.last())
    }
}

/// `n` empty lists.
pub open spec fn empty_lists(n: nat) -> Seq<Seq<usize>> {
    Seq::new(n, |i: int| Seq::<usize>::empty())
}

/// Whether some pair of `ps` joins the different charts `c` and `d`, in
/// either order.
pub open spec fn joined(ps: Seq<(usize, usize)>, c: usize, d: usize) -> bool {
    c != d && exists|k: int| 0 <= k < ps.len() && (#[trigger] ps[k] == (c, d) || ps[k] == (d, c))
}

/// The charts of all pairs are below `n`.
pub open spec fn pairs_below(ps: Seq<(usize, usize)>, n: nat) -> bool {
    forall|k: int| 0 <= k < ps.len() ==> (#[trigger] ps[k]).0 < n && ps[k].1 < n
}

/// No list holds a chart twice.
pub open spec fn lists_unique(adj: Seq<Seq<usize>>) -> bool {
    forall|c: int| 0 <= c < adj.len() ==> (#[trigger] adj[c]).no_duplicates()
}

/// Starting from empty lists, chart `d` is listed for chart `c` exactly when
/// some pair joins them, and no list holds a chart twice: the adjacency is
/// symmetric and free of self-links.
pub proof fn lemma_link_all_joined(n: nat, ps: Seq<(usize, usize)>)
    requires
        pairs_below(ps, n),
    ensures
        link_all(empty_lists(n), ps).len() == n,
        lists_unique(link_all(empty_lists(n), ps)),
        forall|c: usize, d: usize|
            c < n ==> (#[trigger] link_all(empty_lists(n), ps)[c as int].contains(d) <==> joined(ps, c, d)),
    decreases ps.len(),
{
    if ps.len() == 0 {
        assert forall|c: usize, d: usize| c < n implies !(#[trigger] link_all(empty_lists(n), ps)[c as int].contains(d)) by {
            assert(link_all(empty_lists(n), ps)[c as int] =~= Seq::<usize>::empty());
        }
    } else {
        let q = ps.drop_last();
        let p = ps.last();
        assert(pairs_below(q, n)) by {
            assert forall|k: int| 0 <= k < q.len() implies (#[trigger] q[k]).0 < n && q[k].1 < n by {
                assert(q[k] == ps[k]);
            }
        }
        assert(p == ps[ps.len() - 1]);
        lemma_link_all_joined(n, q);
        let a = link_all(empty_lists(n), q);
        let b = link_all(empty_lists(n), ps);
        assert(b == link(a, p));
        assert forall|c: usize, d: usize| c < n implies (#[trigger] b[c as int].contains(d) <==> joined(ps, c, d)) by {
            assert(joined(q, c, d) ==> joined(ps, c, d)) by {
                if joined(q, c, d) {
                    let k = choose|k: int| 0 <= k < q.len() && (#[trigger] q[k] == (c, d) || q[k] == (d, c));
                    assert(ps[k] == q[k]);
                }
            }
            assert(joined(ps, c, d) ==> joined(q, c, d) || (c != d && (p == (c, d) || p == (d, c)))) by {
                if joined(ps, c, d) {
                    let k = choose|k: int| 0 <= k < ps.len() && (#[trigger] ps[k] == (c, d) || ps[k] == (d, c));
                    if k < q.len() {
                        assert(q[k] == ps[k]);
                    }
                }
            }
            if c != d && (p == (c, d) || p == (d, c)) {
                assert(ps[ps.len() - 1] == p);
            }
            assert(a[c as int].contains(d) <==> joined(q, c, d));
            if p.0 != p.1 && c == p.0 {
                lemma_pushed_uniq_contains(a[c as int], p.1, d);
                assert(b[c as int] == pushed_uniq(a[c as int], p.1));
            } else if p.0 != p.1 && c == p.1 {
                lemma_pushed_uniq_contains(a[c as int], p.0, d);
                assert(b[c as int] == pushed_uniq(a[c as int], p.0));
            } else {
                assert(b[c as int] == a[c as int]);
            }
        }
        assert forall|c: int| 0 <= c < b.len() implies (#[trigger] b[c]).no_duplicates() by {
            if p.0 != p.1 && (c == p.0 as int || c == p.1 as int) {
                let other = if c == p.0 as int { p.1 } else { p.0 };
                assert(b[c] == pushed_uniq(a[c], other));
                if !a[c].contains(other) {
                    assert forall|i: int, j: int| 0 <= i < b[c].len() && 0 <= j < b[c].len() && i != j implies b[c][i] != b[c][j] by {
                        if i < a[c].len() && j < a[c].len() {
                        } else if i < a[c].len() {
                            assert(b[c][j] == other);
                            assert(a[c][i] == b[c][i]);
                        } else {
                            assert(b[c][i] == other);
                            assert(a[c][j] == b[c][j]);
                        }
                    }
                }
            } else {
                assert(b[c] == a[c]);
            }
        }
    }
}

proof fn lemma_pushed_uniq_contains(s: Seq<usize>, v: usize, d: usize)
    ensures
        pushed_uniq(s, v).contains(d) <==> (s.contains(d) || d == v),
{
    if !s.contains(v) {
        let t = s.push(v);
        assert(t[s.len() as int] == v);
        if s.contains(d) {
            let i = choose|i: int| 0 <= i < s.len() && s[i] == d;
            assert(t[i] == d);
        }
        if t.contains(d) {
            let i = choose|i: int| 0 <= i < t.len() && t[i] == d;
            if i < s.len() {
                assert(s[i] == d);
            }
        }
    }
}

proof fn lemma_chart_pairs_step(ek: Seq<usize>, charts: Seq<usize>, fo: int)
    requires
        0 <= fo < ek.len(),
    ensures
        chart_pairs(ek.take(fo + 1), charts) == chart_pairs(ek.take(fo), charts) + Seq::new(
            fo as nat,
            |j: int| (charts[ek[fo] as int], charts[ek[j] as int]),
        ),
{
    let t = ek.take(fo + 1);
    assert(t.drop_last() =~= ek.take(fo));
    assert(Seq::new((t.len() - 1) as nat, |j: int| (charts[t.last() as int], charts[t[j] as int])) =~= Seq::new(
        fo as nat,
        |j: int| (charts[ek[fo] as int], charts[ek[j] as int]),
    ));
}

proof fn lemma_link_all_push(adj: Seq<Seq<usize>>, ps: Seq<(usize, usize)>, p: (usize, usize))
    ensures
        link_all(adj, ps.push(p)) == link(link_all(adj, ps), p),
{
    assert(ps.push(p).drop_last() =~= ps);
}

proof fn lemma_crossings_push(ps: Seq<(usize, usize)>, p: (usize, usize))
    ensures
        crossings(ps.push(p)) == crossings(ps) + (if p.0 != p.1 { 1nat } else { 0nat }),
{
    assert(ps.push(p).drop_last() =~= ps);
}

/// Makes the different charts `ci` and `cj` list each other, once.
pub(crate) fn link_charts(adj: &mut Vec<Vec<usize>>, ci: usize, cj: usize)
    requires
        ci < old(adj)@.len(),
        cj < old(adj)@.len(),
    ensures
        final(adj)@.len() == old(adj)@.len(),
        final(adj)@.map_values(|v: Vec<usize>| v@) == link(old(adj)@.map_values(|v: Vec<usize>| v@), (ci, cj)),
{
    let ghost before = adj@.map_values(|v: Vec<usize>| v@);
    if ci != cj {
        let mut l: Vec<usize> = Vec::new();
        adj.set_and_swap(ci, &mut l);
        push_uniq(&mut l, cj);
        adj.set(ci, l);
        let mut l2: Vec<usize> = Vec::new();
        adj.set_and_swap(cj, &mut l2);
        push_uniq(&mut l2, ci);
        adj.set(cj, l2);
    }
    assert(adj@.map_values(|v: Vec<usize>| v@) =~= link(before, (ci, cj)));
}

/// The adjacency of the charts `face_charts` assigns to faces, over the
/// edges whose faces `edge_faces` lists: every face of an edge is paired
/// with each face listed before it, and two different charts so met list
/// each other once, in the order they were first met. Also gives, for each
/// edge, how many of its face pairs join different charts.
pub fn chart_adjacency(edge_faces: &Vec<Vec<usize>>, face_charts: &[usize], num_charts: usize) -> (r: (
    Vec<Vec<usize>>,
    Vec<usize>,
))
    requires
        forall|e: int, k: int|
            0 <= e < edge_faces@.len() && 0 <= k < edge_faces@[e]@.len() ==> (#[trigger] edge_faces@[e]@[k])
                < face_charts@.len(),
        forall|f: int| 0 <= f < face_charts@.len() ==> #[trigger] face_charts@[f] < num_charts,
        forall|e: int| 0 <= e < edge_faces@.len() ==> (#[trigger] edge_faces@[e]@).len() * edge_faces@[e]@.len() <= usize::MAX,
    ensures
        ({
            let es = edge_faces@.map_values(|v: Vec<usize>| v@);
            let ps = all_chart_pairs(es, face_charts@);
            &&& r.0@.map_values(|v: Vec<usize>| v@) == link_all(empty_lists(num_charts as nat), ps)
            &&& r.1@.len() == edge_faces@.len()
            &&& forall|e: int| 0 <= e < r.1@.len() ==> #[trigger] r.1@[e] == crossings(chart_pairs(es[e], face_charts@))
            &&& r.0@.len() == num_charts
            &&& forall|c: int| 0 <= c < num_charts ==> (#[trigger] r.0@[c])@.no_duplicates()
            &&& forall|c: usize, d: usize| c < num_charts ==> (#[trigger] r.0@[c as int]@.contains(d) <==> joined(ps, c, d))
        }),
{
    let ghost es = edge_faces@.map_values(|v: Vec<usize>| v@);
    let ghost charts = face_charts@;
    let ghost n = num_charts as nat;
    let mut adj: Vec<Vec<usize>> = Vec::new();
    let mut t: usize = 0;
    while t < num_charts
        invariant
            t <= num_charts,
            adj@.len() == t,
            forall|q: int| 0 <= q < t ==> (#[trigger] adj@[q])@ == Seq::<usize>::empty(),
        decreases num_charts - t,
    {
        adj.push(Vec::new());
        t = t + 1;
    }
    assert(adj@.map_values(|v: Vec<usize>| v@) =~= empty_lists(n));
    let mut counts: Vec<usize> = Vec::new();
    let mut e: usize = 0;
    assert(es.take(0) =~= Seq::<Seq<usize>>::empty());
    while e < edge_faces.len()
        invariant
            es == edge_faces@.map_values(|v: Vec<usize>| v@),
            charts == face_charts@,
            n == num_charts,
            e <= edge_faces@.len(),
            adj@.len() == num_charts,
            forall|e: int, k: int|
                0 <= e < edge_faces@.len() && 0 <= k < edge_faces@[e]@.len() ==> (#[trigger] edge_faces@[e]@[k])
                    < face_charts@.len(),
            forall|f: int| 0 <= f < face_charts@.len() ==> #[trigger] face_charts@[f] < num_charts,
            forall|e: int| 0 <= e < edge_faces@.len() ==> (#[trigger] edge_faces@[e]@).len() * edge_faces@[e]@.len() <= usize::MAX,
            adj@.map_values(|v: Vec<usize>| v@) == link_all(empty_lists(n), all_chart_pairs(es.take(e as int), charts)),
            counts@.len() == e,
            forall|q: int| 0 <= q < e ==> #[trigger] counts@[q] == crossings(chart_pairs(es[q], charts)),
        decreases edge_faces@.len() - e,
    {
        let ek = &edge_faces[e];
        assert(ek@ == es[e as int]);
        let ghost base = all_chart_pairs(es.take(e as int), charts);
        let mut cnt: usize = 0;
        let mut fo: usize = 0;
        assert(ek@.take(0) =~= Seq::<usize>::empty());
        while fo < ek.len()
            invariant
                es == edge_faces@.map_values(|v: Vec<usize>| v@),
                charts == face_charts@,
                n == num_charts,
                e < edge_faces@.len(),
                ek@ == es[e as int],
                fo <= ek@.len(),
                adj@.len() == num_charts,
                forall|e: int, k: int|
                    0 <= e < edge_faces@.len() && 0 <= k < edge_faces@[e]@.len() ==> (#[trigger] edge_faces@[e]@[k])
                        < face_charts@.len(),
                forall|f: int| 0 <= f < face_charts@.len() ==> #[trigger] face_charts@[f] < num_charts,
                ek@.len() * ek@.len() <= usize::MAX,
                base == all_chart_pairs(es.take(e as int), charts),
                adj@.map_values(|v: Vec<usize>| v@) == link_all(empty_lists(n), base + chart_pairs(ek@.take(fo as int), charts)),
                cnt == crossings(chart_pairs(ek@.take(fo as int), charts)),
                cnt <= fo * ek@.len(),
            decreases ek@.len() - fo,
        {
            assert(edge_faces@[e as int]@[fo as int] == ek@[fo as int]);
            let ci = face_charts[ek[fo]];
            let ghost mid = base + chart_pairs(ek@.take(fo as int), charts);
            let mut fj: usize = 0;
            while fj < fo
                invariant
                    es == edge_faces@.map_values(|v: Vec<usize>| v@),
                    charts == face_charts@,
                    n == num_charts,
                    e < edge_faces@.len(),
                    ek@ == es[e as int],
                    fj <= fo,
                    fo < ek@.len(),
                    ci == charts[ek@[fo as int] as int],
                    ci < num_charts,
                    adj@.len() == num_charts,
                    forall|e: int, k: int|
                        0 <= e < edge_faces@.len() && 0 <= k < edge_faces@[e]@.len() ==> (#[trigger] edge_faces@[e]@[k])
                            < face_charts@.len(),
                    forall|f: int| 0 <= f < face_charts@.len() ==> #[trigger] face_charts@[f] < num_charts,
                    ek@.len() * ek@.len() <= usize::MAX,
                    mid == base + chart_pairs(ek@.take(fo as int), charts),
                    adj@.map_values(|v: Vec<usize>| v@) == link_all(
                        empty_lists(n),
                        mid + Seq::new(fj as nat, |j: int| (charts[ek@[fo as int] as int], charts[ek@[j] as int])),
                    ),
                    cnt == crossings(chart_pairs(ek@.take(fo as int), charts)) + crossings(
                        Seq::new(fj as nat, |j: int| (charts[ek@[fo as int] as int], charts[ek@[j] as int])),
                    ),
                    cnt <= fo * ek@.len() + fj,
                decreases fo - fj,
            {
                assert(edge_faces@[e as int]@[fj as int] == ek@[fj as int]);
                let cj = face_charts[ek[fj]];
                let ghost row = Seq::new(fj as nat, |j: int| (charts[ek@[fo as int] as int], charts[ek@[j] as int]));
                let ghost row1 = Seq::new((fj + 1) as nat, |j: int| (charts[ek@[fo as int] as int], charts[ek@[j] as int]));
                assert(row1 =~= row.push((ci, cj)));
                assert(mid + row1 =~= (mid + row).push((ci, cj)));
                proof {
                    lemma_link_all_push(empty_lists(n), mid + row, (ci, cj));
                    lemma_crossings_push(row, (ci, cj));
                }
                let ghost before = adj@.map_values(|v: Vec<usize>| v@);
                if ci != cj {
                    let mut l: Vec<usize> = Vec::new();
                    adj.set_and_swap(ci, &mut l);
                    push_uniq(&mut l, cj);
                    adj.set(ci, l);
                    let mut l2: Vec<usize> = Vec::new();
                    adj.set_and_swap(cj, &mut l2);
                    push_uniq(&mut l2, ci);
                    adj.set(cj, l2);
                    assert(adj@.map_values(|v: Vec<usize>| v@) =~= link(before, (ci, cj)));
                    assert(cnt + 1 <= ek@.len() * ek@.len()) by (nonlinear_arith)
                        requires
                            cnt <= fo * ek@.len() + fj,
                            fj < fo,
                            fo < ek@.len(),
                    ;
                    cnt = cnt + 1;
                }
                fj = fj + 1;
            }
            proof {
                lemma_chart_pairs_step(ek@, charts, fo as int);
                assert(mid + Seq::new(fo as nat, |j: int| (charts[ek@[fo as int] as int], charts[ek@[j] as int])) =~= base
                    + chart_pairs(ek@.take(fo + 1), charts));
                lemma_crossings_concat(
                    chart_pairs(ek@.take(fo as int), charts),
                    Seq::new(fo as nat, |j: int| (charts[ek@[fo as int] as int], charts[ek@[j] as int])),
                );
                assert(cnt <= (fo + 1) * ek@.len()) by (nonlinear_arith)
                    requires
                        cnt <= fo * ek@.len() + fo,
                        fo < ek@.len(),
                ;
            }
            fo = fo + 1;
        }
        proof {
            assert(ek@.take(fo as int) =~= ek@);
            assert(es.take(e + 1).drop_last() =~= es.take(e as int));
            assert(es.take(e + 1).last() == es[e as int]);
        }
        counts.push(cnt);
        e = e + 1;
    }
    assert(es.take(e as int) =~= es);
    proof {
        lemma_all_chart_pairs_below(es, charts, n);
        lemma_link_all_joined(n, all_chart_pairs(es, charts));
        let m = adj@.map_values(|v: Vec<usize>| v@);
        assert forall|c: int| 0 <= c < num_charts implies (#[trigger] adj@[c])@.no_duplicates() by {
            assert(m[c] == adj@[c]@);
        }
        assert forall|c: usize, d: usize| c < num_charts implies (#[trigger] adj@[c as int]@.contains(d) <==> joined(all_chart_pairs(es, charts), c, d)) by {
            assert(m[c as int] == adj@[c as int]@);
        }
    }
    (adj, counts)
}

proof fn lemma_all_chart_pairs_below(es: Seq<Seq<usize>>, charts: Seq<usize>, n: nat)
    requires
        forall|e: int, k: int| 0 <= e < es.len() && 0 <= k < es[e].len() ==> (#[trigger] es[e][k]) < charts.len(),
        forall|f: int| 0 <= f < charts.len() ==> #[trigger] charts[f] < n,
    ensures
        pairs_below(all_chart_pairs(es, charts), n),
    decreases es.len(),
{
    if es.len() > 0 {
        let d = es.drop_last();
        assert forall|e: int, k: int| 0 <= e < d.len() && 0 <= k < d[e].len() implies (#[trigger] d[e][k]) < charts.len() by {
            assert(d[e] == es[e]);
        }
        lemma_all_chart_pairs_below(d, charts, n);
        let ek = es.last();
        assert forall|k: int| 0 <= k < ek.len() implies (#[trigger] ek[k]) < charts.len() by {
            assert(ek[k] == es[es.len() - 1][k]);
        }
        lemma_chart_pairs_below(ek, charts, n);
        let a = all_chart_pairs(d, charts);
        let b = chart_pairs(ek, charts);
        assert forall|k: int| 0 <= k < (a + b).len() implies (#[trigger] (a + b)[k]).0 < n && (a + b)[k].1 < n by {
            if k < a.len() {
                assert((a + b)[k] == a[k]);
            } else {
                assert((a + b)[k] == b[k - a.len()]);
            }
        }
    }
}

proof fn lemma_chart_pairs_below(ek: Seq<usize>, charts: Seq<usize>, n: nat)
    requires
        forall|k: int| 0 <= k < ek.len() ==> (#[trigger] ek[k]) < charts.len(),
        forall|f: int| 0 <= f < charts.len() ==> #[trigger] charts[f] < n,
    ensures
        pairs_below(chart_pairs(ek, charts), n),
    decreases ek.len(),
{
    if ek.len() > 0 {
        let d = ek.drop_last();
        assert forall|k: int| 0 <= k < d.len() implies (#[trigger] d[k]) < charts.len() by {
            assert(d[k] == ek[k]);
        }
        lemma_chart_pairs_below(d, charts, n);
        let a = chart_pairs(d, charts);
        let b = Seq::new((ek.len() - 1) as nat, |j: int| (charts[ek.last() as int], charts[ek[j] as int]));
        assert(ek.last() == ek[ek.len() - 1]);
        assert forall|k: int| 0 <= k < (a + b).len() implies (#[trigger] (a + b)[k]).0 < n && (a + b)[k].1 < n by {
            if k < a.len() {
                assert((a + b)[k] == a[k]);
            } else {
                assert((a + b)[k] == b[k - a.len()]);
                assert(charts[ek[k - a.len()] as int] < n);
            }
        }
    }
}

proof fn lemma_crossings_concat(a: Seq<(usize, usize)>, b: Seq<(usize, usize)>)
    ensures
        crossings(a + b) == crossings(a) + crossings(b),
    decreases b.len(),
{
    if b.len() == 0 {
        assert(a + b =~= a);
    } else {
        lemma_crossings_concat(a, b.drop_last());
        assert((a + b).drop_last() =~= a + b.drop_last());
        assert((a + b).last() == b.last());
    }
}

} // verus!
