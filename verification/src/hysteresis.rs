//! Edge tracking by hysteresis: after double thresholding, a weak edge
//! element next to a strong one becomes strong itself, until no more can.
use vstd::prelude::*;

verus! {

/// The neighbour lists, as sequences.
pub open spec fn lists_of(adj: Seq<Vec<usize>>) -> Seq<Seq<usize>> {
    adj.map_values(|a: Vec<usize>| a@)
}

/// Whether every neighbour listed in `adj` is one of the `n` elements.
pub open spec fn neighbours_below(adj: Seq<Seq<usize>>, n: nat) -> bool {
    forall|v: int, k: int| 0 <= v < adj.len() && 0 <= k < adj[v].len() ==> (#[trigger] adj[v][k]) < n
}

/// Whether each element lists back every element that lists it.
pub open spec fn symmetric(adj: Seq<Seq<usize>>) -> bool {
    forall|v: int, k: int|
        0 <= v < adj.len() && 0 <= k < adj[v].len() ==> adj[(#[trigger] adj[v][k]) as int].contains(
            v as usize,
        )
}

/// Whether some neighbour of `v` is marked in `s`.
pub open spec fn next_to_marked(adj: Seq<Seq<usize>>, s: Seq<bool>, v: int) -> bool {
    exists|k: int| 0 <= k < adj[v].len() && s[(#[trigger] adj[v][k]) as int]
}

/// Whether every edge element next to a marked element is marked itself.
pub open spec fn promotion_closed(adj: Seq<Seq<usize>>, edge: Seq<bool>, s: Seq<bool>) -> bool {
    forall|v: int| 0 <= v < s.len() && edge[v] && #[trigger] next_to_marked(adj, s, v) ==> s[v]
}

/// Whether every element marked in `b` is marked in `a`.
pub open spec fn covers(a: Seq<bool>, b: Seq<bool>) -> bool {
    forall|i: int| 0 <= i < b.len() && #[trigger] b[i] ==> a[i]
}

/// The number of elements left unmarked.
pub open spec fn count_unmarked(s: Seq<bool>) -> nat
    decreases s.len(),
{
    if s.len() == 0 {
        0
    } else {
        count_unmarked(s.drop_last()) + if s.last() {
            0nat
        } else {
            1nat
        }
    }
}

proof fn lemma_mark_one(s: Seq<bool>, i: int)
    requires
        0 <= i < s.len(),
        !s[i],
    ensures
        count_unmarked(s.update(i, true)) + 1 == count_unmarked(s),
    decreases s.len(),
{
    if i == s.len() - 1 {
        assert(s.update(i, true).drop_last() =~= s.drop_last());
    } else {
        assert(s.update(i, true).drop_last() =~= s.drop_last().update(i, true));
        lemma_mark_one(s.drop_last(), i);
    }
}

/// How many entries of `nb` are marked in `strong`.
fn count_marked(nb: &Vec<usize>, strong: &Vec<bool>) -> (c: usize)
    requires
        forall|k: int| 0 <= k < nb@.len() ==> (#[trigger] nb@[k]) < strong@.len(),
    ensures
        c <= nb@.len(),
        c > 0 <==> exists|k: int| 0 <= k < nb@.len() && strong@[(#[trigger] nb@[k]) as int],
{
    let mut c: usize = 0;
    let mut k: usize = 0;
    while k < nb.len()
        invariant
            k <= nb@.len(),
            c <= k,
            forall|q: int| 0 <= q < nb@.len() ==> (#[trigger] nb@[q]) < strong@.len(),
            c > 0 <==> exists|q: int| 0 <= q < k && strong@[(#[trigger] nb@[q]) as int],
        decreases nb@.len() - k,
    {
        if strong[nb[k]] {
            c = c + 1;
        }
        k = k + 1;
    }
    c
}

/// Appends the entries of `src` to `dst`, in order.
fn push_all(dst: &mut Vec<usize>, src: &Vec<usize>)
    ensures
        final(dst)@ == old(dst)@ + src@,
{
    let mut k: usize = 0;
    while k < src.len()
        invariant
            k <= src@.len(),
            dst@ == old(dst)@ + src@.subrange(0, k as int),
        decreases src@.len() - k,
    {
        dst.push(src[k]);
        k = k + 1;
        assert(src@.subrange(0, k as int) =~= src@.subrange(0, k - 1) + seq![src@[k - 1]]);
    }
    assert(src@.subrange(0, src@.len() as int) =~= src@);
}

/// Promotes weak edge elements next to strong ones to strong. `is_edge`
/// marks the elements that passed the lower threshold, `is_strong` those
/// that passed the upper one; `adj` lists the neighbours of each element.
///
/// The result marks every element marked in `is_strong`, and an edge
/// element only where the promotion reaches it: it lies inside every
/// marking that holds `is_strong` and is closed under promotion. Where the
/// neighbourhoods are symmetric, as those of a mesh are, it is closed under
/// promotion itself, and so the least such marking.
pub fn promote_weak_edges(adj: &Vec<Vec<usize>>, is_edge: &Vec<bool>, is_strong: Vec<bool>) -> (r: Vec<bool>)
    requires
        adj@.len() == is_edge@.len(),
        is_strong@.len() == is_edge@.len(),
        neighbours_below(lists_of(adj@), is_edge@.len()),
    ensures
        r@.len() == is_strong@.len(),
        covers(r@, is_strong@),
        forall|i: int| 0 <= i < r@.len() && #[trigger] r@[i] ==> is_strong@[i] || is_edge@[i],
        forall|t: Seq<bool>|
            t.len() == r@.len() && covers(t, is_strong@) && #[trigger] promotion_closed(
                lists_of(adj@),
                is_edge@,
                t,
            ) ==> covers(t, r@),
        symmetric(lists_of(adj@)) ==> promotion_closed(
            lists_of(adj@),
            is_edge@,
            r@,
        ),
{
    let ghost g = lists_of(adj@);
    let ghost s0 = is_strong@;
    let n = is_edge.len();
    let mut strong = is_strong;
    let mut weaks: Vec<usize> = Vec::new();
    let mut i: usize = 0;
    while i < n
        invariant
            n == is_edge@.len(),
            s0.len() == n,
            strong@ == s0,
            i <= n,
            forall|q: int| 0 <= q < weaks@.len() ==> (#[trigger] weaks@[q]) < n,
            forall|v: int|
                0 <= v < i && is_edge@[v] && !strong@[v] ==> #[trigger] weaks@.contains(v as usize),
        decreases n - i,
    {
        let ghost before = weaks@;
        if is_edge[i] && !strong[i] {
            weaks.push(i);
            assert(weaks@[weaks@.len() - 1] == i);
            assert forall|w: usize| before.contains(w) implies #[trigger] weaks@.contains(w) by {
                let j = choose|j: int| 0 <= j < before.len() && before[j] == w;
                assert(weaks@[j] == w);
            }
        }
        i = i + 1;
    }
    while weaks.len() > 0
        invariant
            n == is_edge@.len(),
            g == lists_of(adj@),
            g.len() == n,
            s0.len() == n,
            neighbours_below(g, n as nat),
            strong@.len() == n,
            forall|q: int| 0 <= q < weaks@.len() ==> (#[trigger] weaks@[q]) < n,
            covers(strong@, s0),
            forall|q: int| 0 <= q < n && #[trigger] strong@[q] ==> s0[q] || is_edge@[q],
            forall|t: Seq<bool>|
                t.len() == n && covers(t, s0) && #[trigger] promotion_closed(g, is_edge@, t) ==> covers(
                    t,
                    strong@,
                ),
            symmetric(g) ==> forall|v: int|
                0 <= v < n && is_edge@[v] && !strong@[v] && next_to_marked(g, strong@, v)
                    ==> #[trigger] weaks@.contains(v as usize),
        decreases count_unmarked(strong@), weaks@.len(),
    {
        let ghost before = weaks@;
        let ghost st = strong@;
        let v = weaks.pop().unwrap();
        assert(weaks@ == before.drop_last());
        assert(v == before.last());
        assert forall|w: usize| before.contains(w) && w != v implies #[trigger] weaks@.contains(w) by {
            let j = choose|j: int| 0 <= j < before.len() && before[j] == w;
            assert(j != before.len() - 1);
            assert(weaks@[j] == w);
        }
        if !is_edge[v] || strong[v] {
            continue;
        }
        let nb = &adj[v];
        assert(nb@ == g[v as int]);
        let num_strong = count_marked(nb, &strong);
        if num_strong > 0 {
            let ghost k0 = choose|k: int| 0 <= k < nb@.len() && st[(#[trigger] nb@[k]) as int];
            strong.set(v, true);
            let ghost mid = weaks@;
            push_all(&mut weaks, nb);
            proof {
                lemma_mark_one(st, v as int);
                assert(strong@ == st.update(v as int, true));
                assert forall|q: int| 0 <= q < weaks@.len() implies (#[trigger] weaks@[q]) < n by {
                    if q >= mid.len() {
                        assert(weaks@[q] == nb@[q - mid.len()]);
                    } else {
                        assert(weaks@[q] == mid[q]);
                    }
                }
                assert forall|t: Seq<bool>|
                    t.len() == n && covers(t, s0) && #[trigger] promotion_closed(g, is_edge@, t) implies covers(
                        t,
                        strong@,
                    ) by {
                    assert(covers(t, st));
                    assert(t[nb@[k0] as int]);
                    assert(next_to_marked(g, t, v as int));
                }
                if symmetric(g) {
                    assert forall|w: int|
                        0 <= w < n && is_edge@[w] && !strong@[w] && next_to_marked(g, strong@, w) implies #[trigger] weaks@.contains(
                        w as usize,
                    ) by {
                        let k = choose|k: int| 0 <= k < g[w].len() && strong@[(#[trigger] g[w][k]) as int];
                        if g[w][k] == v {
                            assert(g[v as int].contains(w as usize));
                            let j = choose|j: int| 0 <= j < nb@.len() && nb@[j] == w as usize;
                            assert(weaks@[mid.len() + j] == w as usize);
                        } else {
                            assert(st[g[w][k] as int]);
                            assert(next_to_marked(g, st, w));
                            assert(before.contains(w as usize));
                            assert(mid.contains(w as usize));
                            let j = choose|j: int| 0 <= j < mid.len() && mid[j] == w as usize;
                            assert(weaks@[j] == w as usize);
                        }
                    }
                }
            }
        } else {
            proof {
                if symmetric(g) {
                    assert forall|w: int|
                        0 <= w < n && is_edge@[w] && !strong@[w] && next_to_marked(g, strong@, w) implies #[trigger] weaks@.contains(
                        w as usize,
                    ) by {
                        if w == v as int {
                            let k = choose|k: int| 0 <= k < g[w].len() && strong@[(#[trigger] g[w][k]) as int];
                            assert(st[nb@[k] as int]);
                        } else {
                            assert(before.contains(w as usize));
                        }
                    }
                }
            }
        }
    }
    proof {
        if symmetric(g) {
            assert forall|v: int|
                0 <= v < strong@.len() && is_edge@[v] && #[trigger] next_to_marked(g, strong@, v) implies strong@[v] by {
                if !strong@[v] {
                    assert(weaks@.contains(v as usize));
                }
            }
        }
    }
    strong
}

} // verus!
