//! The topological side of deleting degenerate gap-filling faces: the
//! faces around each vertex class, and whether a gap-filling face may be
//! collapsed without joining what must stay apart.
use vstd::prelude::*;
use crate::clustering::push_uniq;
use crate::merge::strictly_increasing;
use crate::qem::{num_shared, shared_pairs, lemma_shared_pairs_distinct};
use crate::union_find::{UnionFind, is_partition};

verus! {

/// Whether a corner of face `f` lies in the class represented by `v`.
pub open spec fn touches(f: Seq<usize>, roots: Seq<usize>, v: usize) -> bool {
    exists|k: int| 0 <= k < f.len() && #[trigger] roots[f[k] as int] == v
}

/// Whether every corner of every face is one of the `n` indices.
pub open spec fn corners_below(faces: Seq<Seq<usize>>, n: nat) -> bool {
    forall|f: int, k: int| 0 <= f < faces.len() && 0 <= k < faces[f].len() ==> (#[trigger] faces[f][k]) < n
}

/// For each vertex class of `uf` (indexed by its representative), the faces
/// with a corner in it, in increasing order; the list of an index that
/// represents no class is empty.
pub fn vertex_face_lists(faces: &Vec<Vec<usize>>, uf: &UnionFind) -> (r: Vec<Vec<usize>>)
    requires
        uf.wf(),
        corners_below(faces@.map_values(|f: Vec<usize>| f@), uf@.len()),
    ensures
        r@.len() == uf@.len(),
        forall|v: int| 0 <= v < r@.len() ==> strictly_increasing(#[trigger] r@[v]@),
        forall|v: int, g: usize|
            0 <= v < r@.len() ==> (#[trigger] r@[v]@.contains(g) <==> (g < faces@.len() && touches(
                faces@[g as int]@,
                uf@,
                v as usize,
            ))),
{
    let ghost fs = faces@.map_values(|f: Vec<usize>| f@);
    let n = uf.capacity();
    let mut adj: Vec<Vec<usize>> = Vec::new();
    let mut t: usize = 0;
    while t < n
        invariant
            t <= n,
            n == uf@.len(),
            adj@.len() == t,
            forall|q: int| 0 <= q < t ==> (#[trigger] adj@[q])@ == Seq::<usize>::empty(),
        decreases n - t,
    {
        adj.push(Vec::new());
        t = t + 1;
    }
    let mut fi: usize = 0;
    while fi < faces.len()
        invariant
            uf.wf(),
            n == uf@.len(),
            fs == faces@.map_values(|f: Vec<usize>| f@),
            corners_below(fs, uf@.len()),
            fi <= faces@.len(),
            adj@.len() == n,
            forall|v: int| 0 <= v < n ==> strictly_increasing(#[trigger] adj@[v]@),
            forall|v: int, x: int| 0 <= v < n && 0 <= x < adj@[v]@.len() ==> (#[trigger] adj@[v]@[x]) < fi,
            forall|v: int, g: usize|
                0 <= v < n ==> (#[trigger] adj@[v]@.contains(g) <==> (g < fi && touches(fs[g as int], uf@, v as usize))),
        decreases faces@.len() - fi,
    {
        let f = &faces[fi];
        assert(f@ == fs[fi as int]);
        let mut k: usize = 0;
        while k < f.len()
            invariant
                uf.wf(),
                n == uf@.len(),
                fs == faces@.map_values(|f: Vec<usize>| f@),
                corners_below(fs, uf@.len()),
                fi < faces@.len(),
                f@ == fs[fi as int],
                k <= f@.len(),
                adj@.len() == n,
                forall|v: int| 0 <= v < n ==> strictly_increasing(#[trigger] adj@[v]@),
                forall|v: int, x: int| 0 <= v < n && 0 <= x < adj@[v]@.len() ==> (#[trigger] adj@[v]@[x]) <= fi,
                forall|v: int, g: usize|
                    0 <= v < n ==> (#[trigger] adj@[v]@.contains(g) <==> ((g < fi && touches(fs[g as int], uf@, v as usize))
                        || (g == fi && exists|q: int| 0 <= q < k && #[trigger] uf@[f@[q] as int] == v as usize))),
            decreases f@.len() - k,
        {
            assert(fs[fi as int][k as int] == f@[k as int]);
            let r = uf.find(f[k]);
            proof {
                uf.lemma_partition();
            }
            let ghost before = adj@;
            let mut l: Vec<usize> = Vec::new();
            adj.set_and_swap(r, &mut l);
            let ghost l0 = l@;
            push_uniq(&mut l, fi);
            adj.set(r, l);
            assert forall|v: int| 0 <= v < n implies strictly_increasing(#[trigger] adj@[v]@) by {
                if v == r as int && !l0.contains(fi) {
                    assert forall|a: int, b: int| 0 <= a < b < adj@[v]@.len() implies adj@[v]@[a] < adj@[v]@[b] by {
                        if b == l0.len() {
                            assert(l0[a] <= fi);
                            assert(l0[a] != fi) by {
                                if l0[a] == fi {
                                    assert(l0.contains(fi));
                                }
                            }
                        } else {
                            assert(adj@[v]@[a] == l0[a]);
                            assert(adj@[v]@[b] == l0[b]);
                        }
                    }
                } else if v != r as int {
                    assert(adj@[v] == before[v]);
                }
            }
            assert forall|v: int, x: int| 0 <= v < n && 0 <= x < adj@[v]@.len() implies (#[trigger] adj@[v]@[x]) <= fi by {
                if v == r as int {
                    if x < l0.len() {
                        assert(adj@[v]@[x] == l0[x]);
                    }
                } else {
                    assert(adj@[v] == before[v]);
                }
            }
            assert forall|v: int, g: usize| 0 <= v < n implies (#[trigger] adj@[v]@.contains(g) <==> ((g < fi && touches(
                fs[g as int],
                uf@,
                v as usize,
            )) || (g == fi && exists|q: int| 0 <= q < k + 1 && #[trigger] uf@[f@[q] as int] == v as usize))) by {
                let newq = exists|q: int| 0 <= q < k + 1 && #[trigger] uf@[f@[q] as int] == v as usize;
                let oldq = exists|q: int| 0 <= q < k && #[trigger] uf@[f@[q] as int] == v as usize;
                assert(newq <==> (oldq || uf@[f@[k as int] as int] == v as usize)) by {
                    if newq {
                        let q = choose|q: int| 0 <= q < k + 1 && #[trigger] uf@[f@[q] as int] == v as usize;
                        if q < k {
                            assert(oldq);
                        }
                    }
                }
                if v == r as int {
                    assert(adj@[v]@ == if l0.contains(fi) { l0 } else { l0.push(fi) });
                    if !l0.contains(fi) {
                        let s = l0.push(fi);
                        assert(s[l0.len() as int] == fi);
                        if s.contains(g) && g != fi {
                            let i = choose|i: int| 0 <= i < s.len() && s[i] == g;
                            assert(l0[i] == g);
                        }
                        if l0.contains(g) {
                            let i = choose|i: int| 0 <= i < l0.len() && l0[i] == g;
                            assert(s[i] == g);
                        }
                    }
                } else {
                    assert(adj@[v] == before[v]);
                }
            }
            k = k + 1;
        }
        assert forall|v: int, g: usize| 0 <= v < n implies (#[trigger] adj@[v]@.contains(g) <==> (g < fi + 1 && touches(
            fs[g as int],
            uf@,
            v as usize,
        ))) by {
            if g == fi {
                if touches(fs[g as int], uf@, v as usize) {
                    let q = choose|q: int| 0 <= q < fs[g as int].len() && #[trigger] uf@[fs[g as int][q] as int] == v as usize;
                    assert(uf@[f@[q] as int] == v as usize);
                }
                if exists|q: int| 0 <= q < k && #[trigger] uf@[f@[q] as int] == v as usize {
                    let q = choose|q: int| 0 <= q < k && #[trigger] uf@[f@[q] as int] == v as usize;
                    assert(uf@[fs[g as int][q] as int] == v as usize);
                }
            }
        }
        fi = fi + 1;
    }
    adj
}

/// Whether `[a, b]`, in either order, is an edge of face `f`, its corners
/// mapped by `roots`.
pub open spec fn has_edge(f: Seq<usize>, roots: Seq<usize>, a: usize, b: usize) -> bool {
    exists|i: int|
        0 <= i < f.len() && {
            let e = #[trigger] crate::clustering::face_edge(f, i);
            (roots[e[0] as int] == a && roots[e[1] as int] == b) || (roots[e[0] as int] == b && roots[e[1] as int] == a)
        }
}

/// Whether the four corners are different.
pub open spec fn all_distinct(q: [usize; 4]) -> bool {
    q[0] != q[1] && q[0] != q[2] && q[0] != q[3] && q[1] != q[2] && q[1] != q[3] && q[2] != q[3]
}

/// Whether face `f` from a gap between the edges `[a, b]` and `[c, d]` may,
/// as far as the mesh's connectivity goes, be collapsed by joining `a` with
/// `c` and `b` with `d`: the four corners differ, neither `[a, b]` nor
/// `[c, d]` is already an edge of the face (its corners mapped to their
/// classes), and the two pairs joined share at most two faces each, going
/// by the faces `adj` lists around each class.
pub fn gap_fill_joinable(f: &[usize], uf: &UnionFind, q: [usize; 4], adj: &Vec<Vec<usize>>) -> (r: bool)
    requires
        uf.wf(),
        forall|k: int| 0 <= k < f@.len() ==> #[trigger] f@[k] < uf@.len(),
        q[0] < adj@.len() && q[1] < adj@.len() && q[2] < adj@.len() && q[3] < adj@.len(),
        forall|v: int| 0 <= v < adj@.len() ==> (#[trigger] adj@[v]@).no_duplicates(),
    ensures
        r == (all_distinct(q) && !has_edge(f@, uf@, q[0], q[1]) && !has_edge(f@, uf@, q[2], q[3])
            && shared_pairs(adj@[q[0] as int]@, adj@[q[2] as int]@) <= 2 && shared_pairs(
            adj@[q[1] as int]@,
            adj@[q[3] as int]@,
        ) <= 2),
{
    let a = q[0];
    let b = q[1];
    let c = q[2];
    let d = q[3];
    if a == b || c == d || a == c || a == d || b == c || b == d {
        return false;
    }
    if face_has_edge(f, uf, a, b) || face_has_edge(f, uf, c, d) {
        return false;
    }
    let la = adj[a].len();
    let lb = adj[b].len();
    proof {
        lemma_shared_pairs_distinct(adj@[a as int]@, adj@[c as int]@);
        lemma_shared_pairs_distinct(adj@[b as int]@, adj@[d as int]@);
    }
    let sa = adj[a].as_slice();
    let sb = adj[b].as_slice();
    let sc = adj[c].as_slice();
    let sd = adj[d].as_slice();
    assert(sa@ == adj@[a as int]@ && sc@ == adj@[c as int]@);
    assert(sb@ == adj@[b as int]@ && sd@ == adj@[d as int]@);
    let s0 = num_shared(sa, sc);
    let s1 = num_shared(sb, sd);
    s0 <= 2 && s1 <= 2
}

fn face_has_edge(f: &[usize], uf: &UnionFind, a: usize, b: usize) -> (r: bool)
    requires
        uf.wf(),
        forall|k: int| 0 <= k < f@.len() ==> #[trigger] f@[k] < uf@.len(),
    ensures
        r == has_edge(f@, uf@, a, b),
{
    let n = f.len();
    let mut i: usize = 0;
    while i < n
        invariant
            uf.wf(),
            n == f@.len(),
            i <= n,
            forall|k: int| 0 <= k < f@.len() ==> #[trigger] f@[k] < uf@.len(),
            forall|t: int|
                0 <= t < i ==> {
                    let e = #[trigger] crate::clustering::face_edge(f@, t);
                    !((uf@[e[0] as int] == a && uf@[e[1] as int] == b) || (uf@[e[0] as int] == b && uf@[e[1] as int]
                        == a))
                },
        decreases n - i,
    {
        let j = if i + 1 == n { 0 } else { i + 1 };
        proof {
            if i + 1 == n {
                vstd::arithmetic::div_mod::lemma_mod_self_0(n as int);
            } else {
                vstd::arithmetic::div_mod::lemma_small_mod((i + 1) as nat, n as nat);
            }
        }
        assert(crate::clustering::face_edge(f@, i as int) == [f@[i as int], f@[j as int]]);
        let x = uf.find(f[i]);
        let y = uf.find(f[j]);
        if (x == a && y == b) || (x == b && y == a) {
            return true;
        }
        i = i + 1;
    }
    false
}

} // verus!
