//! Closing the gaps at input-mesh corners, where the samplings of several
//! input faces meet: which gap-fill direction applies, and the corner face
//! assembled from the sampled corner vertices.
use vstd::prelude::*;
use crate::clustering::face_edge;
use crate::qem::{edge_lt, edges_increasing};

verus! {

/// The direction entries `dirs` (a face pair, smaller face first, and the
/// two directed edges of the gap between them) come in strictly increasing
/// order of face pairs.
pub open spec fn dirs_increasing(dirs: Seq<([usize; 2], [[usize; 2]; 2])>) -> bool {
    edges_increasing(dirs.map_values(|d: ([usize; 2], [[usize; 2]; 2])| d.0))
}

/// The directed edges stored for the faces `a` and `b`, if any.
pub open spec fn dir_of(dirs: Seq<([usize; 2], [[usize; 2]; 2])>, a: usize, b: usize) -> Option<[[usize; 2]; 2]> {
    let k = if a < b { (a, b) } else { (b, a) };
    if exists|i: int| 0 <= i < dirs.len() && #[trigger] dirs[i].0[0] == k.0 && dirs[i].0[1] == k.1 {
        Some(dirs[choose|i: int| 0 <= i < dirs.len() && #[trigger] dirs[i].0[0] == k.0 && dirs[i].0[1] == k.1].1)
    } else {
        None
    }
}

/// The first direction found pairing face `faces[i]` with a face listed
/// after position `j - 1`.
pub open spec fn dir_in_row(faces: Seq<usize>, dirs: Seq<([usize; 2], [[usize; 2]; 2])>, i: int, j: int) -> Option<
    [[usize; 2]; 2],
>
    decreases faces.len() - j,
{
    if j >= faces.len() {
        None
    } else {
        match dir_of(dirs, faces[i], faces[j]) {
            Some(d) => Some(d),
            None => dir_in_row(faces, dirs, i, j + 1),
        }
    }
}

/// The first direction found over the pairs of faces from position `i`
/// on, each face with those after it.
pub open spec fn first_dir(faces: Seq<usize>, dirs: Seq<([usize; 2], [[usize; 2]; 2])>, i: int) -> Option<[[usize; 2]; 2]>
    decreases faces.len() - i,
{
    if i >= faces.len() {
        None
    } else {
        match dir_in_row(faces, dirs, i, i + 1) {
            Some(d) => Some(d),
            None => first_dir(faces, dirs, i + 1),
        }
    }
}

proof fn lemma_dir_of_at(dirs: Seq<([usize; 2], [[usize; 2]; 2])>, a: usize, b: usize, m: int)
    requires
        dirs_increasing(dirs),
        0 <= m < dirs.len(),
        dirs[m].0[0] == (if a < b { a } else { b }),
        dirs[m].0[1] == (if a < b { b } else { a }),
    ensures
        dir_of(dirs, a, b) == Some(dirs[m].1),
{
    let keys = dirs.map_values(|d: ([usize; 2], [[usize; 2]; 2])| d.0);
    let k = if a < b { (a, b) } else { (b, a) };
    assert(dirs[m].0[0] == k.0 && dirs[m].0[1] == k.1);
    let j = choose|i: int| 0 <= i < dirs.len() && #[trigger] dirs[i].0[0] == k.0 && dirs[i].0[1] == k.1;
    if j < m {
        assert(keys[j] == dirs[j].0 && keys[m] == dirs[m].0);
        assert(edge_lt(keys[j], keys[m]));
    } else if j > m {
        assert(keys[j] == dirs[j].0 && keys[m] == dirs[m].0);
        assert(edge_lt(keys[m], keys[j]));
    }
}

fn lookup_dir(dirs: &Vec<([usize; 2], [[usize; 2]; 2])>, a: usize, b: usize) -> (r: Option<[[usize; 2]; 2]>)
    requires
        dirs_increasing(dirs@),
    ensures
        r == dir_of(dirs@, a, b),
{
    let ghost keys = dirs@.map_values(|d: ([usize; 2], [[usize; 2]; 2])| d.0);
    let (x, y) = if a < b { (a, b) } else { (b, a) };
    let mut lo: usize = 0;
    let mut hi: usize = dirs.len();
    while lo < hi
        invariant
            0 <= lo <= hi <= dirs@.len(),
            x == (if a < b { a } else { b }),
            y == (if a < b { b } else { a }),
            keys == dirs@.map_values(|d: ([usize; 2], [[usize; 2]; 2])| d.0),
            edges_increasing(keys),
            forall|i: int| 0 <= i < lo ==> edge_lt(#[trigger] dirs@[i].0, [x, y]),
            forall|i: int| hi <= i < dirs@.len() ==> edge_lt([x, y], #[trigger] dirs@[i].0),
        decreases hi - lo,
    {
        let mid = lo + (hi - lo) / 2;
        let k = dirs[mid].0;
        assert(keys[mid as int] == k);
        if k[0] == x && k[1] == y {
            proof {
                assert(dirs@[mid as int].0 == k);
                assert(x == (if a < b { a } else { b }) && y == (if a < b { b } else { a }));
                lemma_dir_of_at(dirs@, a, b, mid as int);
            }
            return Some(dirs[mid].1);
        } else if k[0] < x || (k[0] == x && k[1] < y) {
            assert forall|i: int| 0 <= i < mid + 1 implies edge_lt(#[trigger] dirs@[i].0, [x, y]) by {
                if i < mid {
                    assert(keys[i] == dirs@[i].0);
                    assert(edge_lt(keys[i], keys[mid as int]));
                }
            }
            lo = mid + 1;
        } else {
            assert forall|i: int| mid <= i < dirs@.len() implies edge_lt([x, y], #[trigger] dirs@[i].0) by {
                if i > mid {
                    assert(keys[i] == dirs@[i].0);
                    assert(edge_lt(keys[mid as int], keys[i]));
                }
            }
            hi = mid;
        }
    }
    assert forall|i: int| !(0 <= i < dirs@.len() && #[trigger] dirs@[i].0[0] == x && dirs@[i].0[1] == y) by {
        if 0 <= i < dirs@.len() && dirs@[i].0[0] == x && dirs@[i].0[1] == y {
            if i < lo {
                assert(edge_lt(dirs@[i].0, [x, y]));
            } else {
                assert(edge_lt([x, y], dirs@[i].0));
            }
        }
    }
    None
}

/// The gap-fill direction for a corner: over the pairs of the faces
/// `faces` met there, each face with those listed after it, the edges
/// stored for the first pair that has some.
pub fn corner_dir(faces: &[usize], dirs: &Vec<([usize; 2], [[usize; 2]; 2])>) -> (r: Option<[[usize; 2]; 2]>)
    requires
        dirs_increasing(dirs@),
    ensures
        r == first_dir(faces@, dirs@, 0),
{
    let mut i: usize = 0;
    while i < faces.len()
        invariant
            i <= faces@.len(),
            dirs_increasing(dirs@),
            first_dir(faces@, dirs@, 0) == first_dir(faces@, dirs@, i as int),
        decreases faces@.len() - i,
    {
        let mut j: usize = i + 1;
        while j < faces.len()
            invariant
                i < faces@.len(),
                i + 1 <= j <= faces@.len(),
                dirs_increasing(dirs@),
                dir_in_row(faces@, dirs@, i as int, i + 1) == dir_in_row(faces@, dirs@, i as int, j as int),
                first_dir(faces@, dirs@, 0) == first_dir(faces@, dirs@, i as int),
            decreases faces@.len() - j,
        {
            let d = lookup_dir(dirs, faces[i], faces[j]);
            if d.is_some() {
                assert(dir_in_row(faces@, dirs@, i as int, j as int) == d);
                assert(first_dir(faces@, dirs@, i as int) == d);
                return d;
            }
            assert(dir_in_row(faces@, dirs@, i as int, j as int) == dir_in_row(faces@, dirs@, i as int, j + 1));
            j = j + 1;
        }
        assert(dir_in_row(faces@, dirs@, i as int, j as int) is None);
        assert(first_dir(faces@, dirs@, i as int) == first_dir(faces@, dirs@, i + 1));
        i = i + 1;
    }
    None
}

// ---------------------------------------------------------------------------
// Assembling the corner face
// ---------------------------------------------------------------------------

/// Whether the directed edge `e` runs along polygon `f`.
pub open spec fn has_directed_edge(f: Seq<usize>, e: [usize; 2]) -> bool {
    exists|i: int| 0 <= i < f.len() && #[trigger] face_edge(f, i) == e
}

/// Polygon `f` turned to run against the gap-fill edges `dir`: reversed
/// where it runs along one of them.
pub open spec fn oriented(f: Seq<usize>, dir: [[usize; 2]; 2]) -> Seq<usize> {
    if has_directed_edge(f, dir[0]) || has_directed_edge(f, dir[1]) {
        f.reverse()
    } else {
        f
    }
}

/// Among the first `k` vertices of `fvs`, the position of the first one
/// with the fewest (but some) neighbours in `adj`.
pub open spec fn best_start(fvs: Seq<usize>, adj: Seq<Seq<usize>>, k: int) -> Option<int>
    decreases k,
{
    if k <= 0 {
        None
    } else {
        let b = best_start(fvs, adj, k - 1);
        let l = adj[fvs[k - 1] as int].len();
        if l == 0 {
            b
        } else {
            match b {
                None => Some(k - 1),
                Some(i) => if l < adj[fvs[i] as int].len() {
                    Some(k - 1)
                } else {
                    Some(i)
                },
            }
        }
    }
}

/// The first vertex of `ns` that `used` does not hold.
pub open spec fn next_new(ns: Seq<usize>, used: Seq<usize>) -> Option<usize>
    decreases ns.len(),
{
    if ns.len() == 0 {
        None
    } else if !used.contains(ns[0]) {
        Some(ns[0])
    } else {
        next_new(ns.drop_first(), used)
    }
}

/// The quad walked from vertex `q0` along `adj`, each step to the first
/// neighbour not yet in it (nor the empty mark): the four corners; where
/// the walk stops early, the corners found, three of them where it stops
/// on the last step.
pub open spec fn quad_walk(adj: Seq<Seq<usize>>, q0: usize) -> Result<Seq<usize>, Option<Seq<usize>>> {
    let m = usize::MAX;
    match next_new(adj[q0 as int], seq![q0, m, m, m]) {
        None => Err(None),
        Some(q1) => match next_new(adj[q1 as int], seq![q0, q1, m, m]) {
            None => Err(None),
            Some(q2) => match next_new(adj[q2 as int], seq![q0, q1, q2, m]) {
                None => Err(Some(seq![q0, q1, q2])),
                Some(q3) => Ok(seq![q0, q1, q2, q3]),
            },
        },
    }
}

/// The face closing a corner met by three or four sampled vertices `fvs`,
/// turned against the gap-fill edges `dir`: three give their triangle; four
/// give the quad walked along the gap-fill links `adj` from the vertex with
/// the fewest (but some) links, or from the first vertex; where that walk
/// stops on its last step, the triangle found, unturned, and before that,
/// nothing.
pub open spec fn corner_face_spec(fvs: Seq<usize>, adj: Seq<Seq<usize>>, dir: [[usize; 2]; 2]) -> Result<
    Seq<usize>,
    Option<Seq<usize>>,
> {
    if fvs.len() == 3 {
        Ok(oriented(fvs, dir))
    } else {
        let q0 = match best_start(fvs, adj, 4) {
            Some(i) => fvs[i],
            None => fvs[0],
        };
        match quad_walk(adj, q0) {
            Ok(q) => Ok(oriented(q, dir)),
            Err(e) => Err(e),
        }
    }
}

/// Whether the gap-fill links only name listed vertices.
pub open spec fn links_closed(adj: Seq<Seq<usize>>) -> bool {
    forall|v: int, k: int| 0 <= v < adj.len() && 0 <= k < adj[v].len() ==> (#[trigger] adj[v][k]) < adj.len()
}

proof fn lemma_next_new(ns: Seq<usize>, used: Seq<usize>)
    ensures
        next_new(ns, used) matches Some(x) ==> ns.contains(x) && !used.contains(x),
    decreases ns.len(),
{
    if ns.len() > 0 && used.contains(ns[0]) {
        lemma_next_new(ns.drop_first(), used);
        if let Some(x) = next_new(ns.drop_first(), used) {
            let t = choose|t: int| 0 <= t < ns.drop_first().len() && ns.drop_first()[t] == x;
            assert(ns[t + 1] == x);
        }
    } else if ns.len() > 0 {
        assert(ns[0] == ns[0]);
    }
}

fn first_new(ns: &Vec<usize>, used: &Vec<usize>) -> (r: Option<usize>)
    ensures
        r == next_new(ns@, used@),
{
    let mut i: usize = 0;
    assert(ns@.skip(0) =~= ns@);
    while i < ns.len()
        invariant
            i <= ns@.len(),
            next_new(ns@, used@) == next_new(ns@.skip(i as int), used@),
        decreases ns@.len() - i,
    {
        assert(ns@.skip(i as int)[0] == ns@[i as int]);
        let x = ns[i];
        let mut k: usize = 0;
        let mut found = false;
        while k < used.len()
            invariant
                k <= used@.len(),
                found == used@.take(k as int).contains(x),
            decreases used@.len() - k,
        {
            let ghost was = found;
            if used[k] == x {
                found = true;
            }
            assert(found == used@.take(k + 1).contains(x)) by {
                let t0 = used@.take(k as int);
                let t1 = used@.take(k + 1);
                if used@[k as int] == x {
                    assert(t1[k as int] == x);
                } else if was {
                    let q = choose|q: int| 0 <= q < t0.len() && t0[q] == x;
                    assert(t1[q] == x);
                } else if t1.contains(x) {
                    let q = choose|q: int| 0 <= q < t1.len() && t1[q] == x;
                    assert(t0[q] == x);
                }
            }
            k = k + 1;
        }
        assert(used@.take(k as int) =~= used@);
        if !found {
            return Some(x);
        }
        assert(ns@.skip(i as int).drop_first() =~= ns@.skip(i + 1));
        i = i + 1;
    }
    assert(ns@.skip(i as int) =~= Seq::<usize>::empty());
    None
}

fn runs_along(f: &Vec<usize>, e: [usize; 2]) -> (r: bool)
    ensures
        r == has_directed_edge(f@, e),
{
    let n = f.len();
    let mut i: usize = 0;
    while i < n
        invariant
            n == f@.len(),
            i <= n,
            forall|t: int| 0 <= t < i ==> #[trigger] face_edge(f@, t) != e,
        decreases n - i,
    {
        let j = if i + 1 == n { 0 } else { i + 1 };
        proof {
            if i + 1 == n {
                vstd::arithmetic::div_mod::lemma_mod_self_0(n as int);
            } else {
                vstd::arithmetic::div_mod::lemma_small_mod((i + 1) as nat, n as nat);
            }
        }
        assert(face_edge(f@, i as int) == [f@[i as int], f@[j as int]]);
        if f[i] == e[0] && f[j] == e[1] {
            assert(face_edge(f@, i as int) =~= e);
            return true;
        }
        assert(face_edge(f@, i as int) != e) by {
            if face_edge(f@, i as int) == e {
                assert(face_edge(f@, i as int)[0] == e[0]);
                assert(face_edge(f@, i as int)[1] == e[1]);
            }
        }
        i = i + 1;
    }
    false
}

fn orient(f: Vec<usize>, dir: [[usize; 2]; 2]) -> (r: Vec<usize>)
    ensures
        r@ == oriented(f@, dir),
{
    if runs_along(&f, dir[0]) || runs_along(&f, dir[1]) {
        let mut out: Vec<usize> = Vec::new();
        let mut i: usize = f.len();
        while i > 0
            invariant
                i <= f@.len(),
                out@ == f@.subrange(i as int, f@.len() as int).reverse(),
            decreases i,
        {
            i = i - 1;
            out.push(f[i]);
            assert(f@.subrange(i as int, f@.len() as int).reverse() =~= f@.subrange(i + 1, f@.len() as int).reverse().push(
                f@[i as int],
            ));
        }
        assert(f@.subrange(0, f@.len() as int) =~= f@);
        out
    } else {
        f
    }
}

/// The face closing a corner met by three or four sampled vertices `fvs`
/// (see `corner_face_spec`): `Ok` with the face, or `Err` with the
/// triangle found where the quad walk stopped on its last step, or nothing.
pub fn corner_face(fvs: &[usize], adj: &Vec<Vec<usize>>, dir: [[usize; 2]; 2]) -> (r: Result<Vec<usize>, Option<Vec<usize>>>)
    requires
        fvs@.len() == 3 || fvs@.len() == 4,
        forall|k: int| 0 <= k < fvs@.len() ==> (#[trigger] fvs@[k]) < adj@.len(),
        links_closed(adj@.map_values(|v: Vec<usize>| v@)),
    ensures
        match corner_face_spec(fvs@, adj@.map_values(|v: Vec<usize>| v@), dir) {
            Ok(f) => r matches Ok(x) && x@ == f,
            Err(None) => r matches Err(None),
            Err(Some(t)) => r matches Err(Some(x)) && x@ == t,
        },
{
    let ghost av = adj@.map_values(|v: Vec<usize>| v@);
    if fvs.len() == 3 {
        let f = vec![fvs[0], fvs[1], fvs[2]];
        assert(f@ =~= fvs@);
        return Ok(orient(f, dir));
    }
    let mut best: Option<usize> = None;
    let mut k: usize = 0;
    while k < 4
        invariant
            k <= 4,
            fvs@.len() == 4,
            forall|k: int| 0 <= k < fvs@.len() ==> (#[trigger] fvs@[k]) < adj@.len(),
            av == adj@.map_values(|v: Vec<usize>| v@),
            best_start(fvs@, av, k as int) == match best {
                Some(i) => Some(i as int),
                None => None::<int>,
            },
            forall|i: usize| best == Some(i) ==> i < k,
        decreases 4 - k,
    {
        let l = adj[fvs[k]].len();
        assert(av[fvs@[k as int] as int] == adj@[fvs@[k as int] as int]@);
        if l != 0 {
            match best {
                None => {
                    best = Some(k);
                },
                Some(i) => {
                    assert(av[fvs@[i as int] as int] == adj@[fvs@[i as int] as int]@);
                    if l < adj[fvs[i]].len() {
                        best = Some(k);
                    }
                },
            }
        }
        k = k + 1;
    }
    let q0 = match best {
        Some(i) => fvs[i],
        None => fvs[0],
    };
    let m = usize::MAX;
    assert(av[q0 as int] == adj@[q0 as int]@);
    let u1 = vec![q0, m, m, m];
    assert(u1@ =~= seq![q0, m, m, m]);
    let q1 = match first_new(&adj[q0], &u1) {
        Some(x) => x,
        None => {
            return Err(None);
        },
    };
    proof {
        lemma_next_new(adj@[q0 as int]@, u1@);
    }
    assert(adj@[q0 as int]@.contains(q1));
    assert(q1 < adj@.len()) by {
        let t = choose|t: int| 0 <= t < adj@[q0 as int]@.len() && adj@[q0 as int]@[t] == q1;
        assert(av[q0 as int][t] == q1);
    }
    assert(av[q1 as int] == adj@[q1 as int]@);
    let u2 = vec![q0, q1, m, m];
    assert(u2@ =~= seq![q0, q1, m, m]);
    let q2 = match first_new(&adj[q1], &u2) {
        Some(x) => x,
        None => {
            return Err(None);
        },
    };
    proof {
        lemma_next_new(adj@[q1 as int]@, u2@);
    }
    assert(adj@[q1 as int]@.contains(q2));
    assert(q2 < adj@.len()) by {
        let t = choose|t: int| 0 <= t < adj@[q1 as int]@.len() && adj@[q1 as int]@[t] == q2;
        assert(av[q1 as int][t] == q2);
    }
    assert(av[q2 as int] == adj@[q2 as int]@);
    let u3 = vec![q0, q1, q2, m];
    assert(u3@ =~= seq![q0, q1, q2, m]);
    let q3 = match first_new(&adj[q2], &u3) {
        Some(x) => x,
        None => {
            let t = vec![q0, q1, q2];
            assert(t@ =~= seq![q0, q1, q2]);
            return Err(Some(t));
        },
    };
    let q = vec![q0, q1, q2, q3];
    assert(q@ =~= seq![q0, q1, q2, q3]);
    Ok(orient(q, dir))
}

// ---------------------------------------------------------------------------
// Corners met by five or more sampled vertices
// ---------------------------------------------------------------------------

/// The indices below `n`.
pub open spec fn below(n: nat) -> Set<usize> {
    Set::new(|x: usize| (x as int) < n)
}

proof fn lemma_below(n: nat)
    requires
        n <= usize::MAX + 1,
    ensures
        below(n).finite(),
        below(n).len() == n,
    decreases n,
{
    if n == 0 {
        assert(below(n) =~= Set::<usize>::empty());
    } else {
        lemma_below((n - 1) as nat);
        let x = (n - 1) as usize;
        assert(below(n) =~= below((n - 1) as nat).insert(x));
        assert(!below((n - 1) as nat).contains(x));
    }
}

/// Distinct indices below `n` number at most `n`.
proof fn lemma_distinct_below(s: Seq<usize>, n: nat)
    requires
        s.no_duplicates(),
        forall|k: int| 0 <= k < s.len() ==> (#[trigger] s[k]) < n,
        n <= usize::MAX + 1,
    ensures
        s.len() <= n,
{
    s.unique_seq_to_set();
    lemma_below(n);
    assert(s.to_set().subset_of(below(n))) by {
        assert forall|x: usize| s.to_set().contains(x) implies below(n).contains(x) by {
            assert(s.contains(x));
            let k = choose|k: int| 0 <= k < s.len() && s[k] == x;
            assert(s[k] < n);
        }
    }
    vstd::set_lib::lemma_len_subset(s.to_set(), below(n));
}

/// The chain grown from `curr` along `adj`: each step on to the first
/// neighbour not yet in it.
pub open spec fn grow(adj: Seq<Seq<usize>>, poly: Seq<usize>, curr: usize) -> Seq<usize>
    decreases adj.len() - poly.len(),
{
    if poly.len() >= adj.len() {
        poly
    } else {
        match next_new(adj[curr as int], poly) {
            None => poly,
            Some(nx) => grow(adj, poly.push(nx), nx),
        }
    }
}

/// The polygon grown from vertex `s`: the chain grown from it one way,
/// reversed, then grown on from `s` the other way.
pub open spec fn poly_from(adj: Seq<Seq<usize>>, s: usize) -> Seq<usize> {
    grow(adj, grow(adj, seq![s], s).reverse(), s)
}

/// `s` without position `i`, its last entry moved there.
pub open spec fn swap_removed(s: Seq<usize>, i: int) -> Seq<usize> {
    s.update(i, s.last()).drop_last()
}

/// One step of closing a corner met by the sampled vertices `fvs`: where
/// one has gap-fill links, the polygon grown from the first with the fewest
/// (but some), and the vertices left once it is taken out and its vertices
/// are dropped.
pub open spec fn corner_step(fvs: Seq<usize>, adj: Seq<Seq<usize>>) -> Option<(Seq<usize>, Seq<usize>)> {
    match best_start(fvs, adj, fvs.len() as int) {
        None => None,
        Some(ci) => {
            let poly = poly_from(adj, fvs[ci]);
            Some((poly, swap_removed(fvs, ci).filter(|v: usize| !poly.contains(v))))
        },
    }
}

/// The faces closing a corner met by the sampled vertices `fvs`: step after
/// step, each polygon of three corners or more, turned against `dir`.
pub open spec fn corner_polys_spec(fvs: Seq<usize>, adj: Seq<Seq<usize>>, dir: [[usize; 2]; 2]) -> Seq<Seq<usize>>
    decreases fvs.len(),
{
    match corner_step(fvs, adj) {
        None => Seq::empty(),
        Some((poly, rest)) => if rest.len() < fvs.len() {
            let tail = corner_polys_spec(rest, adj, dir);
            if poly.len() < 3 {
                tail
            } else {
                seq![oriented(poly, dir)] + tail
            }
        } else {
            Seq::empty()
        },
    }
}

proof fn lemma_best_start_range(fvs: Seq<usize>, adj: Seq<Seq<usize>>, k: int)
    ensures
        best_start(fvs, adj, k) matches Some(i) ==> 0 <= i < k,
    decreases k,
{
    if k > 0 {
        lemma_best_start_range(fvs, adj, k - 1);
    }
}

fn grow_chain(adj: &Vec<Vec<usize>>, poly: &mut Vec<usize>, curr0: usize, na: usize)
    requires
        na == adj@.len(),
        links_closed(adj@.map_values(|v: Vec<usize>| v@)),
        old(poly)@.no_duplicates(),
        forall|k: int| 0 <= k < old(poly)@.len() ==> (#[trigger] old(poly)@[k]) < adj@.len(),
        curr0 < adj@.len(),
    ensures
        final(poly)@ == grow(adj@.map_values(|v: Vec<usize>| v@), old(poly)@, curr0),
        final(poly)@.no_duplicates(),
        forall|k: int| 0 <= k < final(poly)@.len() ==> (#[trigger] final(poly)@[k]) < adj@.len(),
{
    let ghost av = adj@.map_values(|v: Vec<usize>| v@);
    let mut curr = curr0;
    loop
        invariant
            av == adj@.map_values(|v: Vec<usize>| v@),
            links_closed(av),
            poly@.no_duplicates(),
            forall|k: int| 0 <= k < poly@.len() ==> (#[trigger] poly@[k]) < adj@.len(),
            curr < adj@.len(),
            na == adj@.len(),
            grow(av, old(poly)@, curr0) == grow(av, poly@, curr),
        decreases adj@.len() - poly@.len(),
    {
        proof {
            lemma_distinct_below(poly@, na as nat);
        }
        assert(av[curr as int] == adj@[curr as int]@);
        match first_new(&adj[curr], poly) {
            None => {
                return;
            },
            Some(nx) => {
                proof {
                    lemma_next_new(adj@[curr as int]@, poly@);
                    let t = choose|t: int| 0 <= t < adj@[curr as int]@.len() && adj@[curr as int]@[t] == nx;
                    assert(av[curr as int][t] == nx);
                    let p2 = poly@.push(nx);
                    assert(p2.no_duplicates()) by {
                        assert forall|i: int, j: int| 0 <= i < p2.len() && 0 <= j < p2.len() && i != j implies p2[i] != p2[j] by {
                            if i < poly@.len() && j < poly@.len() {
                            } else if i < poly@.len() {
                                assert(poly@.contains(p2[i]));
                            } else {
                                assert(poly@.contains(p2[j]));
                            }
                        }
                    }
                    lemma_distinct_below(p2, na as nat);
                }
                poly.push(nx);
                curr = nx;
            },
        }
    }
}

fn reversed(v: &Vec<usize>) -> (r: Vec<usize>)
    ensures
        r@ == v@.reverse(),
{
    let mut out: Vec<usize> = Vec::new();
    let mut i: usize = v.len();
    while i > 0
        invariant
            i <= v@.len(),
            out@ == v@.subrange(i as int, v@.len() as int).reverse(),
        decreases i,
    {
        i = i - 1;
        out.push(v[i]);
        assert(v@.subrange(i as int, v@.len() as int).reverse() =~= v@.subrange(i + 1, v@.len() as int).reverse().push(
            v@[i as int],
        ));
    }
    assert(v@.subrange(0, v@.len() as int) =~= v@);
    out
}

fn seq_contains(s: &Vec<usize>, x: usize) -> (r: bool)
    ensures
        r == s@.contains(x),
{
    let mut i: usize = 0;
    while i < s.len()
        invariant
            i <= s@.len(),
            forall|t: int| 0 <= t < i ==> s@[t] != x,
        decreases s@.len() - i,
    {
        if s[i] == x {
            return true;
        }
        i = i + 1;
    }
    false
}

fn corner_step_exec(rest: &Vec<usize>, adj: &Vec<Vec<usize>>) -> (r: Option<(Vec<usize>, Vec<usize>)>)
    requires
        forall|k: int| 0 <= k < rest@.len() ==> (#[trigger] rest@[k]) < adj@.len(),
        links_closed(adj@.map_values(|v: Vec<usize>| v@)),
    ensures
        match corner_step(rest@, adj@.map_values(|v: Vec<usize>| v@)) {
            None => r is None,
            Some((poly, rest2)) => r matches Some(x) && x.0@ == poly && x.1@ == rest2 && rest2.len() < rest@.len()
                && forall|k: int| 0 <= k < rest2.len() ==> (#[trigger] rest2[k]) < adj@.len(),
        },
{
    let ghost av = adj@.map_values(|v: Vec<usize>| v@);
    let na = adj.len();
    let n = rest.len();
    let mut best: Option<usize> = None;
    let mut k: usize = 0;
    while k < n
        invariant
            k <= n,
            n == rest@.len(),
            av == adj@.map_values(|v: Vec<usize>| v@),
            forall|k: int| 0 <= k < rest@.len() ==> (#[trigger] rest@[k]) < adj@.len(),
            best_start(rest@, av, k as int) == match best {
                Some(i) => Some(i as int),
                None => None::<int>,
            },
            forall|i: usize| best == Some(i) ==> i < k,
        decreases n - k,
    {
        let l = adj[rest[k]].len();
        assert(av[rest@[k as int] as int] == adj@[rest@[k as int] as int]@);
        if l != 0 {
            match best {
                None => {
                    best = Some(k);
                },
                Some(i) => {
                    assert(av[rest@[i as int] as int] == adj@[rest@[i as int] as int]@);
                    if l < adj[rest[i]].len() {
                        best = Some(k);
                    }
                },
            }
        }
        k = k + 1;
    }
    let ci = match best {
        None => {
            return None;
        },
        Some(ci) => ci,
    };
    let s = rest[ci];
    let mut swapped: Vec<usize> = Vec::new();
    let mut t: usize = 0;
    while t < n - 1
        invariant
            t <= n - 1,
            ci < n,
            n == rest@.len(),
            swapped@ == swap_removed(rest@, ci as int).take(t as int),
        decreases n - 1 - t,
    {
        let x = if t == ci { rest[n - 1] } else { rest[t] };
        swapped.push(x);
        assert(swap_removed(rest@, ci as int).take(t + 1) =~= swap_removed(rest@, ci as int).take(t as int).push(x));
        t = t + 1;
    }
    assert(swapped@ =~= swap_removed(rest@, ci as int));
    let mut poly: Vec<usize> = Vec::new();
    poly.push(s);
    assert(poly@ =~= seq![s]);
    grow_chain(adj, &mut poly, s, na);
    let back0 = reversed(&poly);
    let mut back = back0;
    proof {
        assert(back@.no_duplicates()) by {
            assert forall|i: int, j: int| 0 <= i < back@.len() && 0 <= j < back@.len() && i != j implies back@[i] != back@[j] by {
                assert(back@[i] == poly@[poly@.len() - 1 - i]);
                assert(back@[j] == poly@[poly@.len() - 1 - j]);
            }
        }
        assert forall|k: int| 0 <= k < back@.len() implies (#[trigger] back@[k]) < adj@.len() by {
            assert(back@[k] == poly@[poly@.len() - 1 - k]);
        }
    }
    grow_chain(adj, &mut back, s, na);
    let ghost pf = back@;
    assert(pf == poly_from(av, s));
    let mut rest2: Vec<usize> = Vec::new();
    let mut j: usize = 0;
    while j < swapped.len()
        invariant
            j <= swapped@.len(),
            pf == back@,
            rest2@ == swapped@.take(j as int).filter(|v: usize| !pf.contains(v)),
        decreases swapped@.len() - j,
    {
        let v = swapped[j];
        let inside = seq_contains(&back, v);
        assert(swapped@.take(j + 1).drop_last() =~= swapped@.take(j as int));
        assert(swapped@.take(j + 1).last() == v);
        proof {
            reveal(Seq::filter);
        }
        if !inside {
            rest2.push(v);
        }
        j = j + 1;
    }
    assert(swapped@.take(j as int) =~= swapped@);
    proof {
        broadcast use vstd::seq_lib::group_filter_ensures;
        swapped@.lemma_filter_len(|v: usize| !pf.contains(v));
        assert forall|k: int| 0 <= k < rest2@.len() implies (#[trigger] rest2@[k]) < adj@.len() by {
            assert(rest2@.contains(rest2@[k]));
            assert(rest2@ == swapped@.filter(|v: usize| !pf.contains(v)));
            swapped@.lemma_filter_contains_rev(|v: usize| !pf.contains(v), rest2@[k]);
            assert(swapped@.contains(rest2@[k]));
            let q = choose|q: int| 0 <= q < swapped@.len() && swapped@[q] == rest2@[k];
            if q == ci as int {
                assert(swapped@[q] == rest@[n - 1]);
            } else {
                assert(swapped@[q] == rest@[q]);
            }
        }
    }
    Some((back, rest2))
}

/// The faces closing a corner met by five or more sampled vertices `fvs`
/// (see `corner_polys_spec`).
pub fn corner_polys(fvs: &[usize], adj: &Vec<Vec<usize>>, dir: [[usize; 2]; 2]) -> (r: Vec<Vec<usize>>)
    requires
        forall|k: int| 0 <= k < fvs@.len() ==> (#[trigger] fvs@[k]) < adj@.len(),
        links_closed(adj@.map_values(|v: Vec<usize>| v@)),
    ensures
        r@.map_values(|f: Vec<usize>| f@) == corner_polys_spec(fvs@, adj@.map_values(|v: Vec<usize>| v@), dir),
{
    let ghost av = adj@.map_values(|v: Vec<usize>| v@);
    let mut rest: Vec<usize> = Vec::new();
    let mut t: usize = 0;
    while t < fvs.len()
        invariant
            t <= fvs@.len(),
            rest@ == fvs@.take(t as int),
        decreases fvs@.len() - t,
    {
        rest.push(fvs[t]);
        assert(fvs@.take(t + 1) =~= fvs@.take(t as int).push(fvs@[t as int]));
        t = t + 1;
    }
    assert(fvs@.take(t as int) =~= fvs@);
    let mut out: Vec<Vec<usize>> = Vec::new();
    assert(out@.map_values(|f: Vec<usize>| f@) =~= Seq::<Seq<usize>>::empty());
    assert(Seq::<Seq<usize>>::empty() + corner_polys_spec(rest@, av, dir) =~= corner_polys_spec(rest@, av, dir));
    loop
        invariant
            av == adj@.map_values(|v: Vec<usize>| v@),
            links_closed(av),
            forall|k: int| 0 <= k < rest@.len() ==> (#[trigger] rest@[k]) < adj@.len(),
            out@.map_values(|f: Vec<usize>| f@) + corner_polys_spec(rest@, av, dir) == corner_polys_spec(fvs@, av, dir),
        decreases rest@.len(),
    {
        let ghost before = out@.map_values(|f: Vec<usize>| f@);
        match corner_step_exec(&rest, adj) {
            None => {
                assert(corner_polys_spec(rest@, av, dir) =~= Seq::<Seq<usize>>::empty());
                assert(before + Seq::<Seq<usize>>::empty() =~= before);
                return out;
            },
            Some((poly, rest2)) => {
                let ghost pf = poly@;
                let ghost tail = corner_polys_spec(rest2@, av, dir);
                if poly.len() >= 3 {
                    let f = orient(poly, dir);
                    out.push(f);
                    assert(out@.map_values(|f: Vec<usize>| f@) =~= before.push(oriented(pf, dir)));
                    assert(before.push(oriented(pf, dir)) + tail =~= before + (seq![oriented(pf, dir)] + tail));
                }
                rest = rest2;
            },
        }
    }
}

} // verus!
