//! Tracing the boundary of the faces sampled over one input face: each
//! boundary vertex linked to its two boundary neighbours, the order in
//! which the walk around the boundary meets the corners of the input face,
//! and the rotations that line that order up with the face.
use vstd::prelude::*;

verus! {

/// The mark of an empty neighbour slot.
pub const NO_VERT: usize = usize::MAX;

/// The slots of a vertex after linking it to `b`: the first empty slot
/// takes `b`; none where both are taken.
pub open spec fn slot_in(s: [usize; 2], b: usize) -> Option<[usize; 2]> {
    if s[0] == NO_VERT {
        Some([b, s[1]])
    } else if s[1] == NO_VERT {
        Some([s[0], b])
    } else {
        None
    }
}

/// The neighbour slots after linking vertex `a` to `b`.
pub open spec fn link_one(adj: Seq<[usize; 2]>, a: usize, b: usize) -> Option<Seq<[usize; 2]>> {
    match slot_in(adj[a as int], b) {
        Some(s) => Some(adj.update(a as int, s)),
        None => None,
    }
}

/// The neighbour slots after linking the two ends of edge `e` to each
/// other, the first end first.
pub open spec fn link_ends(adj: Seq<[usize; 2]>, e: [usize; 2]) -> Option<Seq<[usize; 2]>> {
    match link_one(adj, e[0], e[1]) {
        Some(a) => link_one(a, e[1], e[0]),
        None => None,
    }
}

/// The neighbour slots after linking the ends of the edges `es` in order;
/// none once a vertex would get a third neighbour.
pub open spec fn link_all_ends(adj: Seq<[usize; 2]>, es: Seq<[usize; 2]>) -> Option<Seq<[usize; 2]>>
    decreases es.len(),
{
    if es.len() == 0 {
        Some(adj)
    } else {
        match link_all_ends(adj, es.drop_last()) {
            Some(a) => link_ends(a, es.last()),
            None => None,
        }
    }
}

/// `n` vertices with both slots empty.
pub open spec fn empty_slots(n: nat) -> Seq<[usize; 2]> {
    Seq::new(n, |i: int| [NO_VERT, NO_VERT])
}

fn link_vertex(adj: &mut Vec<[usize; 2]>, a: usize, b: usize) -> (ok: bool)
    requires
        a < old(adj)@.len(),
    ensures
        final(adj)@.len() == old(adj)@.len(),
        ok == link_one(old(adj)@, a, b) is Some,
        ok ==> link_one(old(adj)@, a, b) == Some(final(adj)@),
{
    let s = adj[a];
    if s[0] == NO_VERT {
        adj.set(a, [b, s[1]]);
        true
    } else if s[1] == NO_VERT {
        adj.set(a, [s[0], b]);
        true
    } else {
        false
    }
}

/// Links each end of the boundary edges `bd` to the other, edge after edge,
/// each of the `n` vertices keeping up to two neighbours in the order met;
/// none where a vertex meets a third.
pub fn boundary_neighbours(n: usize, bd: &[[usize; 2]]) -> (r: Option<Vec<[usize; 2]>>)
    requires
        forall|k: int| 0 <= k < bd@.len() ==> (#[trigger] bd@[k])[0] < n && bd@[k][1] < n && bd@[k][0] != bd@[k][1],
    ensures
        match link_all_ends(empty_slots(n as nat), bd@) {
            Some(a) => r matches Some(v) && v@ == a,
            None => r is None,
        },
{
    let mut adj: Vec<[usize; 2]> = Vec::new();
    let mut t: usize = 0;
    while t < n
        invariant
            t <= n,
            adj@.len() == t,
            forall|q: int| 0 <= q < t ==> #[trigger] adj@[q] == [NO_VERT, NO_VERT],
        decreases n - t,
    {
        adj.push([NO_VERT, NO_VERT]);
        t = t + 1;
    }
    assert(adj@ =~= empty_slots(n as nat));
    let mut k: usize = 0;
    while k < bd.len()
        invariant
            k <= bd@.len(),
            adj@.len() == n,
            forall|k: int| 0 <= k < bd@.len() ==> (#[trigger] bd@[k])[0] < n && bd@[k][1] < n && bd@[k][0] != bd@[k][1],
            link_all_ends(empty_slots(n as nat), bd@.take(k as int)) == Some(adj@),
        decreases bd@.len() - k,
    {
        let e = bd[k];
        assert(bd@.take(k + 1).drop_last() =~= bd@.take(k as int));
        assert(bd@.take(k + 1).last() == e);
        let ghost before = adj@;
        if !link_vertex(&mut adj, e[0], e[1]) {
            proof {
                lemma_link_all_ends_none(empty_slots(n as nat), bd@, k as int + 1);
            }
            return None;
        }
        if !link_vertex(&mut adj, e[1], e[0]) {
            proof {
                lemma_link_all_ends_none(empty_slots(n as nat), bd@, k as int + 1);
            }
            return None;
        }
        k = k + 1;
    }
    assert(bd@.take(k as int) =~= bd@);
    Some(adj)
}

/// Linking only fills empty slots: a slot once filled keeps its neighbour.
proof fn lemma_link_ends_keeps(adj: Seq<[usize; 2]>, e: [usize; 2])
    requires
        e[0] < adj.len(),
        e[1] < adj.len(),
    ensures
        link_ends(adj, e) matches Some(b) ==> b.len() == adj.len() && forall|v: int, s: int|
            0 <= v < adj.len() && 0 <= s < 2 && adj[v][s] != NO_VERT ==> #[trigger] b[v][s] == adj[v][s],
{
}

/// Linked neighbours are mutual: where linking the edges `es` among `n`
/// vertices succeeds, every vertex listed as a neighbour of `v` lists `v`.
pub proof fn lemma_boundary_neighbours_mutual(n: nat, es: Seq<[usize; 2]>)
    requires
        n <= usize::MAX,
        forall|k: int| 0 <= k < es.len() ==> (#[trigger] es[k])[0] < n && es[k][1] < n && es[k][0] != es[k][1],
    ensures
        link_all_ends(empty_slots(n), es) matches Some(a) ==> a.len() == n && forall|v: int, s: int|
            0 <= v < n && 0 <= s < 2 && #[trigger] a[v][s] != NO_VERT ==> a[v][s] < n && (a[a[v][s] as int][0] == v
                || a[a[v][s] as int][1] == v),
    decreases es.len(),
{
    if es.len() == 0 {
    } else {
        let d = es.drop_last();
        assert forall|k: int| 0 <= k < d.len() implies (#[trigger] d[k])[0] < n && d[k][1] < n && d[k][0] != d[k][1] by {
            assert(d[k] == es[k]);
        }
        lemma_boundary_neighbours_mutual(n, d);
        let e = es.last();
        assert(e == es[es.len() - 1]);
        if let Some(a) = link_all_ends(empty_slots(n), d) {
            lemma_link_ends_keeps(a, e);
            if let Some(b) = link_ends(a, e) {
                let a1 = link_one(a, e[0], e[1]).unwrap();
                assert forall|v: int, s: int|
                    0 <= v < n && 0 <= s < 2 && #[trigger] b[v][s] != NO_VERT implies b[v][s] < n && (b[b[v][s] as int][0]
                        == v || b[b[v][s] as int][1] == v) by {
                    if a[v][s] != NO_VERT {
                        let w = a[v][s] as int;
                        assert(b[v][s] == a[v][s]);
                        if a[w][0] == v {
                            assert(a[w][0] != NO_VERT);
                            assert(b[w][0] == a[w][0]);
                        } else {
                            assert(a[w][1] != NO_VERT);
                            assert(b[w][1] == a[w][1]);
                        }
                    } else {
                        // the slot was filled by this edge
                        if v == e[0] as int {
                            assert(a1[v] == b[v]);
                            assert(b[v][s] == e[1]);
                            let w = e[1] as int;
                            assert(b[w][0] == v || b[w][1] == v);
                        } else {
                            assert(v == e[1] as int);
                            assert(b[v][s] == e[0]);
                            let w = e[0] as int;
                            assert(a1[w][0] == v || a1[w][1] == v);
                            assert(b[w] == a1[w]);
                        }
                    }
                }
            }
        }
    }
}

/// Once linking fails it stays failed.
proof fn lemma_link_all_ends_none(adj: Seq<[usize; 2]>, es: Seq<[usize; 2]>, k: int)
    requires
        0 <= k <= es.len(),
        link_all_ends(adj, es.take(k)) is None,
    ensures
        link_all_ends(adj, es) is None,
    decreases es.len() - k,
{
    if k < es.len() {
        assert(es.take(k + 1).drop_last() =~= es.take(k));
        lemma_link_all_ends_none(adj, es, k + 1);
    } else {
        assert(es.take(k) =~= es);
    }
}

// ---------------------------------------------------------------------------
// Walking around the boundary
// ---------------------------------------------------------------------------

/// Whether vertex `v` has a neighbour.
pub open spec fn present(adj: Seq<[usize; 2]>, v: usize) -> bool {
    v < adj.len() && adj[v as int][0] != NO_VERT
}

/// The neighbour to walk on to from a vertex with slots `s` reached from
/// `prev`: the first slot that is not `prev`.
pub open spec fn step_from(s: [usize; 2], prev: usize) -> Option<usize> {
    if s[0] != prev {
        Some(s[0])
    } else if s[1] != prev {
        Some(s[1])
    } else {
        None
    }
}

/// The vertices met walking from `curr`, reached from `prev`, until `start`
/// (included), within `fuel` steps; none where the walk cannot go on.
pub open spec fn trail(adj: Seq<[usize; 2]>, start: usize, prev: usize, curr: usize, fuel: nat) -> Option<Seq<usize>>
    decreases fuel,
{
    if fuel == 0 {
        None
    } else if curr == start {
        Some(seq![curr])
    } else if !present(adj, curr) {
        None
    } else {
        match step_from(adj[curr as int], prev) {
            Some(next) => match trail(adj, start, curr, next, (fuel - 1) as nat) {
                Some(t) => Some(seq![curr] + t),
                None => None,
            },
            None => None,
        }
    }
}

/// Whether no vertex below `v` has a neighbour.
pub open spec fn none_before(adj: Seq<[usize; 2]>, v: int) -> bool {
    forall|u: int| 0 <= u < v ==> !#[trigger] present(adj, u as usize)
}

/// The input-face corner that corresponds to sampled vertex `v`, from the
/// pairs `(corner, vertex)` of `corners`: the first pair naming `v`.
pub open spec fn corner_of(corners: Seq<(usize, usize)>, v: usize) -> Option<usize>
    decreases corners.len(),
{
    if corners.len() == 0 {
        None
    } else if corners[0].1 == v {
        Some(corners[0].0)
    } else {
        corner_of(corners.drop_first(), v)
    }
}

/// The input-face corners met along the vertices `t`, in order.
pub open spec fn corners_along(t: Seq<usize>, corners: Seq<(usize, usize)>) -> Seq<usize>
    decreases t.len(),
{
    if t.len() == 0 {
        Seq::empty()
    } else {
        corners_along(t.drop_last(), corners) + match corner_of(corners, t.last()) {
            Some(c) => seq![c],
            None => Seq::empty(),
        }
    }
}

proof fn lemma_corners_along_concat(a: Seq<usize>, b: Seq<usize>, corners: Seq<(usize, usize)>)
    ensures
        corners_along(a + b, corners) == corners_along(a, corners) + corners_along(b, corners),
    decreases b.len(),
{
    if b.len() == 0 {
        assert(a + b =~= a);
        assert(corners_along(a, corners) + corners_along(b, corners) =~= corners_along(a, corners));
    } else {
        lemma_corners_along_concat(a, b.drop_last(), corners);
        assert((a + b).drop_last() =~= a + b.drop_last());
        assert((a + b).last() == b.last());
    }
}

proof fn lemma_corners_along_single(v: usize, corners: Seq<(usize, usize)>)
    ensures
        corners_along(seq![v], corners) == match corner_of(corners, v) {
            Some(c) => seq![c],
            None => Seq::<usize>::empty(),
        },
{
    let s = seq![v];
    assert(s.drop_last() =~= Seq::<usize>::empty());
    assert(s.last() == v);
    assert(corners_along(s.drop_last(), corners) =~= Seq::<usize>::empty());
    assert(corners_along(s, corners) =~= match corner_of(corners, v) {
        Some(c) => seq![c],
        None => Seq::<usize>::empty(),
    });
}

fn find_corner(corners: &[(usize, usize)], v: usize) -> (r: Option<usize>)
    ensures
        r == corner_of(corners@, v),
{
    let mut i: usize = 0;
    assert(corners@.skip(0) =~= corners@);
    while i < corners.len()
        invariant
            i <= corners@.len(),
            corner_of(corners@, v) == corner_of(corners@.skip(i as int), v),
        decreases corners@.len() - i,
    {
        assert(corners@.skip(i as int)[0] == corners@[i as int]);
        if corners[i].1 == v {
            return Some(corners[i].0);
        }
        assert(corners@.skip(i as int).drop_first() =~= corners@.skip(i + 1));
        i = i + 1;
    }
    assert(corners@.skip(i as int) =~= Seq::<(usize, usize)>::empty());
    None
}

/// The corners of the input face in the order met walking around the
/// boundary: from the lowest vertex with neighbours, first towards its
/// first neighbour, always on to the neighbour it did not come from, until
/// back at the start. `corners` pairs each corner with its sampled
/// vertex. None where no vertex has neighbours, or the walk reaches a
/// vertex without one, cannot go on, or does not come back within as many
/// steps as there are vertices.
pub fn corner_order(adj: &Vec<[usize; 2]>, corners: &[(usize, usize)]) -> (r: Option<Vec<usize>>)
    requires
        adj@.len() < usize::MAX,
    ensures
        match r {
            None => none_before(adj@, adj@.len() as int) || exists|s: usize|
                present(adj@, s) && none_before(adj@, s as int) && trail(adj@, s, s, adj@[s as int][0], (adj@.len() + 1) as nat)
                    is None,
            Some(o) => exists|s: usize, t: Seq<usize>|
                present(adj@, s) && none_before(adj@, s as int) && trail(adj@, s, s, adj@[s as int][0], (adj@.len() + 1) as nat)
                    == Some(t) && o@ == corners_along(t, corners@),
        },
{
    let mut s: usize = 0;
    while s < adj.len() && adj[s][0] == NO_VERT
        invariant
            s <= adj@.len(),
            none_before(adj@, s as int),
        decreases adj@.len() - s,
    {
        s = s + 1;
    }
    if s == adj.len() {
        return None;
    }
    let start = s;
    let mut prev = start;
    let mut curr = adj[start][0];
    let mut fuel: usize = adj.len() + 1;
    let ghost total = match trail(adj@, start, start, adj@[start as int][0], (adj@.len() + 1) as nat) {
        Some(t) => Some(corners_along(t, corners@)),
        None => None,
    };
    let mut order: Vec<usize> = Vec::new();
    assert(corners_along(Seq::<usize>::empty(), corners@) =~= Seq::<usize>::empty());
    loop
        invariant
            present(adj@, start),
            none_before(adj@, start as int),
            total == match trail(adj@, start, start, adj@[start as int][0], (adj@.len() + 1) as nat) {
                Some(t) => Some(corners_along(t, corners@)),
                None => None::<Seq<usize>>,
            },
            total == match trail(adj@, start, prev, curr, fuel as nat) {
                Some(t) => Some(order@ + corners_along(t, corners@)),
                None => None::<Seq<usize>>,
            },
        decreases fuel,
    {
        if fuel == 0 {
            return None;
        }
        if curr == start {
            let c = find_corner(corners, curr);
            proof {
                lemma_corners_along_single(curr, corners@);
            }
            match c {
                Some(x) => {
                    order.push(x);
                },
                None => {},
            }
            assert(order@ =~= total.unwrap());
            return Some(order);
        }
        if curr >= adj.len() || adj[curr][0] == NO_VERT {
            return None;
        }
        let sl = adj[curr];
        let next = if sl[0] != prev {
            sl[0]
        } else if sl[1] != prev {
            sl[1]
        } else {
            return None;
        };
        let c = find_corner(corners, curr);
        proof {
            lemma_corners_along_single(curr, corners@);
            if let Some(t) = trail(adj@, start, curr, next, (fuel - 1) as nat) {
                lemma_corners_along_concat(seq![curr], t, corners@);
            }
        }
        let ghost old_order = order@;
        match c {
            Some(x) => {
                order.push(x);
            },
            None => {},
        }
        proof {
            assert(order@ =~= old_order + corners_along(seq![curr], corners@));
            if let Some(t) = trail(adj@, start, curr, next, (fuel - 1) as nat) {
                assert(old_order + corners_along(seq![curr] + t, corners@) =~= order@ + corners_along(t, corners@));
            }
        }
        prev = curr;
        curr = next;
        fuel = fuel - 1;
    }
}

// ---------------------------------------------------------------------------
// Lining the order up with the face
// ---------------------------------------------------------------------------

/// `order` rotated to the left until it starts with `first`; none where
/// `first` does not occur in it.
pub fn rotate_to_first(order: &Vec<usize>, first: usize) -> (r: Option<Vec<usize>>)
    ensures
        match r {
            Some(v) => exists|k: int|
                0 <= k < order@.len() && order@[k] == first && (forall|j: int| 0 <= j < k ==> order@[j] != first) && v@
                    == order@.skip(k) + order@.take(k),
            None => !order@.contains(first),
        },
{
    let mut k: usize = 0;
    while k < order.len() && order[k] != first
        invariant
            k <= order@.len(),
            forall|j: int| 0 <= j < k ==> order@[j] != first,
        decreases order@.len() - k,
    {
        k = k + 1;
    }
    if k == order.len() {
        return None;
    }
    let mut out: Vec<usize> = Vec::new();
    let mut i: usize = k;
    while i < order.len()
        invariant
            k <= i <= order@.len(),
            out@ == order@.subrange(k as int, i as int),
        decreases order@.len() - i,
    {
        out.push(order[i]);
        assert(order@.subrange(k as int, i + 1) =~= order@.subrange(k as int, i as int).push(order@[i as int]));
        i = i + 1;
    }
    let mut j: usize = 0;
    while j < k
        invariant
            j <= k < order@.len(),
            out@ == order@.skip(k as int) + order@.take(j as int),
        decreases k - j,
    {
        out.push(order[j]);
        assert(order@.take(j + 1) =~= order@.take(j as int).push(order@[j as int]));
        assert(order@.skip(k as int) + order@.take(j + 1) =~= (order@.skip(k as int) + order@.take(j as int)).push(order@[j as int]));
        j = j + 1;
    }
    Some(out)
}

/// `order` reversed and then rotated right by one: its first entry stays
/// first and the rest come in reverse.
pub fn flip_keeping_first(order: &Vec<usize>) -> (r: Vec<usize>)
    ensures
        order@.len() == 0 ==> r@ == order@,
        order@.len() > 0 ==> r@ == seq![order@[0]] + order@.skip(1).reverse(),
{
    let mut out: Vec<usize> = Vec::new();
    if order.len() == 0 {
        assert(out@ =~= order@);
        return out;
    }
    out.push(order[0]);
    let mut i: usize = order.len();
    while i > 1
        invariant
            1 <= i <= order@.len(),
            out@ == seq![order@[0]] + order@.subrange(i as int, order@.len() as int).reverse(),
        decreases i,
    {
        i = i - 1;
        out.push(order[i]);
        assert(order@.subrange(i as int, order@.len() as int).reverse() =~= order@.subrange(i + 1, order@.len() as int).reverse().push(
            order@[i as int],
        ));
    }
    assert(order@.subrange(1, order@.len() as int) =~= order@.skip(1));
    out
}

/// Swaps the two neighbour slots of every vertex.
pub fn swap_slots(adj: &mut Vec<[usize; 2]>)
    ensures
        final(adj)@.len() == old(adj)@.len(),
        forall|v: int| 0 <= v < old(adj)@.len() ==> #[trigger] final(adj)@[v] == [old(adj)@[v][1], old(adj)@[v][0]],
{
    let mut i: usize = 0;
    while i < adj.len()
        invariant
            i <= adj@.len(),
            adj@.len() == old(adj)@.len(),
            forall|v: int| 0 <= v < i ==> #[trigger] adj@[v] == [old(adj)@[v][1], old(adj)@[v][0]],
            forall|v: int| i <= v < adj@.len() ==> #[trigger] adj@[v] == old(adj)@[v],
        decreases adj@.len() - i,
    {
        let s = adj[i];
        adj.set(i, [s[1], s[0]]);
        i = i + 1;
    }
}

// ---------------------------------------------------------------------------
// Labelling the boundary between corners
// ---------------------------------------------------------------------------

/// The mark of an empty label slot.
pub const NO_CORNER: usize = usize::MAX;

/// The label slots after giving vertex `v` the label `lab`: the first
/// empty slot takes it; none where both are taken.
pub open spec fn put_label(ls: Seq<[(u32, usize); 2]>, v: usize, lab: (u32, usize)) -> Option<Seq<[(u32, usize); 2]>> {
    let s = ls[v as int];
    if s[0].1 == NO_CORNER {
        Some(ls.update(v as int, [lab, s[1]]))
    } else if s[1].1 == NO_CORNER {
        Some(ls.update(v as int, [s[0], lab]))
    } else {
        None
    }
}

/// Whether vertex `v` is the sampled vertex of a corner.
pub open spec fn is_corner(corners: Seq<(usize, usize)>, v: usize) -> bool {
    exists|k: int| 0 <= k < corners.len() && #[trigger] corners[k].1 == v
}

/// Walking from `curr`, reached from `prev`, until a corner's vertex, each
/// vertex passed gets the label `(steps, og)`, `steps` counting from `c`:
/// the labels after the walk and the corner vertex it ends at, within
/// `fuel` steps; none where the walk cannot go on or a vertex would get a
/// third label.
pub open spec fn walk_side(
    adj: Seq<[usize; 2]>,
    corners: Seq<(usize, usize)>,
    og: usize,
    ls: Seq<[(u32, usize); 2]>,
    prev: usize,
    curr: usize,
    c: nat,
    fuel: nat,
) -> Option<(Seq<[(u32, usize); 2]>, usize)>
    decreases fuel,
{
    if fuel == 0 {
        None
    } else if is_corner(corners, curr) {
        Some((ls, curr))
    } else if curr >= ls.len() || !present(adj, curr) || !(adj[curr as int][0] == prev || adj[curr as int][1] == prev) {
        None
    } else {
        match put_label(ls, curr, (c as u32, og)) {
            None => None,
            Some(ls2) => match step_from(adj[curr as int], prev) {
                None => None,
                Some(next) => walk_side(adj, corners, og, ls2, curr, next, c + 1, (fuel - 1) as nat),
            },
        }
    }
}

/// The labels after walking both ways from the vertex `v` of corner `og`,
/// and the corners at which the two walks end; none where `v` lacks two
/// distinct neighbours, a walk fails, or a walk comes back to `v`.
pub open spec fn label_corner(
    adj: Seq<[usize; 2]>,
    corners: Seq<(usize, usize)>,
    ls: Seq<[(u32, usize); 2]>,
    og: usize,
    v: usize,
) -> Option<(Seq<[(u32, usize); 2]>, [usize; 2])> {
    let fuel = (adj.len() + 1) as nat;
    if !present(adj, v) {
        None
    } else {
        let l = adj[v as int][0];
        let r = adj[v as int][1];
        if l == r || l == v || r == v {
            None
        } else {
            match walk_side(adj, corners, og, ls, v, l, 1, fuel) {
                None => None,
                Some((ls1, e1)) => if e1 == v {
                    None
                } else {
                    match walk_side(adj, corners, og, ls1, v, r, 1, fuel) {
                        None => None,
                        Some((ls2, e2)) => if e2 == v {
                            None
                        } else {
                            match (corner_of(corners, e1), corner_of(corners, e2)) {
                                (Some(a), Some(b)) => Some((ls2, [a, b])),
                                _ => None,
                            }
                        },
                    }
                },
            }
        }
    }
}

/// The labels and corner pairs after labelling from the first `k` corners.
pub open spec fn label_corners(
    adj: Seq<[usize; 2]>,
    corners: Seq<(usize, usize)>,
    ls: Seq<[(u32, usize); 2]>,
    k: int,
) -> Option<(Seq<[(u32, usize); 2]>, Seq<[usize; 2]>)>
    decreases k,
{
    if k <= 0 {
        Some((ls, Seq::empty()))
    } else {
        match label_corners(adj, corners, ls, k - 1) {
            None => None,
            Some((ls1, pairs)) => match label_corner(adj, corners, ls1, corners[k - 1].0, corners[k - 1].1) {
                None => None,
                Some((ls2, p)) => Some((ls2, pairs.push(p))),
            },
        }
    }
}

/// `n` vertices with both label slots empty.
pub open spec fn empty_labels(n: nat) -> Seq<[(u32, usize); 2]> {
    Seq::new(n, |i: int| [(0u32, NO_CORNER), (0u32, NO_CORNER)])
}

fn is_corner_vertex(corners: &[(usize, usize)], v: usize) -> (r: bool)
    ensures
        r == is_corner(corners@, v),
{
    let mut i: usize = 0;
    while i < corners.len()
        invariant
            i <= corners@.len(),
            forall|k: int| 0 <= k < i ==> (#[trigger] corners@[k]).1 != v,
        decreases corners@.len() - i,
    {
        if corners[i].1 == v {
            return true;
        }
        i = i + 1;
    }
    false
}

fn walk(
    adj: &Vec<[usize; 2]>,
    corners: &[(usize, usize)],
    og: usize,
    labels: &mut Vec<[(u32, usize); 2]>,
    prev0: usize,
    curr0: usize,
) -> (r: Option<usize>)
    requires
        old(labels)@.len() == adj@.len(),
        adj@.len() + 2 <= u32::MAX,
    ensures
        final(labels)@.len() == adj@.len(),
        match walk_side(adj@, corners@, og, old(labels)@, prev0, curr0, 1, (adj@.len() + 1) as nat) {
            Some((ls, e)) => r == Some(e) && final(labels)@ == ls,
            None => r is None,
        },
{
    let mut prev = prev0;
    let mut curr = curr0;
    let mut c: u32 = 1;
    let mut fuel: usize = adj.len() + 1;
    let ghost total = walk_side(adj@, corners@, og, labels@, prev0, curr0, 1, (adj@.len() + 1) as nat);
    loop
        invariant
            labels@.len() == adj@.len(),
            adj@.len() + 2 <= u32::MAX,
            c + fuel == adj@.len() + 2,
            total == walk_side(adj@, corners@, og, old(labels)@, prev0, curr0, 1, (adj@.len() + 1) as nat),
            total == walk_side(adj@, corners@, og, labels@, prev, curr, c as nat, fuel as nat),
        decreases fuel,
    {
        if fuel == 0 {
            return None;
        }
        if is_corner_vertex(corners, curr) {
            return Some(curr);
        }
        if curr >= labels.len() || adj[curr][0] == NO_VERT {
            return None;
        }
        let sl = adj[curr];
        if !(sl[0] == prev || sl[1] == prev) {
            return None;
        }
        let lab = labels[curr];
        if lab[0].1 == NO_CORNER {
            labels.set(curr, [(c, og), lab[1]]);
        } else if lab[1].1 == NO_CORNER {
            labels.set(curr, [lab[0], (c, og)]);
        } else {
            return None;
        }
        let next = if sl[0] != prev {
            sl[0]
        } else if sl[1] != prev {
            sl[1]
        } else {
            return None;
        };
        prev = curr;
        curr = next;
        c = c + 1;
        fuel = fuel - 1;
    }
}

/// Labels the boundary vertices between corners: from the vertex of each
/// corner in turn (`corners` pairing each input-face corner with its
/// sampled vertex), walking along the boundary both ways, first towards its
/// first neighbour, every vertex passed before the next corner's vertex
/// gets the label (steps from the corner, corner). Gives the labels of the
/// `adj@.len()` vertices and, for each corner, the corners the two walks
/// end at; none where a corner's vertex lacks two distinct neighbours, a
/// walk cannot go on or comes back to where it started, or a vertex would
/// get a third label.
pub fn label_sides(adj: &Vec<[usize; 2]>, corners: &[(usize, usize)]) -> (r: Option<(Vec<[(u32, usize); 2]>, Vec<[usize; 2]>)>)
    requires
        adj@.len() + 2 <= u32::MAX,
    ensures
        match label_corners(adj@, corners@, empty_labels(adj@.len()), corners@.len() as int) {
            Some((ls, pairs)) => r matches Some(x) && x.0@ == ls && x.1@ == pairs,
            None => r is None,
        },
{
    let n = adj.len();
    let mut labels: Vec<[(u32, usize); 2]> = Vec::new();
    let mut t: usize = 0;
    while t < n
        invariant
            t <= n,
            labels@.len() == t,
            forall|q: int| 0 <= q < t ==> #[trigger] labels@[q] == [(0u32, NO_CORNER), (0u32, NO_CORNER)],
        decreases n - t,
    {
        labels.push([(0u32, NO_CORNER), (0u32, NO_CORNER)]);
        t = t + 1;
    }
    assert(labels@ =~= empty_labels(n as nat));
    let mut pairs: Vec<[usize; 2]> = Vec::new();
    let mut k: usize = 0;
    while k < corners.len()
        invariant
            k <= corners@.len(),
            n == adj@.len(),
            adj@.len() + 2 <= u32::MAX,
            labels@.len() == n,
            label_corners(adj@, corners@, empty_labels(n as nat), k as int) == Some((labels@, pairs@)),
        decreases corners@.len() - k,
    {
        let og = corners[k].0;
        let v = corners[k].1;
        proof {
            lemma_label_corners_unfold(adj@, corners@, empty_labels(n as nat), k as int + 1);
        }
        if v >= n || adj[v][0] == NO_VERT {
            proof {
                lemma_label_corners_none(adj@, corners@, empty_labels(n as nat), k as int + 1);
            }
            return None;
        }
        let l = adj[v][0];
        let r = adj[v][1];
        if l == r || l == v || r == v {
            proof {
                lemma_label_corners_none(adj@, corners@, empty_labels(n as nat), k as int + 1);
            }
            return None;
        }
        let e1 = match walk(adj, corners, og, &mut labels, v, l) {
            Some(e) => e,
            None => {
                proof {
                    lemma_label_corners_none(adj@, corners@, empty_labels(n as nat), k as int + 1);
                }
                return None;
            },
        };
        if e1 == v {
            proof {
                lemma_label_corners_none(adj@, corners@, empty_labels(n as nat), k as int + 1);
            }
            return None;
        }
        let e2 = match walk(adj, corners, og, &mut labels, v, r) {
            Some(e) => e,
            None => {
                proof {
                    lemma_label_corners_none(adj@, corners@, empty_labels(n as nat), k as int + 1);
                }
                return None;
            },
        };
        if e2 == v {
            proof {
                lemma_label_corners_none(adj@, corners@, empty_labels(n as nat), k as int + 1);
            }
            return None;
        }
        let a = find_corner(corners, e1);
        let b = find_corner(corners, e2);
        match (a, b) {
            (Some(a), Some(b)) => {
                pairs.push([a, b]);
            },
            _ => {
                proof {
                    lemma_label_corners_none(adj@, corners@, empty_labels(n as nat), k as int + 1);
                }
                return None;
            },
        }
        k = k + 1;
    }
    Some((labels, pairs))
}

proof fn lemma_label_corners_unfold(adj: Seq<[usize; 2]>, corners: Seq<(usize, usize)>, ls: Seq<[(u32, usize); 2]>, k: int)
    requires
        k > 0,
    ensures
        label_corners(adj, corners, ls, k) == match label_corners(adj, corners, ls, k - 1) {
            None => None,
            Some((ls1, pairs)) => match label_corner(adj, corners, ls1, corners[k - 1].0, corners[k - 1].1) {
                None => None,
                Some((ls2, p)) => Some((ls2, pairs.push(p))),
            },
        },
{
}

/// Once labelling fails it stays failed.
proof fn lemma_label_corners_none(adj: Seq<[usize; 2]>, corners: Seq<(usize, usize)>, ls: Seq<[(u32, usize); 2]>, k: int)
    requires
        0 < k <= corners.len(),
        label_corners(adj, corners, ls, k) is None,
    ensures
        label_corners(adj, corners, ls, corners.len() as int) is None,
    decreases corners.len() - k,
{
    if k < corners.len() {
        lemma_label_corners_none(adj, corners, ls, k + 1);
    }
}

} // verus!
