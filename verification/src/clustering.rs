//! Chart bookkeeping used while clustering the faces of a mesh into charts:
//! face edges, wedges at boundary vertices and chains of shared edges.
use vstd::prelude::*;
use vstd::multiset::Multiset;

verus! {

/// The `i`-th edge of a polygon: from its `i`-th corner to the next one,
/// wrapping around at the end.
pub open spec fn face_edge(f: Seq<usize>, i: int) -> [usize; 2] {
    [f[i], f[(i + 1) % (f.len() as int)]]
}

/// The edges of a polygon, in order, the last one closing the loop.
pub fn edges(f: &[usize]) -> (r: Vec<[usize; 2]>)
    ensures
        r@.len() == f@.len(),
        forall|i: int| 0 <= i < f@.len() ==> #[trigger] r@[i] == face_edge(f@, i),
{
    let n = f.len();
    let mut out: Vec<[usize; 2]> = Vec::new();
    let mut i: usize = 0;
    while i < n
        invariant
            n == f@.len(),
            i <= n,
            out@.len() == i,
            forall|k: int| 0 <= k < i ==> #[trigger] out@[k] == face_edge(f@, k),
        decreases n - i,
    {
        let j = if i + 1 == n { 0 } else { i + 1 };
        proof {
            if i + 1 == n {
                vstd::arithmetic::div_mod::lemma_mod_self_0(n as int);
            } else {
                vstd::arithmetic::div_mod::lemma_small_mod((i + 1) as nat, n as nat);
            }
        }
        assert(j as int == (i + 1) % (n as int));
        out.push([f[i], f[j]]);
        i = i + 1;
    }
    out
}

/// The wedge spanned by two wedges `[prev, next]` around the same vertex
/// that share an outer vertex, if they do.
pub open spec fn spec_merge_wedges(a: [usize; 2], b: [usize; 2]) -> Option<[usize; 2]> {
    if a[1] == b[0] {
        Some([a[0], b[1]])
    } else if a[0] == b[1] {
        Some([b[0], a[1]])
    } else if a[0] == b[0] {
        Some([a[1], b[1]])
    } else if a[1] == b[1] {
        Some([a[0], b[0]])
    } else {
        None
    }
}

/// Joins two wedges that share an outer vertex into one: end to start
/// (consistent winding) first, then start to start and end to end.
pub fn merge_wedges(a: [usize; 2], b: [usize; 2]) -> (r: Option<[usize; 2]>)
    ensures
        r == spec_merge_wedges(a, b),
{
    let a0 = a[0];
    let a1 = a[1];
    let b0 = b[0];
    let b1 = b[1];
    let v = if a1 == b0 {
        [a0, b1]
    } else if a0 == b1 {
        [b0, a1]
    } else if a0 == b0 {
        [a1, b1]
    } else if a1 == b1 {
        [a0, b0]
    } else {
        return None;
    };
    Some(v)
}

/// Whether two index pairs are equal.
pub fn same_pair(a: [usize; 2], b: [usize; 2]) -> (r: bool)
    ensures
        r == (a == b),
{
    let r = a[0] == b[0] && a[1] == b[1];
    proof {
        if r {
            assert(a =~= b);
        }
    }
    r
}

pub open spec fn reversed(w: [usize; 2]) -> [usize; 2] {
    [w[1], w[0]]
}

/// Whether the wedge `w` interacts with `curr`: it is the same wedge (in
/// either direction) or it can be joined with it.
pub open spec fn wedge_hit(w: [usize; 2], curr: [usize; 2]) -> bool {
    w == curr || w == reversed(curr) || spec_merge_wedges(w, curr) is Some
}

/// The first index in `i..n` whose wedge interacts with `curr`.
pub open spec fn first_hit(ws: Seq<[usize; 2]>, n: int, curr: [usize; 2], i: int) -> Option<int>
    decreases n - i,
{
    if i >= n {
        None
    } else if wedge_hit(ws[i], curr) {
        Some(i)
    } else {
        first_hit(ws, n, curr, i + 1)
    }
}

pub open spec fn swapped<A>(s: Seq<A>, i: int, j: int) -> Seq<A> {
    s.update(i, s[j]).update(j, s[i])
}

/// The outcome of adding wedge `curr` to the first `n` wedges of `ws`:
/// the rearranged wedges, how many of them are kept, and the wedge to add
/// after the kept ones (if any). A wedge equal to `curr` cancels with it;
/// a wedge that can be joined with `curr` is absorbed into it, and the
/// joined wedge is added in turn.
pub open spec fn spec_new_wedges(ws: Seq<[usize; 2]>, n: nat, curr: [usize; 2]) -> (Seq<[usize; 2]>, nat, Option<[usize; 2]>)
    decreases n,
{
    if n == 0 {
        (ws, 0, Some(curr))
    } else {
        match first_hit(ws, n as int, curr, 0) {
            None => (ws, n, Some(curr)),
            Some(i) => {
                let ws2 = swapped(ws, i, n - 1);
                if ws[i] == curr || ws[i] == reversed(curr) {
                    (ws2, (n - 1) as nat, None)
                } else {
                    spec_new_wedges(ws2, (n - 1) as nat, spec_merge_wedges(ws[i], curr).unwrap())
                }
            },
        }
    }
}

proof fn lemma_first_hit_range(ws: Seq<[usize; 2]>, n: int, curr: [usize; 2], i: int)
    requires
        0 <= i,
    ensures
        first_hit(ws, n, curr, i) matches Some(k) ==> i <= k < n && wedge_hit(ws[k], curr),
    decreases n - i,
{
    if i < n && !wedge_hit(ws[i], curr) {
        lemma_first_hit_range(ws, n, curr, i + 1);
    }
}

proof fn lemma_new_wedges_perm(ws: Seq<[usize; 2]>, n: nat, curr: [usize; 2])
    requires
        n <= ws.len(),
    ensures
        spec_new_wedges(ws, n, curr).0.to_multiset() == ws.to_multiset(),
        spec_new_wedges(ws, n, curr).0.len() == ws.len(),
        spec_new_wedges(ws, n, curr).1 <= n,
        forall|k: int| n <= k < ws.len() ==> #[trigger] spec_new_wedges(ws, n, curr).0[k] == ws[k],
    decreases n,
{
    broadcast use vstd::seq_lib::group_seq_properties;
    broadcast use vstd::multiset::group_multiset_axioms;
    if n > 0 {
        lemma_first_hit_range(ws, n as int, curr, 0);
        match first_hit(ws, n as int, curr, 0) {
            None => {},
            Some(i) => {
                let ws2 = swapped(ws, i, n - 1);
                lemma_swap_multiset(ws, i, n - 1);
                if !(ws[i] == curr || ws[i] == reversed(curr)) {
                    lemma_new_wedges_perm(ws2, (n - 1) as nat, spec_merge_wedges(ws[i], curr).unwrap());
                }
            },
        }
    }
}

proof fn lemma_first_hit_none(ws: Seq<[usize; 2]>, n: int, curr: [usize; 2], i: int)
    requires
        first_hit(ws, n, curr, i) is None,
    ensures
        forall|j: int| i <= j < n ==> !wedge_hit(#[trigger] ws[j], curr),
    decreases n - i,
{
    if i < n {
        lemma_first_hit_none(ws, n, curr, i + 1);
    }
}

/// What adding a wedge leaves: a wedge that comes back meets none of the
/// kept wedges (none equals it either way round, none can be joined with
/// it); when none comes back, a kept wedge cancelled it and fewer wedges
/// are kept than were given.
proof fn lemma_new_wedges_outcome(ws: Seq<[usize; 2]>, n: nat, curr: [usize; 2])
    requires
        n <= ws.len(),
    ensures
        match spec_new_wedges(ws, n, curr).2 {
            Some(w) => forall|j: int|
                0 <= j < spec_new_wedges(ws, n, curr).1 ==> !wedge_hit(#[trigger] spec_new_wedges(ws, n, curr).0[j], w),
            None => spec_new_wedges(ws, n, curr).1 < n,
        },
    decreases n,
{
    if n > 0 {
        lemma_first_hit_range(ws, n as int, curr, 0);
        match first_hit(ws, n as int, curr, 0) {
            None => {
                lemma_first_hit_none(ws, n as int, curr, 0);
            },
            Some(i) => {
                let ws2 = swapped(ws, i, n - 1);
                if !(ws[i] == curr || ws[i] == reversed(curr)) {
                    lemma_new_wedges_outcome(ws2, (n - 1) as nat, spec_merge_wedges(ws[i], curr).unwrap());
                }
            },
        }
    }
}

proof fn lemma_swap_multiset<A>(s: Seq<A>, i: int, j: int)
    requires
        0 <= i < s.len(),
        0 <= j < s.len(),
    ensures
        swapped(s, i, j).to_multiset() == s.to_multiset(),
{
    broadcast use vstd::seq_lib::group_seq_properties;
    broadcast use vstd::multiset::group_multiset_axioms;
    let s1 = s.update(i, s[j]);
    vstd::seq_lib::to_multiset_update(s, i, s[j]);
    vstd::seq_lib::to_multiset_update(s1, j, s[i]);
    assert(s1[j] == s[j] || i == j);
    if i == j {
        assert(swapped(s, i, j) =~= s);
    }
}

/// The first of the first `n` wedges that interacts with `curr`.
fn find_first_hit(wedges: &[[usize; 2]], n: usize, curr: [usize; 2]) -> (r: Option<usize>)
    requires
        n <= wedges@.len(),
    ensures
        r == (match first_hit(wedges@, n as int, curr, 0) {
            Some(k) => Some(k as usize),
            None => None::<usize>,
        }),
{
    let mut i: usize = 0;
    while i < n
        invariant
            n <= wedges@.len(),
            i <= n,
            first_hit(wedges@, n as int, curr, 0) == first_hit(wedges@, n as int, curr, i as int),
        decreases n - i,
    {
        let wedge = wedges[i];
        let rev = [curr[1], curr[0]];
        assert(rev == reversed(curr)) by {
            assert(rev =~= reversed(curr));
        }
        let hit = same_pair(wedge, curr) || same_pair(wedge, rev) || merge_wedges(wedge, curr).is_some();
        if hit {
            return Some(i);
        }
        i = i + 1;
    }
    None
}

/// Adds the wedge `curr` to the wedges around a vertex. Rearranges `wedges`
/// so that those to be deleted come last, and returns how many to keep and
/// the wedge (if any) to add after them.
pub fn new_wedges(wedges: &mut [[usize; 2]], curr: [usize; 2]) -> (r: (usize, Option<[usize; 2]>))
    ensures
        final(wedges)@ == spec_new_wedges(old(wedges)@, old(wedges)@.len(), curr).0,
        r.0 == spec_new_wedges(old(wedges)@, old(wedges)@.len(), curr).1,
        r.1 == spec_new_wedges(old(wedges)@, old(wedges)@.len(), curr).2,
        final(wedges)@.to_multiset() == old(wedges)@.to_multiset(),
        r.0 <= old(wedges)@.len(),
        match r.1 {
            Some(w) => forall|j: int| 0 <= j < r.0 ==> !wedge_hit(#[trigger] final(wedges)@[j], w),
            None => r.0 < old(wedges)@.len(),
        },
{
    let ghost target = spec_new_wedges(wedges@, wedges@.len() as nat, curr);
    proof {
        lemma_new_wedges_perm(wedges@, wedges@.len() as nat, curr);
        lemma_new_wedges_outcome(wedges@, wedges@.len() as nat, curr);
    }
    let mut cur = curr;
    let mut to_keep = wedges.len();
    loop
        invariant
            to_keep <= wedges@.len(),
            wedges@.len() == old(wedges)@.len(),
            spec_new_wedges(wedges@, to_keep as nat, cur) == target,
            target == spec_new_wedges(old(wedges)@, old(wedges)@.len(), curr),
            wedges@.to_multiset() == old(wedges)@.to_multiset(),
            match target.2 {
                Some(w) => forall|j: int| 0 <= j < target.1 ==> !wedge_hit(#[trigger] target.0[j], w),
                None => target.1 < old(wedges)@.len(),
            },
        decreases to_keep,
    {
        if to_keep == 0 {
            return (to_keep, Some(cur));
        }
        match find_first_hit(wedges, to_keep, cur) {
            None => {
                return (to_keep, Some(cur));
            },
            Some(i) => {
                proof {
                    lemma_first_hit_range(wedges@, to_keep as int, cur, 0);
                    lemma_swap_multiset(wedges@, i as int, to_keep - 1);
                }
                let ghost before = wedges@;
                let wedge = wedges[i];
                let rev = [cur[1], cur[0]];
                assert(rev == reversed(cur)) by {
                    assert(rev =~= reversed(cur));
                }
                let last = wedges[to_keep - 1];
                wedges[i] = last;
                wedges[to_keep - 1] = wedge;
                assert(wedges@ =~= swapped(before, i as int, to_keep - 1));
                if same_pair(wedge, cur) || same_pair(wedge, rev) {
                    return (to_keep - 1, None);
                }
                let w = merge_wedges(wedge, cur);
                cur = w.unwrap();
                to_keep = to_keep - 1;
            },
        }
    }
}


// ---------------------------------------------------------------------------
// Chains of edges shared between two charts
// ---------------------------------------------------------------------------

/// The consecutive pairs of a chain of vertices.
pub open spec fn chain_edges(c: Seq<usize>) -> Seq<[usize; 2]> {
    Seq::new((if c.len() == 0 { 0 } else { c.len() - 1 }) as nat, |i: int| [c[i], c[i + 1]])
}

/// The consecutive pairs of every chain, chain after chain.
pub open spec fn all_chain_edges(cs: Seq<Seq<usize>>) -> Seq<[usize; 2]>
    decreases cs.len(),
{
    if cs.len() == 0 {
        Seq::empty()
    } else {
        all_chain_edges(cs.drop_last()) + chain_edges(cs.last())
    }
}

/// Whether a chain starts or ends at `a` or at `b`.
pub open spec fn touches(vs: Seq<usize>, a: usize, b: usize) -> bool {
    vs[0] == a || vs[0] == b || vs.last() == a || vs.last() == b
}

/// The first chain from index `i` on that starts or ends at `a` or `b`.
pub open spec fn first_touching(cs: Seq<Seq<usize>>, a: usize, b: usize, i: int) -> Option<int>
    decreases cs.len() - i,
{
    if i < 0 || i >= cs.len() {
        None
    } else if touches(cs[i], a, b) {
        Some(i)
    } else {
        first_touching(cs, a, b, i + 1)
    }
}

proof fn lemma_first_touching_range(cs: Seq<Seq<usize>>, a: usize, b: usize, i: int)
    requires
        0 <= i,
    ensures
        first_touching(cs, a, b, i) matches Some(k) ==> i <= k < cs.len() && touches(cs[k], a, b),
        forall|k: int| i <= k < cs.len() && touches(cs[k], a, b) ==> first_touching(cs, a, b, i) is Some,
    decreases cs.len() - i,
{
    if i < cs.len() && !touches(cs[i], a, b) {
        lemma_first_touching_range(cs, a, b, i + 1);
    }
}

/// Adds edge `e` to chains `cs`: it extends the first chain that ends at
/// one of its vertices (turned around if needed so that it ends there), or
/// starts a new chain of its own.
pub open spec fn extend_one(cs: Seq<Seq<usize>>, e: [usize; 2]) -> Seq<Seq<usize>> {
    match first_touching(cs, e[0], e[1], 0) {
        None => cs.push(seq![e[0], e[1]]),
        Some(k) => {
            let v = if cs[k][0] == e[0] || cs[k][0] == e[1] { cs[k].reverse() } else { cs[k] };
            cs.update(k, v.push(if v.last() == e[0] { e[1] } else { e[0] }))
        },
    }
}

/// Adds the edges `es` one after the other.
pub open spec fn extend_all(cs: Seq<Seq<usize>>, es: Seq<[usize; 2]>) -> Seq<Seq<usize>>
    decreases es.len(),
{
    if es.len() == 0 {
        cs
    } else {
        extend_all(extend_one(cs, es[0]), es.drop_first())
    }
}

/// The corner that chains `vs` and `ovs` make where they meet, as
/// `[previous, shared, next]`, if they meet at an end.
pub open spec fn incident_triple(vs: Seq<usize>, ovs: Seq<usize>) -> Option<[usize; 3]> {
    let vs0 = vs[0];
    let vsl = vs.last();
    let vs2l = vs[vs.len() - 2];
    let ovsl = ovs.last();
    if vs0 == ovs[0] {
        Some([vs[1], vs0, ovs[1]])
    } else if vs0 == ovsl {
        Some([vs[1], vs0, ovs[ovs.len() - 2]])
    } else if vsl == ovs[0] {
        Some([vs2l, vsl, ovs[1]])
    } else if vsl == ovsl {
        Some([vs2l, vsl, ovs[ovs.len() - 2]])
    } else {
        None
    }
}

pub open spec fn opt_seq<A>(o: Option<A>) -> Seq<A> {
    match o {
        Some(a) => seq![a],
        None => Seq::empty(),
    }
}

/// The corners that chain `vs` makes with each of the chains `os`, in order.
pub open spec fn triples_with(vs: Seq<usize>, os: Seq<Seq<usize>>) -> Seq<[usize; 3]>
    decreases os.len(),
{
    if os.len() == 0 {
        Seq::empty()
    } else {
        triples_with(vs, os.drop_last()) + opt_seq(incident_triple(vs, os.last()))
    }
}

/// The corners that each of the chains `cs` makes with each of the chains `os`.
pub open spec fn all_triples(cs: Seq<Seq<usize>>, os: Seq<Seq<usize>>) -> Seq<[usize; 3]>
    decreases cs.len(),
{
    if cs.len() == 0 {
        Seq::empty()
    } else {
        all_triples(cs.drop_last(), os) + triples_with(cs.last(), os)
    }
}

/// Joins chain `b` onto chain `a`, whose last vertex is an end of `b`.
pub open spec fn join_chain(a: Seq<usize>, b: Seq<usize>) -> Seq<usize> {
    if a.last() == b[0] {
        a + b.skip(1)
    } else {
        a + b.reverse().skip(1)
    }
}

/// Joins chain `b` onto chain `a`, turning `a` around first when they meet
/// at the start of `a`.
pub open spec fn join_oriented(a: Seq<usize>, b: Seq<usize>) -> Seq<usize> {
    let a2 = if a[0] == b[0] || a[0] == b.last() { a.reverse() } else { a };
    join_chain(a2, b)
}

/// Removes entry `j` by moving the last entry into its place.
pub open spec fn swap_remove<A>(s: Seq<A>, j: int) -> Seq<A> {
    s.update(j, s.last()).drop_last()
}

/// Joins chains that meet at an end: for each chain `i` in turn, every
/// later chain `j` that shares an end with it is joined onto it and taken
/// out of the list.
pub open spec fn consolidated(cs: Seq<Seq<usize>>, i: int, j: int) -> Seq<Seq<usize>>
    decreases cs.len(), cs.len() - i, cs.len() - j,
{
    if i < 0 || i >= cs.len() {
        cs
    } else if j <= i || j >= cs.len() {
        consolidated(cs, i + 1, i + 2)
    } else if !(touches(cs[j], cs[i][0], cs[i].last())) {
        consolidated(cs, i, j + 1)
    } else {
        let joined = join_oriented(cs[i], cs[j]);
        consolidated(swap_remove(cs, j).update(i, joined), i, j)
    }
}

/// Moves the chains of `o` into `cs` one at a time: each joins the first
/// chain that shares an end with it, or is added as a chain of its own.
pub open spec fn absorb(cs: Seq<Seq<usize>>, o: Seq<Seq<usize>>) -> Seq<Seq<usize>>
    decreases o.len(),
{
    if o.len() == 0 {
        cs
    } else {
        let ovs = o[0];
        let next = match first_touching(cs, ovs[0], ovs.last(), 0) {
            None => cs.push(ovs),
            Some(k) => cs.update(k, join_oriented(cs[k], ovs)),
        };
        absorb(next, o.drop_first())
    }
}

/// The result of appending the chains `o` to the chains `cs`.
pub open spec fn spec_append(cs: Seq<Seq<usize>>, o: Seq<Seq<usize>>) -> Seq<Seq<usize>> {
    if cs.len() == 0 {
        o
    } else if o.len() == 0 {
        cs
    } else {
        consolidated(absorb(cs, o), 0, 1)
    }
}

/// Every chain has at least one edge.
pub open spec fn chains_wf(cs: Seq<Seq<usize>>) -> bool {
    forall|i: int| 0 <= i < cs.len() ==> #[trigger] cs[i].len() >= 2
}

/// The edges shared by two charts, kept as chains of vertices.
#[derive(Debug, Clone)]
pub struct EdgeSet {
    vert_sets: Vec<Vec<usize>>,
}

impl View for EdgeSet {
    type V = Seq<Seq<usize>>;

    closed spec fn view(&self) -> Seq<Seq<usize>> {
        self.vert_sets@.map_values(|v: Vec<usize>| v@)
    }
}

fn reverse_vec(v: &Vec<usize>) -> (r: Vec<usize>)
    ensures
        r@ == v@.reverse(),
{
    let n = v.len();
    let mut out: Vec<usize> = Vec::new();
    let mut i: usize = n;
    while i > 0
        invariant
            i <= n,
            n == v@.len(),
            out@ =~= v@.reverse().take((n - i) as int),
        decreases i,
    {
        i = i - 1;
        out.push(v[i]);
        assert(out@ =~= v@.reverse().take((n - i) as int));
    }
    out
}

/// Appends `b[from..]` to `a`.
fn push_from(a: &mut Vec<usize>, b: &Vec<usize>, from: usize)
    requires
        from <= b@.len(),
    ensures
        final(a)@ == old(a)@ + b@.skip(from as int),
{
    let mut k = from;
    while k < b.len()
        invariant
            from <= k <= b@.len(),
            a@ =~= old(a)@ + b@.subrange(from as int, k as int),
        decreases b@.len() - k,
    {
        a.push(b[k]);
        k = k + 1;
    }
    assert(b@.subrange(from as int, k as int) =~= b@.skip(from as int));
}

impl EdgeSet {
    pub fn new() -> (r: Self)
        ensures
            r@ == Seq::<Seq<usize>>::empty(),
    {
        let r = EdgeSet { vert_sets: Vec::new() };
        assert(r@ =~= Seq::<Seq<usize>>::empty());
        r
    }

    pub fn is_empty(&self) -> (r: bool)
        ensures
            r == (self@.len() == 0),
    {
        self.vert_sets.len() == 0
    }

    /// Every edge of every chain, as consecutive pairs of vertices.
    pub fn edges(&self) -> (r: Vec<[usize; 2]>)
        ensures
            r@ == all_chain_edges(self@),
    {
        let mut out: Vec<[usize; 2]> = Vec::new();
        let mut i: usize = 0;
        let n = self.vert_sets.len();
        while i < n
            invariant
                n == self@.len(),
                i <= n,
                out@ == all_chain_edges(self@.take(i as int)),
            decreases n - i,
        {
            let vs = &self.vert_sets[i];
            assert(vs@ == self@[i as int]);
            let ghost before = out@;
            let len = vs.len();
            if len >= 2 {
                let mut k: usize = 1;
                while k < len
                    invariant
                        i < n,
                        n == self@.len(),
                        vs@ == self@[i as int],
                        len == vs@.len(),
                        1 <= k <= len,
                        out@ =~= before + chain_edges(vs@).take(k - 1),
                    decreases len - k,
                {
                    out.push([vs[k - 1], vs[k]]);
                    k = k + 1;
                }
                assert(chain_edges(vs@).take(k - 1) =~= chain_edges(vs@));
            } else {
                assert(chain_edges(vs@) =~= Seq::<[usize; 2]>::empty());
                assert(out@ =~= before + chain_edges(vs@));
            }
            assert(self@.take(i + 1).drop_last() =~= self@.take(i as int));
            i = i + 1;
        }
        assert(self@.take(n as int) =~= self@);
        out
    }

    /// The corners where the chains of `self` meet the chains of `o`, as
    /// `[previous, shared, next]`: the middle entry is always the vertex the
    /// two chains share, also where they meet at their last vertices.
    pub fn shared_incident_edges(&self, o: &Self) -> (r: Vec<[usize; 3]>)
        requires
            chains_wf(self@),
            chains_wf(o@),
        ensures
            r@ == all_triples(self@, o@),
    {
        let mut out: Vec<[usize; 3]> = Vec::new();
        let n = self.vert_sets.len();
        let m = o.vert_sets.len();
        let mut i: usize = 0;
        while i < n
            invariant
                n == self@.len(),
                m == o@.len(),
                chains_wf(self@),
                chains_wf(o@),
                i <= n,
                out@ == all_triples(self@.take(i as int), o@),
            decreases n - i,
        {
            let vs = &self.vert_sets[i];
            assert(vs@ == self@[i as int]);
            assert(vs@.len() >= 2);
            let vs0 = vs[0];
            let vsl = vs[vs.len() - 1];
            let vs2l = vs[vs.len() - 2];
            let ghost before = out@;
            let mut j: usize = 0;
            while j < m
                invariant
                    m == o@.len(),
                    chains_wf(o@),
                    vs@ == self@[i as int],
                    vs@.len() >= 2,
                    vs0 == vs@[0],
                    vsl == vs@.last(),
                    vs2l == vs@[vs@.len() - 2],
                    j <= m,
                    out@ == before + triples_with(vs@, o@.take(j as int)),
                decreases m - j,
            {
                let ovs = &o.vert_sets[j];
                assert(ovs@ == o@[j as int]);
                assert(ovs@.len() >= 2);
                let ovsl = ovs[ovs.len() - 1];
                let triple = if vs0 == ovs[0] {
                    Some([vs[1], vs0, ovs[1]])
                } else if vs0 == ovsl {
                    Some([vs[1], vs0, ovs[ovs.len() - 2]])
                } else if vsl == ovs[0] {
                    Some([vs2l, vsl, ovs[1]])
                } else if vsl == ovsl {
                    Some([vs2l, vsl, ovs[ovs.len() - 2]])
                } else {
                    None
                };
                assert(triple == incident_triple(vs@, ovs@));
                if let Some(t) = triple {
                    out.push(t);
                }
                assert(o@.take(j + 1).drop_last() =~= o@.take(j as int));
                assert(out@ =~= before + triples_with(vs@, o@.take(j + 1)));
                j = j + 1;
            }
            assert(o@.take(m as int) =~= o@);
            assert(self@.take(i + 1).drop_last() =~= self@.take(i as int));
            i = i + 1;
        }
        assert(self@.take(n as int) =~= self@);
        out
    }

    /// Joins chain `ovs` onto chain `verts` (turning `verts` around first
    /// when they meet at its start); the two must share an end.
    fn join_into(verts: Vec<usize>, ovs: &Vec<usize>) -> (r: Vec<usize>)
        requires
            verts@.len() >= 2,
            ovs@.len() >= 2,
            touches(ovs@, verts@[0], verts@.last()),
        ensures
            r@ == join_oriented(verts@, ovs@),
            r@.len() >= 2,
    {
        let mut verts = verts;
        let ghost a = verts@;
        let o0 = ovs[0];
        let ol = ovs[ovs.len() - 1];
        if verts[0] == o0 || verts[0] == ol {
            verts = reverse_vec(&verts);
        }
        let ghost a2 = verts@;
        assert(a2 == if a[0] == ovs@[0] || a[0] == ovs@.last() { a.reverse() } else { a });
        let last_vert = verts[verts.len() - 1];
        if last_vert == o0 {
            push_from(&mut verts, ovs, 1);
        } else {
            let rev = reverse_vec(ovs);
            push_from(&mut verts, &rev, 1);
        }
        verts
    }

    /// Joins chains that meet at an end, so that no two chains share one.
    fn consolidate(&mut self)
        requires
            chains_wf(old(self)@),
        ensures
            chains_wf(final(self)@),
            final(self)@ == consolidated(old(self)@, 0, 1),
    {
        let ghost target = consolidated(self@, 0, 1);
        let mut i: usize = 0;
        while i < self.vert_sets.len()
            invariant
                chains_wf(self@),
                consolidated(self@, i as int, i + 1) == target,
            decreases self@.len() - i,
        {
            let mut j: usize = i + 1;
            let ghost len0 = self@.len();
            while j < self.vert_sets.len()
                invariant
                    self@.len() <= len0,
                    i < self@.len(),
                    i < j,
                    chains_wf(self@),
                    consolidated(self@, i as int, j as int) == target,
                decreases self@.len() - j,
            {
                let ghost cs = self@;
                let vsi = &self.vert_sets[i];
                assert(vsi@ == cs[i as int]);
                let vsi0 = vsi[0];
                let vsil = vsi[vsi.len() - 1];
                let vsj = &self.vert_sets[j];
                assert(vsj@ == cs[j as int]);
                assert(vsj@.len() >= 2);
                let vsj0 = vsj[0];
                let vsjl = vsj[vsj.len() - 1];
                let first_match = vsi0 == vsj0 || vsi0 == vsjl;
                let last_match = vsil == vsj0 || vsil == vsjl;
                if !(first_match || last_match) {
                    assert(!touches(cs[j as int], cs[i as int][0], cs[i as int].last()));
                    j = j + 1;
                } else {
                    assert(touches(cs[j as int], cs[i as int][0], cs[i as int].last()));
                    let removed = self.vert_sets.swap_remove(j);
                    assert(self@ =~= swap_remove(cs, j as int));
                    let mut verts: Vec<usize> = Vec::new();
                    self.vert_sets.set_and_swap(i, &mut verts);
                    assert(verts@ == cs[i as int]);
                    assert(removed@ == cs[j as int]);
                    let joined = Self::join_into(verts, &removed);
                    self.vert_sets.set(i, joined);
                    assert(self@ =~= swap_remove(cs, j as int).update(i as int, join_oriented(cs[i as int], cs[j as int])));
                    assert(chains_wf(self@)) by {
                        assert forall|t: int| 0 <= t < self@.len() implies #[trigger] self@[t].len() >= 2 by {
                            if t != i as int {
                                if t == j as int {
                                    assert(self@[t] == cs.last());
                                } else {
                                    assert(self@[t] == cs[t]);
                                }
                            }
                        }
                    }
                }
            }
            i = i + 1;
        }
    }

    /// Moves every chain of `o` into `self`: each joins the first chain of
    /// `self` it shares an end with, or is added as a chain of its own;
    /// chains that now meet are then joined together.
    pub fn append(&mut self, o: &mut Self)
        requires
            chains_wf(old(self)@),
            chains_wf(old(o)@),
        ensures
            chains_wf(final(self)@),
            final(self)@ == spec_append(old(self)@, old(o)@),
            final(o)@ == Seq::<Seq<usize>>::empty(),
            chains_edge_set(final(self)@) == chains_edge_set(old(self)@).add(chains_edge_set(old(o)@)),
    {
        proof {
            lemma_append_edges(self@, o@);
        }
        if self.vert_sets.len() == 0 {
            self.vert_sets.append(&mut o.vert_sets);
            assert(self@ =~= old(o)@);
            assert(o@ =~= Seq::<Seq<usize>>::empty());
            return;
        }
        if o.vert_sets.len() == 0 {
            assert(o@ =~= Seq::<Seq<usize>>::empty());
            return;
        }
        let ghost orig = o@;
        let n = o.vert_sets.len();
        let mut k: usize = 0;
        assert(orig.skip(0) =~= orig);
        while k < n
            invariant
                n == o.vert_sets@.len(),
                n == orig.len(),
                k <= n,
                chains_wf(self@),
                chains_wf(orig),
                forall|t: int| k <= t < n ==> #[trigger] o.vert_sets@[t]@ == orig[t],
                absorb(old(self)@, orig) == absorb(self@, orig.skip(k as int)),
            decreases n - k,
        {
            let mut ovs: Vec<usize> = Vec::new();
            o.vert_sets.set_and_swap(k, &mut ovs);
            assert(ovs@ == orig[k as int]);
            assert(ovs@.len() >= 2);
            let ghost before = self@;
            let o0 = ovs[0];
            let ol = ovs[ovs.len() - 1];
            let nsets = self.vert_sets.len();
            assert(before.len() == nsets);
            match self.position_touching(o0, ol) {
                None => {
                    self.vert_sets.push(ovs);
                    assert(self@ =~= before.push(orig[k as int]));
                },
                Some(p) => {
                    proof {
                        lemma_first_touching_range(before, o0, ol, 0);
                        let pp = first_touching(before, o0, ol, 0).unwrap();
                        assert(pp == p);
                    }
                    let mut verts: Vec<usize> = Vec::new();
                    self.vert_sets.set_and_swap(p, &mut verts);
                    assert(verts@ == before[p as int]);
                    let joined = Self::join_into(verts, &ovs);
                    self.vert_sets.set(p, joined);
                    assert(self@ =~= before.update(p as int, join_oriented(before[p as int], orig[k as int])));
                },
            }
            assert(orig.skip(k as int)[0] == orig[k as int]);
            assert(orig.skip(k as int).drop_first() =~= orig.skip(k + 1));
            assert(chains_wf(self@)) by {
                assert forall|t: int| 0 <= t < self@.len() implies #[trigger] self@[t].len() >= 2 by {
                    if t < before.len() {
                        assert(self@[t] == before[t] || self@[t].len() >= 2);
                    }
                }
            }
            k = k + 1;
        }
        assert(orig.skip(n as int) =~= Seq::<Seq<usize>>::empty());
        o.vert_sets.clear();
        assert(o@ =~= Seq::<Seq<usize>>::empty());
        self.consolidate();
    }

    /// The first chain that starts or ends at `a` or at `b`.
    fn position_touching(&self, a: usize, b: usize) -> (r: Option<usize>)
        requires
            chains_wf(self@),
        ensures
            r == (match first_touching(self@, a, b, 0) {
                Some(k) => Some(k as usize),
                None => None::<usize>,
            }),
    {
        let n = self.vert_sets.len();
        let mut i: usize = 0;
        while i < n
            invariant
                n == self@.len(),
                chains_wf(self@),
                i <= n,
                first_touching(self@, a, b, 0) == first_touching(self@, a, b, i as int),
            decreases n - i,
        {
            let vs = &self.vert_sets[i];
            assert(vs@ == self@[i as int]);
            assert(vs@.len() >= 2);
            let vs0 = vs[0];
            let vsl = vs[vs.len() - 1];
            if vs0 == a || vs0 == b || vsl == a || vsl == b {
                return Some(i);
            }
            i = i + 1;
        }
        None
    }

    /// Adds edges one at a time: each extends the first chain that ends at
    /// one of its vertices, or starts a chain of its own.
    pub fn extend(&mut self, es: &[[usize; 2]])
        requires
            chains_wf(old(self)@),
        ensures
            chains_wf(final(self)@),
            final(self)@ == extend_all(old(self)@, es@),
            chains_edge_set(final(self)@) == chains_edge_set(old(self)@).add(edge_list_set(es@)),
    {
        proof {
            lemma_extend_edges(self@, es@);
        }
        let mut idx: usize = 0;
        assert(es@.skip(0) =~= es@);
        while idx < es.len()
            invariant
                idx <= es@.len(),
                chains_wf(self@),
                extend_all(old(self)@, es@) == extend_all(self@, es@.skip(idx as int)),
            decreases es@.len() - idx,
        {
            let e = es[idx];
            let e0 = e[0];
            let e1 = e[1];
            let ghost before = self@;
            let nsets = self.vert_sets.len();
            assert(before.len() == nsets);
            match self.position_touching(e0, e1) {
                None => {
                    let mut v: Vec<usize> = Vec::new();
                    v.push(e0);
                    v.push(e1);
                    assert(v@ =~= seq![e0, e1]);
                    self.vert_sets.push(v);
                    assert(self@ =~= before.push(seq![e0, e1]));
                },
                Some(k) => {
                    proof {
                        lemma_first_touching_range(before, e0, e1, 0);
                        let kk = first_touching(before, e0, e1, 0).unwrap();
                        assert(kk == k);
                        assert(e0 == e[0] && e1 == e[1]);
                    }
                    let mut verts: Vec<usize> = Vec::new();
                    self.vert_sets.set_and_swap(k, &mut verts);
                    assert(verts@ == before[k as int]);
                    let ghost ck = before[k as int];
                    assert(ck.len() >= 2);
                    if verts[0] == e0 || verts[0] == e1 {
                        verts = reverse_vec(&verts);
                    }
                    let ghost v = if ck[0] == e0 || ck[0] == e1 { ck.reverse() } else { ck };
                    assert(verts@ == v);
                    let last_vert = verts[verts.len() - 1];
                    verts.push(if last_vert == e0 { e1 } else { e0 });
                    assert(verts@ == v.push(if v.last() == e[0] { e[1] } else { e[0] }));
                    self.vert_sets.set(k, verts);
                    assert(first_touching(before, e[0], e[1], 0) == Some(k as int));
                    assert(self@ =~= before.update(k as int, v.push(if v.last() == e[0] { e[1] } else { e[0] })));
                },
            }
            assert(self@ == extend_one(before, e));
            assert(es@.skip(idx as int) =~= seq![e] + es@.skip(idx + 1));
            assert(es@.skip(idx as int).drop_first() =~= es@.skip(idx + 1));
            idx = idx + 1;
        }
        assert(es@.skip(idx as int) =~= Seq::<[usize; 2]>::empty());
    }
}

// ---------------------------------------------------------------------------
// Options of the clustering
// ---------------------------------------------------------------------------

/// Which eigenvalue of a chart's quadric measures how far it is from flat.
#[derive(Debug, Clone, Copy, PartialEq, Eq)]
pub enum Eigenvalue {
    Zero,
    One,
    Two,
}

impl Eigenvalue {
    /// The name this kind is written with.
    pub open spec fn name(self) -> Seq<char> {
        match self {
            Eigenvalue::Zero => "zero"@,
            Eigenvalue::One => "one"@,
            Eigenvalue::Two => "two"@,
        }
    }

    /// The name this kind is written with.
    pub fn to_string(&self) -> (r: String)
        ensures
            r@ == self.name(),
    {
        match self {
            Eigenvalue::Zero => "zero".to_owned(),
            Eigenvalue::One => "one".to_owned(),
            Eigenvalue::Two => "two".to_owned(),
        }
    }
}

impl Eigenvalue {
    /// The index this choice picks.
    pub open spec fn index(self) -> int {
        match self {
            Eigenvalue::Zero => 0,
            Eigenvalue::One => 1,
            Eigenvalue::Two => 2,
        }
    }

    /// Picks the chosen one of three (sorted) eigenvalues.
    pub fn apply<F: Copy>(self, e: [F; 3]) -> (r: F)
        ensures
            r == e[self.index()],
    {
        match self {
            Eigenvalue::Zero => e[0],
            Eigenvalue::One => e[1],
            Eigenvalue::Two => e[2],
        }
    }
}

/// What order to prefer when simplifying. It is assumed that length is
/// final (has no eps).
#[derive(Debug, Clone, Copy, PartialEq, Eq)]
pub enum OrderingKind {
    GeomColorShape,
    ColorGeomShape,
    GeomShapeColor,
}

impl OrderingKind {
    /// The name this kind is written with.
    pub open spec fn name(self) -> Seq<char> {
        match self {
            OrderingKind::GeomColorShape => "geom-color-shape"@,
            OrderingKind::ColorGeomShape => "color-geom-shape"@,
            OrderingKind::GeomShapeColor => "geom-shape-color"@,
        }
    }

    /// The name this kind is written with.
    pub fn to_string(&self) -> (r: String)
        ensures
            r@ == self.name(),
    {
        match self {
            OrderingKind::GeomColorShape => "geom-color-shape".to_owned(),
            OrderingKind::ColorGeomShape => "color-geom-shape".to_owned(),
            OrderingKind::GeomShapeColor => "geom-shape-color".to_owned(),
        }
    }
}

impl OrderingKind {
    /// The tolerance of the first criterion: geometric unless color comes first.
    pub fn first_eps<F: Copy>(&self, geom_eps: F, color_eps: F) -> (r: F)
        ensures
            r == (match *self {
                OrderingKind::ColorGeomShape => color_eps,
                _ => geom_eps,
            }),
    {
        match self {
            OrderingKind::GeomColorShape | OrderingKind::GeomShapeColor => geom_eps,
            OrderingKind::ColorGeomShape => color_eps,
        }
    }
}

/// What metric to use to evaluate the quality of output cluster shapes.
#[derive(Debug, Clone, Copy, PartialEq, Eq)]
pub enum ShapeMetric {
    /// Just the boundary that is lost between each cluster
    SharedBoundaryLength,
    /// The angle at each boundary point in the cluster's deviation from 180 degrees.
    /// (Prefer straight edges)
    AngleDeviation,
    /// The total boundary length of each cluster.
    BoundaryLength,
    /// Measures convexity of a shape by the amount of left turn of each edge.
    Convexity,
    Area,
    /// Maximum euclidean of any point in this chart
    MaxEuclideanDist,
    /// Maximum manhattan distance of any point in this chart
    MaxManhattanDist,
    NoMetric,
}

impl ShapeMetric {
    /// The name this kind is written with.
    pub open spec fn name(self) -> Seq<char> {
        match self {
            ShapeMetric::BoundaryLength => "boundary-length"@,
            ShapeMetric::SharedBoundaryLength => "shared-boundary-length"@,
            ShapeMetric::AngleDeviation => "angle-deviation"@,
            ShapeMetric::Convexity => "convexity"@,
            ShapeMetric::Area => "area"@,
            ShapeMetric::MaxEuclideanDist => "max-euclidean-dist"@,
            ShapeMetric::MaxManhattanDist => "max-manhattan-dist"@,
            ShapeMetric::NoMetric => "none"@,
        }
    }

    /// The name this kind is written with.
    pub fn to_string(&self) -> (r: String)
        ensures
            r@ == self.name(),
    {
        match self {
            ShapeMetric::BoundaryLength => "boundary-length".to_owned(),
            ShapeMetric::SharedBoundaryLength => "shared-boundary-length".to_owned(),
            ShapeMetric::AngleDeviation => "angle-deviation".to_owned(),
            ShapeMetric::Convexity => "convexity".to_owned(),
            ShapeMetric::Area => "area".to_owned(),
            ShapeMetric::MaxEuclideanDist => "max-euclidean-dist".to_owned(),
            ShapeMetric::MaxManhattanDist => "max-manhattan-dist".to_owned(),
            ShapeMetric::NoMetric => "none".to_owned(),
        }
    }
}

// ---------------------------------------------------------------------------
// Chart numbering and adjacency
// ---------------------------------------------------------------------------

/// Numbers the charts `0, 1, ...` in the order they first appear among
/// the faces. Returns the new number of each face's chart, and for each
/// new number the chart it stands for.
pub fn renumber_charts(charts: &Vec<usize>) -> (r: (Vec<usize>, Vec<usize>))
    ensures
        r.1@ == crate::manifold::first_occurrences(charts@),
        r.0@.len() == charts@.len(),
        forall|i: int| 0 <= i < charts@.len() ==> (#[trigger] r.0@[i] as int) < r.1@.len(),
        forall|i: int| 0 <= i < charts@.len() ==> #[trigger] r.1@[r.0@[i] as int] == charts@[i],
{
    let n = charts.len();
    let mut inv: Vec<usize> = Vec::new();
    let mut out: Vec<usize> = Vec::new();
    let mut i: usize = 0;
    assert(charts@.take(0) =~= Seq::<usize>::empty());
    while i < n
        invariant
            n == charts@.len(),
            i <= n,
            inv@ == crate::manifold::first_occurrences(charts@.take(i as int)),
            out@.len() == i,
            forall|q: int| 0 <= q < i ==> (#[trigger] out@[q] as int) < inv@.len() && inv@[out@[q] as int] == charts@[q],
        decreases n - i,
    {
        let c = charts[i];
        assert(charts@.take(i + 1).drop_last() =~= charts@.take(i as int));
        assert(charts@.take(i + 1).last() == c);
        let ghost prev = inv@;
        match position_of_value(&inv, c) {
            Some(p) => {
                out.push(p);
            },
            None => {
                out.push(inv.len());
                inv.push(c);
                assert forall|q: int| 0 <= q < i implies (#[trigger] out@[q] as int) < inv@.len() && inv@[out@[q] as int]
                    == charts@[q] by {
                    assert(inv@[out@[q] as int] == prev[out@[q] as int]);
                }
            },
        }
        i = i + 1;
    }
    assert(charts@.take(n as int) =~= charts@);
    (out, inv)
}

/// The position of `x` in `s`, if it occurs.
fn position_of_value(s: &Vec<usize>, x: usize) -> (r: Option<usize>)
    ensures
        match r {
            Some(p) => p < s@.len() && s@[p as int] == x,
            None => !s@.contains(x),
        },
{
    let mut i: usize = 0;
    while i < s.len()
        invariant
            i <= s@.len(),
            forall|t: int| 0 <= t < i ==> s@[t] != x,
        decreases s@.len() - i,
    {
        if s[i] == x {
            return Some(i);
        }
        i = i + 1;
    }
    None
}

/// Adds `v` to `dst` unless it is already there.
pub fn push_uniq(dst: &mut Vec<usize>, v: usize)
    ensures
        final(dst)@ == if old(dst)@.contains(v) { old(dst)@ } else { old(dst)@.push(v) },
{
    let mut i: usize = 0;
    while i < dst.len()
        invariant
            i <= dst@.len(),
            dst@ == old(dst)@,
            forall|t: int| 0 <= t < i ==> dst@[t] != v,
        decreases dst@.len() - i,
    {
        if dst[i] == v {
            assert(dst@[i as int] == v);
            return;
        }
        i = i + 1;
    }
    dst.push(v);
}

// ---------------------------------------------------------------------------
// The edges a set of chains holds
// ---------------------------------------------------------------------------

/// An edge without its direction: its two vertices, smaller first.
pub open spec fn undirected(a: usize, b: usize) -> (usize, usize) {
    if a <= b { (a, b) } else { (b, a) }
}

/// The undirected edges between consecutive vertices of a chain.
pub open spec fn chain_steps(c: Seq<usize>) -> Seq<(usize, usize)> {
    Seq::new((if c.len() == 0 { 0 } else { c.len() - 1 }) as nat, |i: int| undirected(c[i], c[i + 1]))
}

/// The undirected edges of all chains, counted with multiplicity.
pub open spec fn chains_edge_set(cs: Seq<Seq<usize>>) -> Multiset<(usize, usize)>
    decreases cs.len(),
{
    if cs.len() == 0 {
        Multiset::empty()
    } else {
        chains_edge_set(cs.drop_last()).add(chain_steps(cs.last()).to_multiset())
    }
}

/// The undirected edges of a list of edges, counted with multiplicity.
pub open spec fn edge_list_set(es: Seq<[usize; 2]>) -> Multiset<(usize, usize)> {
    es.map_values(|e: [usize; 2]| undirected(e[0], e[1])).to_multiset()
}

proof fn lemma_steps_reverse(c: Seq<usize>)
    ensures
        chain_steps(c.reverse()).to_multiset() == chain_steps(c).to_multiset(),
{
    let n = c.len();
    if n > 0 {
        assert(chain_steps(c.reverse()) =~= chain_steps(c).reverse()) by {
            assert forall|i: int| 0 <= i < n - 1 implies chain_steps(c.reverse())[i] == chain_steps(c).reverse()[i] by {
                assert(c.reverse()[i] == c[n - 1 - i]);
                assert(c.reverse()[i + 1] == c[n - 2 - i]);
            }
        }
        chain_steps(c).lemma_reverse_to_multiset();
    } else {
        assert(chain_steps(c.reverse()) =~= chain_steps(c));
    }
}

proof fn lemma_steps_push(c: Seq<usize>, x: usize)
    requires
        c.len() >= 1,
    ensures
        chain_steps(c.push(x)) == chain_steps(c).push(undirected(c.last(), x)),
        chain_steps(c.push(x)).to_multiset() == chain_steps(c).to_multiset().insert(undirected(c.last(), x)),
{
    assert(chain_steps(c.push(x)) =~= chain_steps(c).push(undirected(c.last(), x)));
    vstd::seq_lib::to_multiset_build(chain_steps(c), undirected(c.last(), x));
}

proof fn lemma_steps_concat(a: Seq<usize>, b: Seq<usize>)
    requires
        a.len() >= 1,
        b.len() >= 1,
        a.last() == b[0],
    ensures
        chain_steps(a + b.skip(1)).to_multiset() == chain_steps(a).to_multiset().add(chain_steps(b).to_multiset()),
{
    let j = a + b.skip(1);
    assert(chain_steps(j) =~= chain_steps(a) + chain_steps(b)) by {
        assert forall|i: int| 0 <= i < chain_steps(j).len() implies chain_steps(j)[i] == (chain_steps(a) + chain_steps(b))[i] by {
            if i < a.len() - 1 {
            } else if i == a.len() - 1 {
                assert(j[i + 1] == b[1]);
            } else {
                let q = i - (a.len() - 1);
                assert(j[i] == b[q]);
                assert(j[i + 1] == b[q + 1]);
            }
        }
    }
    vstd::seq_lib::lemma_multiset_commutative(chain_steps(a), chain_steps(b));
}

proof fn lemma_join_chain_edges(a: Seq<usize>, b: Seq<usize>)
    requires
        a.len() >= 2,
        b.len() >= 2,
        a.last() == b[0] || a.last() == b.last(),
    ensures
        chain_steps(join_chain(a, b)).to_multiset() == chain_steps(a).to_multiset().add(chain_steps(b).to_multiset()),
        join_chain(a, b).len() == a.len() + b.len() - 1,
{
    if a.last() == b[0] {
        lemma_steps_concat(a, b);
    } else {
        let br = b.reverse();
        assert(br[0] == b.last());
        lemma_steps_concat(a, br);
        lemma_steps_reverse(b);
    }
}

proof fn lemma_join_oriented_edges(a: Seq<usize>, b: Seq<usize>)
    requires
        a.len() >= 2,
        b.len() >= 2,
        touches(b, a[0], a.last()),
    ensures
        chain_steps(join_oriented(a, b)).to_multiset() == chain_steps(a).to_multiset().add(chain_steps(b).to_multiset()),
        join_oriented(a, b).len() >= 2,
{
    let a2 = if a[0] == b[0] || a[0] == b.last() { a.reverse() } else { a };
    if a[0] == b[0] || a[0] == b.last() {
        lemma_steps_reverse(a);
        assert(a2.last() == a[0]);
    }
    lemma_join_chain_edges(a2, b);
}

proof fn lemma_touching_swap(a: Seq<usize>, b: Seq<usize>)
    requires
        touches(a, b[0], b.last()),
    ensures
        touches(b, a[0], a.last()),
{
}

proof fn lemma_ms_swap<V>(a: Multiset<V>, b: Multiset<V>, c: Multiset<V>)
    ensures
        a.add(b).add(c) == a.add(c).add(b),
{
    broadcast use vstd::multiset::group_multiset_axioms;
    assert forall|v: V| #[trigger] a.add(b).add(c).count(v) == a.add(c).add(b).count(v) by {
        assert(a.add(b).add(c).count(v) == a.add(b).count(v) + c.count(v));
        assert(a.add(c).add(b).count(v) == a.add(c).count(v) + b.count(v));
        assert(a.add(b).count(v) == a.count(v) + b.count(v));
        assert(a.add(c).count(v) == a.count(v) + c.count(v));
    }
    assert(a.add(b).add(c) =~= a.add(c).add(b));
}

proof fn lemma_ms_cancel<V>(a: Multiset<V>, b: Multiset<V>, c: Multiset<V>)
    requires
        a.add(c) == b.add(c),
    ensures
        a == b,
{
    broadcast use vstd::multiset::group_multiset_axioms;
    assert forall|v: V| #[trigger] a.count(v) == b.count(v) by {
        assert(a.add(c).count(v) == a.count(v) + c.count(v));
        assert(b.add(c).count(v) == b.count(v) + c.count(v));
    }
    assert(a =~= b);
}

proof fn lemma_ms_insert<V>(a: Multiset<V>, x: V)
    ensures
        a.insert(x) == a.add(Multiset::singleton(x)),
{
    broadcast use vstd::multiset::group_multiset_axioms;
    assert forall|v: V| #[trigger] a.insert(x).count(v) == a.add(Multiset::singleton(x)).count(v) by {
        if v == x {
        } else {
        }
    }
    assert(a.insert(x) =~= a.add(Multiset::singleton(x)));
}

proof fn lemma_edge_set_update(cs: Seq<Seq<usize>>, k: int, c: Seq<usize>)
    requires
        0 <= k < cs.len(),
    ensures
        chains_edge_set(cs.update(k, c)).add(chain_steps(cs[k]).to_multiset()) == chains_edge_set(cs).add(
            chain_steps(c).to_multiset(),
        ),
    decreases cs.len(),
{
    broadcast use vstd::multiset::group_multiset_axioms;
    broadcast use vstd::seq_lib::group_to_multiset_ensures;
    let u = cs.update(k, c);
    if k == cs.len() - 1 {
        assert(u.drop_last() =~= cs.drop_last());
        assert(u.last() == c);
        assert(chains_edge_set(u) == chains_edge_set(cs.drop_last()).add(chain_steps(c).to_multiset()));
        assert(chains_edge_set(cs) == chains_edge_set(cs.drop_last()).add(chain_steps(cs[k]).to_multiset()));
        lemma_ms_swap(chains_edge_set(cs.drop_last()), chain_steps(c).to_multiset(), chain_steps(cs[k]).to_multiset());
    } else {
        lemma_edge_set_update(cs.drop_last(), k, c);
        assert(u.drop_last() =~= cs.drop_last().update(k, c));
        assert(u.last() == cs.last());
        assert(chains_edge_set(u) == chains_edge_set(cs.drop_last().update(k, c)).add(chain_steps(cs.last()).to_multiset()));
        assert(chains_edge_set(cs) == chains_edge_set(cs.drop_last()).add(chain_steps(cs.last()).to_multiset()));
        assert(cs.drop_last()[k] == cs[k]);
        let a = chains_edge_set(cs.drop_last().update(k, c));
        let l = chain_steps(cs.last()).to_multiset();
        let ck = chain_steps(cs[k]).to_multiset();
        let cc = chain_steps(c).to_multiset();
        lemma_ms_swap(a, l, ck);
        lemma_ms_swap(chains_edge_set(cs.drop_last()), cc, l);
        assert(a.add(ck) == chains_edge_set(cs.drop_last()).add(cc));
    }
    assert(chains_edge_set(u).add(chain_steps(cs[k]).to_multiset()) =~= chains_edge_set(cs).add(
        chain_steps(c).to_multiset(),
    ));
}

proof fn lemma_edge_set_push(cs: Seq<Seq<usize>>, c: Seq<usize>)
    ensures
        chains_edge_set(cs.push(c)) == chains_edge_set(cs).add(chain_steps(c).to_multiset()),
{
    broadcast use vstd::multiset::group_multiset_axioms;
    broadcast use vstd::seq_lib::group_to_multiset_ensures;
    assert(cs.push(c).drop_last() =~= cs);
}

proof fn lemma_edge_set_first(cs: Seq<Seq<usize>>)
    requires
        cs.len() > 0,
    ensures
        chains_edge_set(cs) == chain_steps(cs[0]).to_multiset().add(chains_edge_set(cs.drop_first())),
    decreases cs.len(),
{
    broadcast use vstd::multiset::group_multiset_axioms;
    broadcast use vstd::seq_lib::group_to_multiset_ensures;
    if cs.len() == 1 {
        assert(cs.drop_last() =~= Seq::<Seq<usize>>::empty());
        assert(cs.drop_first() =~= Seq::<Seq<usize>>::empty());
        assert(chains_edge_set(cs) =~= chain_steps(cs[0]).to_multiset().add(chains_edge_set(cs.drop_first())));
    } else {
        lemma_edge_set_first(cs.drop_last());
        assert(cs.drop_last().drop_first() =~= cs.drop_first().drop_last());
        assert(cs.drop_first().last() == cs.last());
        assert(chains_edge_set(cs) =~= chain_steps(cs[0]).to_multiset().add(chains_edge_set(cs.drop_first())));
    }
}

proof fn lemma_edge_set_swap_remove(cs: Seq<Seq<usize>>, j: int)
    requires
        0 <= j < cs.len(),
    ensures
        chains_edge_set(swap_remove(cs, j)).add(chain_steps(cs[j]).to_multiset()) == chains_edge_set(cs),
{
    broadcast use vstd::multiset::group_multiset_axioms;
    broadcast use vstd::seq_lib::group_to_multiset_ensures;
    let u = cs.update(j, cs.last());
    lemma_edge_set_update(cs, j, cs.last());
    assert(u.drop_last() =~= swap_remove(cs, j));
    assert(u.last() == cs.last());
    assert(chains_edge_set(u) == chains_edge_set(swap_remove(cs, j)).add(chain_steps(cs.last()).to_multiset()));
    assert(chains_edge_set(u).add(chain_steps(cs[j]).to_multiset()) == chains_edge_set(cs).add(chain_steps(cs.last()).to_multiset()));
    let sr = chains_edge_set(swap_remove(cs, j));
    let l = chain_steps(cs.last()).to_multiset();
    let cj = chain_steps(cs[j]).to_multiset();
    lemma_ms_swap(sr, l, cj);
    lemma_ms_cancel(sr.add(cj), chains_edge_set(cs), l);
}

/// Adding one edge to chains adds exactly that edge to the edges they hold,
/// and every chain keeps at least one edge.
pub proof fn lemma_extend_one_edges(cs: Seq<Seq<usize>>, e: [usize; 2])
    requires
        chains_wf(cs),
    ensures
        chains_wf(extend_one(cs, e)),
        chains_edge_set(extend_one(cs, e)) == chains_edge_set(cs).insert(undirected(e[0], e[1])),
{
    broadcast use vstd::multiset::group_multiset_axioms;
    broadcast use vstd::seq_lib::group_to_multiset_ensures;
    lemma_first_touching_range(cs, e[0], e[1], 0);
    match first_touching(cs, e[0], e[1], 0) {
        None => {
            let c = seq![e[0], e[1]];
            lemma_edge_set_push(cs, c);
            assert(chain_steps(c) =~= seq![undirected(e[0], e[1])]);
            assert(chain_steps(c).to_multiset() =~= Multiset::singleton(undirected(e[0], e[1]))) by {
                vstd::seq_lib::to_multiset_build(Seq::<(usize, usize)>::empty(), undirected(e[0], e[1]));
                assert(Seq::<(usize, usize)>::empty().push(undirected(e[0], e[1])) =~= chain_steps(c));
            }
            assert(chains_edge_set(cs.push(c)) =~= chains_edge_set(cs).insert(undirected(e[0], e[1])));
        },
        Some(k) => {
            let ck = cs[k];
            let v = if ck[0] == e[0] || ck[0] == e[1] { ck.reverse() } else { ck };
            if ck[0] == e[0] || ck[0] == e[1] {
                lemma_steps_reverse(ck);
            }
            let x = if v.last() == e[0] { e[1] } else { e[0] };
            assert(undirected(v.last(), x) == undirected(e[0], e[1]));
            lemma_steps_push(v, x);
            lemma_edge_set_update(cs, k, v.push(x));
            assert(chain_steps(v).to_multiset() == chain_steps(ck).to_multiset());
            assert(chain_steps(v.push(x)).to_multiset() == chain_steps(ck).to_multiset().insert(undirected(e[0], e[1])));
            let t = undirected(e[0], e[1]);
            let u2 = chains_edge_set(cs.update(k, v.push(x)));
            let m_ck = chain_steps(ck).to_multiset();
            lemma_ms_insert(m_ck, t);
            lemma_ms_insert(chains_edge_set(cs), t);
            // u2 + ck == cs + (ck + {t})
            lemma_ms_swap(chains_edge_set(cs), m_ck, Multiset::singleton(t));
            assert(chains_edge_set(cs).add(m_ck.add(Multiset::singleton(t))) =~= chains_edge_set(cs).add(m_ck).add(Multiset::singleton(t)));
            lemma_ms_swap(chains_edge_set(cs), Multiset::singleton(t), m_ck);
            lemma_ms_cancel(u2, chains_edge_set(cs).add(Multiset::singleton(t)), m_ck);
            assert(chains_edge_set(cs.update(k, v.push(x))) =~= chains_edge_set(cs).insert(undirected(e[0], e[1])));
        },
    }
}

/// Adding edges to chains adds exactly those edges to the edges they hold.
pub proof fn lemma_extend_edges(cs: Seq<Seq<usize>>, es: Seq<[usize; 2]>)
    requires
        chains_wf(cs),
    ensures
        chains_wf(extend_all(cs, es)),
        chains_edge_set(extend_all(cs, es)) == chains_edge_set(cs).add(edge_list_set(es)),
    decreases es.len(),
{
    broadcast use vstd::multiset::group_multiset_axioms;
    broadcast use vstd::seq_lib::group_to_multiset_ensures;
    if es.len() == 0 {
        assert(edge_list_set(es) =~= Multiset::<(usize, usize)>::empty());
        assert(chains_edge_set(cs).add(edge_list_set(es)) =~= chains_edge_set(cs));
    } else {
        lemma_extend_one_edges(cs, es[0]);
        lemma_extend_edges(extend_one(cs, es[0]), es.drop_first());
        let m = es.map_values(|e: [usize; 2]| undirected(e[0], e[1]));
        assert(m =~= seq![undirected(es[0][0], es[0][1])] + es.drop_first().map_values(|e: [usize; 2]| undirected(e[0], e[1])));
        vstd::seq_lib::lemma_multiset_commutative(
            seq![undirected(es[0][0], es[0][1])],
            es.drop_first().map_values(|e: [usize; 2]| undirected(e[0], e[1])),
        );
        vstd::seq_lib::to_multiset_build(Seq::<(usize, usize)>::empty(), undirected(es[0][0], es[0][1]));
        assert(Seq::<(usize, usize)>::empty().push(undirected(es[0][0], es[0][1])) =~= seq![undirected(es[0][0], es[0][1])]);
        assert(chains_edge_set(extend_all(cs, es)) =~= chains_edge_set(cs).add(edge_list_set(es)));
    }
}

proof fn lemma_absorb_edges(cs: Seq<Seq<usize>>, o: Seq<Seq<usize>>)
    requires
        chains_wf(cs),
        chains_wf(o),
    ensures
        chains_wf(absorb(cs, o)),
        chains_edge_set(absorb(cs, o)) == chains_edge_set(cs).add(chains_edge_set(o)),
    decreases o.len(),
{
    broadcast use vstd::multiset::group_multiset_axioms;
    if o.len() == 0 {
        assert(chains_edge_set(cs).add(chains_edge_set(o)) =~= chains_edge_set(cs));
    } else {
        let ovs = o[0];
        assert(ovs.len() >= 2);
        let co = chain_steps(ovs).to_multiset();
        lemma_first_touching_range(cs, ovs[0], ovs.last(), 0);
        let next = match first_touching(cs, ovs[0], ovs.last(), 0) {
            None => cs.push(ovs),
            Some(k) => cs.update(k, join_oriented(cs[k], ovs)),
        };
        match first_touching(cs, ovs[0], ovs.last(), 0) {
            None => {
                lemma_edge_set_push(cs, ovs);
                assert(chains_wf(next)) by {
                    assert forall|t: int| 0 <= t < next.len() implies #[trigger] next[t].len() >= 2 by {
                        if t < cs.len() {
                            assert(next[t] == cs[t]);
                        }
                    }
                }
            },
            Some(k) => {
                let ck = cs[k];
                lemma_touching_swap(ck, ovs);
                lemma_join_oriented_edges(ck, ovs);
                let joined = join_oriented(ck, ovs);
                lemma_edge_set_update(cs, k, joined);
                let m_ck = chain_steps(ck).to_multiset();
                lemma_ms_swap(chains_edge_set(cs), m_ck, co);
                assert(chains_edge_set(cs).add(m_ck.add(co)) =~= chains_edge_set(cs).add(m_ck).add(co));
                lemma_ms_cancel(chains_edge_set(next), chains_edge_set(cs).add(co), m_ck);
                assert(chains_wf(next)) by {
                    assert forall|t: int| 0 <= t < next.len() implies #[trigger] next[t].len() >= 2 by {
                        if t != k {
                            assert(next[t] == cs[t]);
                        }
                    }
                }
            },
        }
        assert(chains_edge_set(next) == chains_edge_set(cs).add(co));
        let rest = o.drop_first();
        assert(chains_wf(rest)) by {
            assert forall|t: int| 0 <= t < rest.len() implies #[trigger] rest[t].len() >= 2 by {
                assert(rest[t] == o[t + 1]);
            }
        }
        lemma_absorb_edges(next, rest);
        lemma_edge_set_first(o);
        assert(chains_edge_set(cs).add(co).add(chains_edge_set(rest)) =~= chains_edge_set(cs).add(co.add(chains_edge_set(rest))));
    }
}

proof fn lemma_consolidated_edges(cs: Seq<Seq<usize>>, i: int, j: int)
    requires
        chains_wf(cs),
    ensures
        chains_wf(consolidated(cs, i, j)),
        chains_edge_set(consolidated(cs, i, j)) == chains_edge_set(cs),
    decreases cs.len(), cs.len() - i, cs.len() - j,
{
    if i < 0 || i >= cs.len() {
    } else if j <= i || j >= cs.len() {
        lemma_consolidated_edges(cs, i + 1, i + 2);
    } else if !(touches(cs[j], cs[i][0], cs[i].last())) {
        lemma_consolidated_edges(cs, i, j + 1);
    } else {
        let joined = join_oriented(cs[i], cs[j]);
        lemma_join_oriented_edges(cs[i], cs[j]);
        let sr = swap_remove(cs, j);
        assert(sr[i] == cs[i]);
        let nx = sr.update(i, joined);
        lemma_edge_set_swap_remove(cs, j);
        lemma_edge_set_update(sr, i, joined);
        let mi = chain_steps(cs[i]).to_multiset();
        let mj = chain_steps(cs[j]).to_multiset();
        // nx + mi == sr + (mi + mj) == (sr + mj) + mi == cs + mi
        assert(chains_edge_set(sr).add(mi.add(mj)) =~= chains_edge_set(sr).add(mi).add(mj));
        lemma_ms_swap(chains_edge_set(sr), mi, mj);
        lemma_ms_cancel(chains_edge_set(nx), chains_edge_set(cs), mi);
        assert(chains_wf(nx)) by {
            assert forall|t: int| 0 <= t < nx.len() implies #[trigger] nx[t].len() >= 2 by {
                if t != i {
                    if t == j {
                        assert(nx[t] == cs.last());
                    } else {
                        assert(nx[t] == cs[t]);
                    }
                }
            }
        }
        lemma_consolidated_edges(nx, i, j);
    }
}

/// Appending chains to chains adds exactly the edges they hold.
pub proof fn lemma_append_edges(cs: Seq<Seq<usize>>, o: Seq<Seq<usize>>)
    requires
        chains_wf(cs),
        chains_wf(o),
    ensures
        chains_wf(spec_append(cs, o)),
        chains_edge_set(spec_append(cs, o)) == chains_edge_set(cs).add(chains_edge_set(o)),
{
    broadcast use vstd::multiset::group_multiset_axioms;
    if cs.len() == 0 {
        assert(chains_edge_set(cs).add(chains_edge_set(o)) =~= chains_edge_set(o));
    } else if o.len() == 0 {
        assert(chains_edge_set(cs).add(chains_edge_set(o)) =~= chains_edge_set(cs));
    } else {
        lemma_absorb_edges(cs, o);
        lemma_consolidated_edges(absorb(cs, o), 0, 1);
    }
}

/// The pairs `edges` yields are, without direction, the edges the chains
/// hold.
pub proof fn lemma_edges_are_edge_set(cs: Seq<Seq<usize>>)
    ensures
        edge_list_set(all_chain_edges(cs)) == chains_edge_set(cs),
    decreases cs.len(),
{
    broadcast use vstd::multiset::group_multiset_axioms;
    broadcast use vstd::seq_lib::group_to_multiset_ensures;
    if cs.len() == 0 {
        assert(all_chain_edges(cs).map_values(|e: [usize; 2]| undirected(e[0], e[1])) =~= Seq::<(usize, usize)>::empty());
        assert(edge_list_set(all_chain_edges(cs)) =~= chains_edge_set(cs));
    } else {
        lemma_edges_are_edge_set(cs.drop_last());
        let a = all_chain_edges(cs.drop_last());
        let b = chain_edges(cs.last());
        let f = |e: [usize; 2]| undirected(e[0], e[1]);
        assert((a + b).map_values(f) =~= a.map_values(f) + b.map_values(f));
        assert(b.map_values(f) =~= chain_steps(cs.last()));
        vstd::seq_lib::lemma_multiset_commutative(a.map_values(f), b.map_values(f));
    }
}

/// The wedges around a vertex after adding each of `pns` in turn: each
/// added wedge cancels or absorbs the wedges it meets, and what is left of
/// it is appended.
pub open spec fn absorbed_wedges(opn: Seq<[usize; 2]>, pns: Seq<[usize; 2]>) -> Seq<[usize; 2]>
    decreases pns.len(),
{
    if pns.len() == 0 {
        opn
    } else {
        let r = spec_new_wedges(opn, opn.len(), pns[0]);
        let kept = r.0.take(r.1 as int);
        let next = match r.2 {
            Some(w) => kept.push(w),
            None => kept,
        };
        absorbed_wedges(next, pns.drop_first())
    }
}

/// How often `x` is one of the two ends of wedge `w`.
pub open spec fn ends_of(w: [usize; 2], x: usize) -> nat {
    (if w[0] == x { 1nat } else { 0nat }) + (if w[1] == x { 1nat } else { 0nat })
}

/// How often `x` is an end of one of the wedges of `ws`.
pub open spec fn end_count(ws: Seq<[usize; 2]>, x: usize) -> nat
    decreases ws.len(),
{
    if ws.len() == 0 {
        0
    } else {
        end_count(ws.drop_last(), x) + ends_of(ws.last(), x)
    }
}

proof fn lemma_end_count_push(s: Seq<[usize; 2]>, w: [usize; 2], x: usize)
    ensures
        end_count(s.push(w), x) == end_count(s, x) + ends_of(w, x),
{
    assert(s.push(w).drop_last() =~= s);
}

proof fn lemma_end_count_first(s: Seq<[usize; 2]>, x: usize)
    requires
        s.len() > 0,
    ensures
        end_count(s, x) == ends_of(s[0], x) + end_count(s.drop_first(), x),
    decreases s.len(),
{
    if s.len() > 1 {
        lemma_end_count_first(s.drop_last(), x);
        assert(s.drop_last().drop_first() =~= s.drop_first().drop_last());
        assert(s.drop_first().last() == s.last());
    } else {
        assert(s.drop_last() =~= Seq::<[usize; 2]>::empty());
        assert(s.drop_first() =~= Seq::<[usize; 2]>::empty());
    }
}

proof fn lemma_end_count_update(s: Seq<[usize; 2]>, i: int, v: [usize; 2], x: usize)
    requires
        0 <= i < s.len(),
    ensures
        end_count(s.update(i, v), x) + ends_of(s[i], x) == end_count(s, x) + ends_of(v, x),
    decreases s.len(),
{
    let t = s.update(i, v);
    if i == s.len() - 1 {
        assert(t.drop_last() =~= s.drop_last());
    } else {
        lemma_end_count_update(s.drop_last(), i, v, x);
        assert(t.drop_last() =~= s.drop_last().update(i, v));
    }
}

proof fn lemma_end_count_swap_take(ws: Seq<[usize; 2]>, i: int, n: int, x: usize)
    requires
        0 <= i < n <= ws.len(),
    ensures
        end_count(swapped(ws, i, n - 1).take(n - 1), x) + ends_of(ws[i], x) == end_count(ws.take(n), x),
{
    let sw = swapped(ws, i, n - 1);
    let t = ws.take(n);
    let u = t.update(i, ws[n - 1]);
    lemma_end_count_update(t, i, ws[n - 1], x);
    lemma_end_count_update(u, n - 1, ws[i], x);
    assert(sw.take(n) =~= u.update(n - 1, ws[i]));
    if i == n - 1 {
        assert(u[n - 1] == ws[n - 1]);
    } else {
        assert(u[n - 1] == ws[n - 1]);
    }
    assert(sw.take(n).drop_last() =~= sw.take(n - 1));
    assert(sw.take(n).last() == ws[i]);
}

proof fn lemma_merge_parity(a: [usize; 2], b: [usize; 2], x: usize)
    requires
        spec_merge_wedges(a, b) is Some,
    ensures
        (ends_of(spec_merge_wedges(a, b).unwrap(), x) + ends_of(a, x) + ends_of(b, x)) % 2 == 0,
{
}

/// What is kept of the first `n` wedges and what is added with them.
pub open spec fn wedges_after(r: (Seq<[usize; 2]>, nat, Option<[usize; 2]>)) -> Seq<[usize; 2]> {
    match r.2 {
        Some(w) => r.0.take(r.1 as int).push(w),
        None => r.0.take(r.1 as int),
    }
}

/// Adding a wedge keeps the parity of every end: an end met an even
/// number of times among the old wedges and the added one is still met an
/// even number of times, and an odd one an odd number of times (joined or
/// cancelled wedges lose their shared ends in pairs).
proof fn lemma_new_wedges_parity(ws: Seq<[usize; 2]>, n: nat, curr: [usize; 2], x: usize)
    requires
        n <= ws.len(),
    ensures
        (end_count(wedges_after(spec_new_wedges(ws, n, curr)), x) + end_count(ws.take(n as int), x) + ends_of(
            curr,
            x,
        )) % 2 == 0,
    decreases n,
{
    let r = spec_new_wedges(ws, n, curr);
    if n == 0 {
        assert(ws.take(0) =~= Seq::<[usize; 2]>::empty());
        assert(r.0.take(0) =~= Seq::<[usize; 2]>::empty());
        lemma_end_count_push(Seq::<[usize; 2]>::empty(), curr, x);
    } else {
        lemma_first_hit_range(ws, n as int, curr, 0);
        match first_hit(ws, n as int, curr, 0) {
            None => {
                lemma_end_count_push(ws.take(n as int), curr, x);
            },
            Some(i) => {
                let ws2 = swapped(ws, i, n - 1);
                lemma_end_count_swap_take(ws, i, n as int, x);
                if ws[i] == curr || ws[i] == reversed(curr) {
                    assert(ends_of(ws[i], x) == ends_of(curr, x));
                } else {
                    let m = spec_merge_wedges(ws[i], curr).unwrap();
                    lemma_merge_parity(ws[i], curr, x);
                    lemma_new_wedges_parity(ws2, (n - 1) as nat, m, x);
                }
            },
        }
    }
}

/// Absorbing wedges keeps the parity of every end: `x` is an end of the
/// resulting wedges an odd number of times exactly when it is an end of
/// the old and the absorbed wedges together an odd number of times. No
/// absorbed wedge is lost: its ends survive unless they meet another end.
pub proof fn lemma_absorbed_parity(opn: Seq<[usize; 2]>, pns: Seq<[usize; 2]>, x: usize)
    ensures
        (end_count(absorbed_wedges(opn, pns), x) + end_count(opn, x) + end_count(pns, x)) % 2 == 0,
    decreases pns.len(),
{
    if pns.len() == 0 {
    } else {
        let r = spec_new_wedges(opn, opn.len(), pns[0]);
        let next = wedges_after(r);
        lemma_new_wedges_parity(opn, opn.len(), pns[0], x);
        assert(opn.take(opn.len() as int) =~= opn);
        lemma_absorbed_parity(next, pns.drop_first(), x);
        lemma_end_count_first(pns, x);
        assert(absorbed_wedges(opn, pns) == absorbed_wedges(next, pns.drop_first()));
    }
}

/// Whether no two of the first `n` wedges meet: none equals another
/// either way round, and none can be joined with another.
pub open spec fn apart_upto(ws: Seq<[usize; 2]>, n: int) -> bool {
    forall|i: int, j: int| 0 <= i < n && 0 <= j < n && i != j ==> !wedge_hit(#[trigger] ws[i], #[trigger] ws[j])
}

proof fn lemma_wedge_hit_symmetric(a: [usize; 2], b: [usize; 2])
    ensures
        wedge_hit(a, b) == wedge_hit(b, a),
{
    if a == reversed(b) {
        assert(b =~= reversed(a));
    }
    if b == reversed(a) {
        assert(a =~= reversed(b));
    }
}

proof fn lemma_apart_new_wedges(ws: Seq<[usize; 2]>, n: nat, curr: [usize; 2])
    requires
        n <= ws.len(),
        apart_upto(ws, n as int),
    ensures
        apart_upto(wedges_after(spec_new_wedges(ws, n, curr)), wedges_after(spec_new_wedges(ws, n, curr)).len() as int),
    decreases n,
{
    let r = spec_new_wedges(ws, n, curr);
    let out = wedges_after(r);
    if n == 0 {
        assert(out =~= seq![curr]);
    } else {
        lemma_first_hit_range(ws, n as int, curr, 0);
        match first_hit(ws, n as int, curr, 0) {
            None => {
                lemma_first_hit_none(ws, n as int, curr, 0);
                assert(out =~= ws.take(n as int).push(curr));
                assert forall|i: int, j: int| 0 <= i < out.len() && 0 <= j < out.len() && i != j implies !wedge_hit(
                    #[trigger] out[i],
                    #[trigger] out[j],
                ) by {
                    if i == n as int {
                        lemma_wedge_hit_symmetric(out[j], curr);
                        assert(!wedge_hit(ws[j], curr));
                    } else if j == n as int {
                        assert(!wedge_hit(ws[i], curr));
                    } else {
                        assert(out[i] == ws[i] && out[j] == ws[j]);
                    }
                }
            },
            Some(i) => {
                let ws2 = swapped(ws, i, n - 1);
                let perm = |t: int| if t == i { (n - 1) as int } else if t == n - 1 { i } else { t };
                assert forall|a: int, b: int| 0 <= a < n - 1 && 0 <= b < n - 1 && a != b implies !wedge_hit(
                    #[trigger] ws2[a],
                    #[trigger] ws2[b],
                ) by {
                    assert(ws2[a] == ws[perm(a)]);
                    assert(ws2[b] == ws[perm(b)]);
                }
                if ws[i] == curr || ws[i] == reversed(curr) {
                    assert(out =~= ws2.take(n - 1));
                    assert forall|a: int, b: int| 0 <= a < out.len() && 0 <= b < out.len() && a != b implies !wedge_hit(
                        #[trigger] out[a],
                        #[trigger] out[b],
                    ) by {
                        assert(out[a] == ws2[a] && out[b] == ws2[b]);
                    }
                } else {
                    lemma_apart_new_wedges(ws2, (n - 1) as nat, spec_merge_wedges(ws[i], curr).unwrap());
                }
            },
        }
    }
}

/// Absorbing wedges into wedges of which no two meet leaves wedges of
/// which no two meet: every absorbed wedge is cancelled or joined with
/// what it meets until it meets nothing.
pub proof fn lemma_absorbed_apart(opn: Seq<[usize; 2]>, pns: Seq<[usize; 2]>)
    requires
        apart_upto(opn, opn.len() as int),
    ensures
        apart_upto(absorbed_wedges(opn, pns), absorbed_wedges(opn, pns).len() as int),
    decreases pns.len(),
{
    if pns.len() == 0 {
    } else {
        let r = spec_new_wedges(opn, opn.len(), pns[0]);
        let next = wedges_after(r);
        lemma_apart_new_wedges(opn, opn.len(), pns[0]);
        lemma_absorbed_apart(next, pns.drop_first());
        assert(absorbed_wedges(opn, pns) == absorbed_wedges(next, pns.drop_first()));
    }
}

/// Adds the wedges `pns` around a vertex to its wedges `opn`, as happens
/// when two charts meeting at the vertex are merged.
pub fn absorb_wedges(opn: &mut Vec<[usize; 2]>, pns: &Vec<[usize; 2]>)
    ensures
        final(opn)@ == absorbed_wedges(old(opn)@, pns@),
        forall|x: usize|
            (#[trigger] end_count(final(opn)@, x) + end_count(old(opn)@, x) + end_count(pns@, x)) % 2 == 0,
        apart_upto(old(opn)@, old(opn)@.len() as int) ==> apart_upto(final(opn)@, final(opn)@.len() as int),
{
    proof {
        if apart_upto(opn@, opn@.len() as int) {
            lemma_absorbed_apart(opn@, pns@);
        }
        assert forall|x: usize|
            (#[trigger] end_count(absorbed_wedges(opn@, pns@), x) + end_count(opn@, x) + end_count(pns@, x)) % 2 == 0 by {
            lemma_absorbed_parity(opn@, pns@, x);
        }
    }
    let mut k: usize = 0;
    assert(pns@.skip(0) =~= pns@);
    while k < pns.len()
        invariant
            k <= pns@.len(),
            absorbed_wedges(opn@, pns@.skip(k as int)) == absorbed_wedges(old(opn)@, pns@),
        decreases pns@.len() - k,
    {
        let pn = pns[k];
        let ghost before = opn@;
        let ghost r = spec_new_wedges(before, before.len(), pn);
        proof {
            lemma_new_wedges_perm(before, before.len(), pn);
        }
        let (new_len, new_wedge) = new_wedges(opn.as_mut_slice(), pn);
        assert(opn@ == r.0);
        assert(new_len == r.1 && new_wedge == r.2);
        opn.truncate(new_len);
        assert(opn@ == r.0.take(r.1 as int));
        if let Some(w) = new_wedge {
            opn.push(w);
        }
        assert(opn@ == match r.2 {
            Some(w) => r.0.take(r.1 as int).push(w),
            None => r.0.take(r.1 as int),
        });
        assert(pns@.skip(k as int)[0] == pn);
        assert(pns@.skip(k as int).drop_first() =~= pns@.skip(k + 1));
        k = k + 1;
    }
}


// ---------------------------------------------------------------------------
// Face adjacency across shared edges
// ---------------------------------------------------------------------------

/// The face pairs of one edge whose faces are `ek`: each of the first `i`
/// faces with every face listed after it, in turn.
pub open spec fn later_pairs(ek: Seq<usize>, i: int) -> Seq<[usize; 2]>
    decreases i,
{
    if i <= 0 {
        Seq::empty()
    } else {
        later_pairs(ek, i - 1) + Seq::new((ek.len() - i) as nat, |k: int| [ek[i - 1], ek[i + k]])
    }
}

/// The face pairs of all edges, edge after edge.
pub open spec fn edge_face_pairs(es: Seq<Seq<usize>>) -> Seq<[usize; 2]>
    decreases es.len(),
{
    if es.len() == 0 {
        Seq::empty()
    } else {
        edge_face_pairs(es.drop_last()) + later_pairs(es.last(), es.last().len() as int)
    }
}

/// The adjacency after adding the edges `ps` in order.
pub open spec fn add_edges_adj(adj: Seq<Seq<usize>>, ps: Seq<[usize; 2]>) -> Seq<Seq<usize>>
    decreases ps.len(),
{
    if ps.len() == 0 {
        adj
    } else {
        crate::manifold::add_edge_adj(add_edges_adj(adj, ps.drop_last()), ps.last()[0], ps.last()[1])
    }
}

proof fn lemma_add_edges_adj_push(adj: Seq<Seq<usize>>, ps: Seq<[usize; 2]>, p: [usize; 2])
    ensures
        add_edges_adj(adj, ps.push(p)) == crate::manifold::add_edge_adj(add_edges_adj(adj, ps), p[0], p[1]),
{
    assert(ps.push(p).drop_last() =~= ps);
}

/// Links in `m` every two faces that share a mesh edge, `edge_faces`
/// listing the faces of each edge: each face of an edge with every face
/// listed after it.
pub fn link_edge_faces<T>(m: &mut crate::manifold::CollapsibleManifold<T>, edge_faces: &Vec<Vec<usize>>)
    requires
        old(m).wf(),
        forall|e: int, k: int|
            0 <= e < edge_faces@.len() && 0 <= k < edge_faces@[e]@.len() ==> (#[trigger] edge_faces@[e]@[k])
                < old(m).adj().len(),
        forall|e: int| 0 <= e < edge_faces@.len() ==> (#[trigger] edge_faces@[e]@).no_duplicates(),
    ensures
        final(m).wf(),
        final(m).roots() == old(m).roots(),
        final(m).data_seq() == old(m).data_seq(),
        final(m).adj() == add_edges_adj(old(m).adj(), edge_face_pairs(edge_faces@.map_values(|v: Vec<usize>| v@))),
{
    let ghost es = edge_faces@.map_values(|v: Vec<usize>| v@);
    let ghost a0 = m.adj();
    let mut e: usize = 0;
    assert(es.take(0) =~= Seq::<Seq<usize>>::empty());
    while e < edge_faces.len()
        invariant
            es == edge_faces@.map_values(|v: Vec<usize>| v@),
            e <= edge_faces@.len(),
            m.wf(),
            m.roots() == old(m).roots(),
            m.data_seq() == old(m).data_seq(),
            m.adj().len() == a0.len(),
            a0 == old(m).adj(),
            forall|e: int, k: int|
                0 <= e < edge_faces@.len() && 0 <= k < edge_faces@[e]@.len() ==> (#[trigger] edge_faces@[e]@[k])
                    < a0.len(),
            m.adj() == add_edges_adj(a0, edge_face_pairs(es.take(e as int))),
        decreases edge_faces@.len() - e,
    {
        let ek = &edge_faces[e];
        assert(ek@ == es[e as int]);
        let ghost base = edge_face_pairs(es.take(e as int));
        let n = ek.len();
        let mut i: usize = 0;
        while i < n
            invariant
                es == edge_faces@.map_values(|v: Vec<usize>| v@),
                e < edge_faces@.len(),
                ek@ == es[e as int],
                n == ek@.len(),
                i <= n,
                m.wf(),
                m.roots() == old(m).roots(),
                m.data_seq() == old(m).data_seq(),
                m.adj().len() == a0.len(),
                forall|e: int, k: int|
                    0 <= e < edge_faces@.len() && 0 <= k < edge_faces@[e]@.len() ==> (#[trigger] edge_faces@[e]@[k])
                        < a0.len(),
                base == edge_face_pairs(es.take(e as int)),
                m.adj() == add_edges_adj(a0, base + later_pairs(ek@, i as int)),
            decreases n - i,
        {
            let ghost mid = base + later_pairs(ek@, i as int);
            let mut j: usize = i + 1;
            while j < n
                invariant
                    e < edge_faces@.len(),
                    ek@ == es[e as int],
                    es == edge_faces@.map_values(|v: Vec<usize>| v@),
                    n == ek@.len(),
                    i < n,
                    i + 1 <= j <= n,
                    m.wf(),
                    m.roots() == old(m).roots(),
                    m.data_seq() == old(m).data_seq(),
                    m.adj().len() == a0.len(),
                    forall|e: int, k: int|
                        0 <= e < edge_faces@.len() && 0 <= k < edge_faces@[e]@.len() ==> (#[trigger] edge_faces@[e]@[k])
                            < a0.len(),
                    m.adj() == add_edges_adj(a0, mid + Seq::new((j - i - 1) as nat, |k: int| [ek@[i as int], ek@[i + 1 + k]])),
                decreases n - j,
            {
                assert(edge_faces@[e as int]@[i as int] == ek@[i as int]);
                assert(edge_faces@[e as int]@[j as int] == ek@[j as int]);
                let ghost row = Seq::new((j - i - 1) as nat, |k: int| [ek@[i as int], ek@[i + 1 + k]]);
                let ghost row1 = Seq::new((j + 1 - i - 1) as nat, |k: int| [ek@[i as int], ek@[i + 1 + k]]);
                assert(row1 =~= row.push([ek@[i as int], ek@[j as int]]));
                assert(mid + row1 =~= (mid + row).push([ek@[i as int], ek@[j as int]]));
                proof {
                    lemma_add_edges_adj_push(a0, mid + row, [ek@[i as int], ek@[j as int]]);
                }
                m.add_edge(ek[i], ek[j]);
                j = j + 1;
            }
            assert(later_pairs(ek@, i + 1) =~= later_pairs(ek@, i as int) + Seq::new(
                (j - i - 1) as nat,
                |k: int| [ek@[i as int], ek@[i + 1 + k]],
            ));
            assert(mid + Seq::new((j - i - 1) as nat, |k: int| [ek@[i as int], ek@[i + 1 + k]]) =~= base + later_pairs(
                ek@,
                i + 1,
            ));
            i = i + 1;
        }
        proof {
            assert(es.take(e + 1).drop_last() =~= es.take(e as int));
            assert(es.take(e + 1).last() == es[e as int]);
        }
        e = e + 1;
    }
    assert(es.take(e as int) =~= es);
}

// ---------------------------------------------------------------------------
// Adjacency of the final charts
// ---------------------------------------------------------------------------

/// The chart pairs met on one edge whose faces are `ek`, each of its first
/// `i` faces paired with every face of the edge, itself included.
pub open spec fn face_pair_rows(ek: Seq<usize>, charts: Seq<usize>, i: int) -> Seq<(usize, usize)>
    decreases i,
{
    if i <= 0 {
        Seq::empty()
    } else {
        face_pair_rows(ek, charts, i - 1) + Seq::new(ek.len(), |j: int| (charts[ek[i - 1] as int], charts[ek[j] as int]))
    }
}

/// The chart pairs met over all edges, edge after edge.
pub open spec fn all_face_pairs(es: Seq<Seq<usize>>, charts: Seq<usize>) -> Seq<(usize, usize)>
    decreases es.len(),
{
    if es.len() == 0 {
        Seq::empty()
    } else {
        all_face_pairs(es.drop_last(), charts) + face_pair_rows(es.last(), charts, es.last().len() as int)
    }
}

/// The adjacency of the final charts `charts` (one per face): over the
/// edges whose faces `edge_faces` lists, every ordered pair of faces of an
/// edge in different charts makes the two charts list each other once, in
/// the order first met.
pub fn face_chart_adjacency(edge_faces: &Vec<Vec<usize>>, charts: &[usize], num_charts: usize) -> (r: Vec<Vec<usize>>)
    requires
        forall|e: int, k: int|
            0 <= e < edge_faces@.len() && 0 <= k < edge_faces@[e]@.len() ==> (#[trigger] edge_faces@[e]@[k])
                < charts@.len(),
        forall|f: int| 0 <= f < charts@.len() ==> #[trigger] charts@[f] < num_charts,
    ensures
        r@.map_values(|v: Vec<usize>| v@) == crate::measure_flat::link_all(
            crate::measure_flat::empty_lists(num_charts as nat),
            all_face_pairs(edge_faces@.map_values(|v: Vec<usize>| v@), charts@),
        ),
        r@.len() == num_charts,
        forall|c: int| 0 <= c < num_charts ==> (#[trigger] r@[c])@.no_duplicates(),
        forall|c: usize, d: usize|
            c < num_charts ==> (#[trigger] r@[c as int]@.contains(d) <==> crate::measure_flat::joined(
                all_face_pairs(edge_faces@.map_values(|v: Vec<usize>| v@), charts@),
                c,
                d,
            )),
{
    let ghost es = edge_faces@.map_values(|v: Vec<usize>| v@);
    let ghost cs = charts@;
    let ghost n = num_charts as nat;
    let mut adj: Vec<Vec<usize>> = Vec::new();
    let mut t: usize = 0;
    while t < num_charts
        invariant
            t <= num_charts,
            adj@.len() == t,
            forall|q: int| 0 <= q < t ==> (#[trigger] adj@[q])@ == Seq::<usize>::empty(),
        decreases num_charts - t,
    {
        adj.push(Vec::new());
        t = t + 1;
    }
    assert(adj@.map_values(|v: Vec<usize>| v@) =~= crate::measure_flat::empty_lists(n));
    let mut e: usize = 0;
    assert(es.take(0) =~= Seq::<Seq<usize>>::empty());
    while e < edge_faces.len()
        invariant
            es == edge_faces@.map_values(|v: Vec<usize>| v@),
            cs == charts@,
            n == num_charts,
            e <= edge_faces@.len(),
            adj@.len() == num_charts,
            forall|e: int, k: int|
                0 <= e < edge_faces@.len() && 0 <= k < edge_faces@[e]@.len() ==> (#[trigger] edge_faces@[e]@[k])
                    < charts@.len(),
            forall|f: int| 0 <= f < charts@.len() ==> #[trigger] charts@[f] < num_charts,
            adj@.map_values(|v: Vec<usize>| v@) == crate::measure_flat::link_all(
                crate::measure_flat::empty_lists(n),
                all_face_pairs(es.take(e as int), cs),
            ),
        decreases edge_faces@.len() - e,
    {
        let ek = &edge_faces[e];
        assert(ek@ == es[e as int]);
        let ghost base = all_face_pairs(es.take(e as int), cs);
        let mut i: usize = 0;
        while i < ek.len()
            invariant
                es == edge_faces@.map_values(|v: Vec<usize>| v@),
                cs == charts@,
                n == num_charts,
                e < edge_faces@.len(),
                ek@ == es[e as int],
                i <= ek@.len(),
                adj@.len() == num_charts,
                forall|e: int, k: int|
                    0 <= e < edge_faces@.len() && 0 <= k < edge_faces@[e]@.len() ==> (#[trigger] edge_faces@[e]@[k])
                        < charts@.len(),
                forall|f: int| 0 <= f < charts@.len() ==> #[trigger] charts@[f] < num_charts,
                base == all_face_pairs(es.take(e as int), cs),
                adj@.map_values(|v: Vec<usize>| v@) == crate::measure_flat::link_all(
                    crate::measure_flat::empty_lists(n),
                    base + face_pair_rows(ek@, cs, i as int),
                ),
            decreases ek@.len() - i,
        {
            assert(edge_faces@[e as int]@[i as int] == ek@[i as int]);
            let ci = charts[ek[i]];
            let ghost mid = base + face_pair_rows(ek@, cs, i as int);
            let mut j: usize = 0;
            while j < ek.len()
                invariant
                    es == edge_faces@.map_values(|v: Vec<usize>| v@),
                    cs == charts@,
                    n == num_charts,
                    e < edge_faces@.len(),
                    ek@ == es[e as int],
                    i < ek@.len(),
                    j <= ek@.len(),
                    ci == cs[ek@[i as int] as int],
                    ci < num_charts,
                    adj@.len() == num_charts,
                    forall|e: int, k: int|
                        0 <= e < edge_faces@.len() && 0 <= k < edge_faces@[e]@.len() ==> (#[trigger] edge_faces@[e]@[k])
                            < charts@.len(),
                    forall|f: int| 0 <= f < charts@.len() ==> #[trigger] charts@[f] < num_charts,
                    mid == base + face_pair_rows(ek@, cs, i as int),
                    adj@.map_values(|v: Vec<usize>| v@) == crate::measure_flat::link_all(
                        crate::measure_flat::empty_lists(n),
                        mid + Seq::new(j as nat, |jj: int| (cs[ek@[i as int] as int], cs[ek@[jj] as int])),
                    ),
                decreases ek@.len() - j,
            {
                assert(edge_faces@[e as int]@[j as int] == ek@[j as int]);
                let cj = charts[ek[j]];
                let ghost row = Seq::new(j as nat, |jj: int| (cs[ek@[i as int] as int], cs[ek@[jj] as int]));
                let ghost row1 = Seq::new((j + 1) as nat, |jj: int| (cs[ek@[i as int] as int], cs[ek@[jj] as int]));
                assert(row1 =~= row.push((ci, cj)));
                assert(mid + row1 =~= (mid + row).push((ci, cj)));
                assert((mid + row).push((ci, cj)).drop_last() =~= mid + row);
                crate::measure_flat::link_charts(&mut adj, ci, cj);
                j = j + 1;
            }
            assert(face_pair_rows(ek@, cs, i + 1) =~= face_pair_rows(ek@, cs, i as int) + Seq::new(
                ek@.len(),
                |jj: int| (cs[ek@[i as int] as int], cs[ek@[jj] as int]),
            ));
            assert(mid + Seq::new(j as nat, |jj: int| (cs[ek@[i as int] as int], cs[ek@[jj] as int])) =~= base
                + face_pair_rows(ek@, cs, i + 1));
            i = i + 1;
        }
        proof {
            assert(es.take(e + 1).drop_last() =~= es.take(e as int));
            assert(es.take(e + 1).last() == es[e as int]);
        }
        e = e + 1;
    }
    assert(es.take(e as int) =~= es);
    proof {
        lemma_all_face_pairs_below(es, cs, n);
        crate::measure_flat::lemma_link_all_joined(n, all_face_pairs(es, cs));
        let m = adj@.map_values(|v: Vec<usize>| v@);
        assert forall|c: int| 0 <= c < num_charts implies (#[trigger] adj@[c])@.no_duplicates() by {
            assert(m[c] == adj@[c]@);
        }
        assert forall|c: usize, d: usize| c < num_charts implies (#[trigger] adj@[c as int]@.contains(d)
            <==> crate::measure_flat::joined(all_face_pairs(es, cs), c, d)) by {
            assert(m[c as int] == adj@[c as int]@);
        }
    }
    adj
}

proof fn lemma_all_face_pairs_below(es: Seq<Seq<usize>>, cs: Seq<usize>, n: nat)
    requires
        forall|e: int, k: int| 0 <= e < es.len() && 0 <= k < es[e].len() ==> (#[trigger] es[e][k]) < cs.len(),
        forall|f: int| 0 <= f < cs.len() ==> #[trigger] cs[f] < n,
    ensures
        crate::measure_flat::pairs_below(all_face_pairs(es, cs), n),
    decreases es.len(),
{
    if es.len() > 0 {
        let d = es.drop_last();
        assert forall|e: int, k: int| 0 <= e < d.len() && 0 <= k < d[e].len() implies (#[trigger] d[e][k]) < cs.len() by {
            assert(d[e] == es[e]);
        }
        lemma_all_face_pairs_below(d, cs, n);
        let ek = es.last();
        assert forall|k: int| 0 <= k < ek.len() implies (#[trigger] ek[k]) < cs.len() by {
            assert(ek[k] == es[es.len() - 1][k]);
        }
        lemma_face_pair_rows_below(ek, cs, n, ek.len() as int);
        let a = all_face_pairs(d, cs);
        let b = face_pair_rows(ek, cs, ek.len() as int);
        assert forall|k: int| 0 <= k < (a + b).len() implies (#[trigger] (a + b)[k]).0 < n && (a + b)[k].1 < n by {
            if k < a.len() {
                assert((a + b)[k] == a[k]);
            } else {
                assert((a + b)[k] == b[k - a.len()]);
            }
        }
    }
}

proof fn lemma_face_pair_rows_below(ek: Seq<usize>, cs: Seq<usize>, n: nat, i: int)
    requires
        i <= ek.len(),
        forall|k: int| 0 <= k < ek.len() ==> (#[trigger] ek[k]) < cs.len(),
        forall|f: int| 0 <= f < cs.len() ==> #[trigger] cs[f] < n,
    ensures
        crate::measure_flat::pairs_below(face_pair_rows(ek, cs, i), n),
    decreases i,
{
    if i > 0 {
        lemma_face_pair_rows_below(ek, cs, n, i - 1);
        let a = face_pair_rows(ek, cs, i - 1);
        let b = Seq::new(ek.len(), |j: int| (cs[ek[i - 1] as int], cs[ek[j] as int]));
        assert forall|k: int| 0 <= k < (a + b).len() implies (#[trigger] (a + b)[k]).0 < n && (a + b)[k].1 < n by {
            if k < a.len() {
                assert((a + b)[k] == a[k]);
            } else {
                assert((a + b)[k] == b[k - a.len()]);
                assert(cs[ek[k - a.len()] as int] < n);
                assert(cs[ek[i - 1] as int] < n);
            }
        }
    }
}

} // verus!
