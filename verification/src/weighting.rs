//! Weighting of vertex adjacencies: the kinds of weights, and the faces on
//! each side of every edge that mean-value weights are computed from.
use vstd::prelude::*;
use crate::qem::edges_increasing;
use std::collections::BTreeMap;
use vstd::std_specs::iter::IteratorSpec;

verus! {

/// How to weigh relative importance of different vertices.
#[derive(Debug, Clone, Copy, PartialEq, Eq)]
pub enum WeightingKind {
    Uniform,
    Length,
    MeanValue,
    Laplacian,
}

impl WeightingKind {
    /// The name this kind is written with.
    pub open spec fn name(self) -> Seq<char> {
        match self {
            WeightingKind::Uniform => "uniform"@,
            WeightingKind::Length => "length"@,
            WeightingKind::MeanValue => "mean-value"@,
            WeightingKind::Laplacian => "laplacian"@,
        }
    }

    /// The name this kind is written with.
    pub fn to_string(&self) -> (r: String)
        ensures
            r@ == self.name(),
    {
        match self {
            WeightingKind::Uniform => "uniform".to_owned(),
            WeightingKind::Length => "length".to_owned(),
            WeightingKind::MeanValue => "mean-value".to_owned(),
            WeightingKind::Laplacian => "laplacian".to_owned(),
        }
    }
}

/// How position and color distances are combined.
#[derive(Debug, Clone, Copy, PartialEq, Eq)]
pub enum PosColorNorm {
    Add,
    Max,
    GeometricMean,
    Concat,
    /// ||Color||
    ColorOnly,
    /// Gaussian(pos) * Gaussian(color)
    Bilateral,
    /// Something for me to test anything with
    Tester,
}

impl PosColorNorm {
    /// The name this kind is written with.
    pub open spec fn name(self) -> Seq<char> {
        match self {
            PosColorNorm::Add => "add"@,
            PosColorNorm::Max => "max"@,
            PosColorNorm::GeometricMean => "geometric-mean"@,
            PosColorNorm::Concat => "concat"@,
            PosColorNorm::ColorOnly => "color-only"@,
            PosColorNorm::Bilateral => "bilateral"@,
            PosColorNorm::Tester => "tester"@,
        }
    }

    /// The name this kind is written with.
    pub fn to_string(&self) -> (r: String)
        ensures
            r@ == self.name(),
    {
        match self {
            PosColorNorm::Add => "add".to_owned(),
            PosColorNorm::Max => "max".to_owned(),
            PosColorNorm::GeometricMean => "geometric-mean".to_owned(),
            PosColorNorm::Concat => "concat".to_owned(),
            PosColorNorm::ColorOnly => "color-only".to_owned(),
            PosColorNorm::Bilateral => "bilateral".to_owned(),
            PosColorNorm::Tester => "tester".to_owned(),
        }
    }
}

/// Possible errors when constructing vertex adjacencies
#[derive(Debug, Clone, Copy, PartialEq, Eq)]
pub enum Error {
    /// edge, 2 previous faces and face being added
    NonManifoldEdge([usize; 2], [usize; 2], usize),
}

/// The mark of an empty face slot.
pub const NO_FACE: usize = usize::MAX;

/// Every edge of every face, with the index of its face, face after face.
pub open spec fn incidences(faces: Seq<Seq<[usize; 2]>>) -> Seq<([usize; 2], usize)>
    decreases faces.len(),
{
    if faces.len() == 0 {
        Seq::empty()
    } else {
        incidences(faces.drop_last()) + faces.last().map_values(
            |e: [usize; 2]| (e, (faces.len() - 1) as usize),
        )
    }
}

/// The slots of an edge after face `fi` is put in the first slot that is
/// empty or already holds it; none if both hold other faces.
pub open spec fn place(slots: [usize; 2], fi: usize) -> Option<[usize; 2]> {
    if slots[0] == NO_FACE || slots[0] == fi {
        Some([fi, slots[1]])
    } else if slots[1] == NO_FACE || slots[1] == fi {
        Some([slots[0], fi])
    } else {
        None
    }
}

/// The slots recorded for edge `e`, both empty if there are none.
pub open spec fn slots_of(m: Map<(usize, usize), [usize; 2]>, e: [usize; 2]) -> [usize; 2] {
    if m.contains_key((e[0], e[1])) {
        m[(e[0], e[1])]
    } else {
        [NO_FACE, NO_FACE]
    }
}

/// The two faces on the sides of each edge, filled in incidence by
/// incidence; an edge met by a third face is an error.
pub open spec fn assign_slots(incs: Seq<([usize; 2], usize)>) -> Result<Map<(usize, usize), [usize; 2]>, Error>
    decreases incs.len(),
{
    if incs.len() == 0 {
        Ok(Map::empty())
    } else {
        match assign_slots(incs.drop_last()) {
            Err(x) => Err(x),
            Ok(m) => {
                let (e, fi) = incs.last();
                match place(slots_of(m, e), fi) {
                    Some(s) => Ok(m.insert((e[0], e[1]), s)),
                    None => Err(Error::NonManifoldEdge(e, slots_of(m, e), fi)),
                }
            },
        }
    }
}

/// For each edge, the two faces on its sides, `NO_FACE` marking a side
/// without a face, keyed by the edge's two vertices.
pub struct EdgeFaceSlots {
    slots: BTreeMap<(usize, usize), [usize; 2]>,
}

impl View for EdgeFaceSlots {
    type V = Map<(usize, usize), [usize; 2]>;

    closed spec fn view(&self) -> Map<(usize, usize), [usize; 2]> {
        self.slots@
    }
}

impl EdgeFaceSlots {
    /// The faces on the sides of edge `[e0, e1]`.
    pub fn lookup(&self, e0: usize, e1: usize) -> (r: [usize; 2])
        ensures
            r == slots_of(self@, [e0, e1]),
    {
        match self.slots.get(&(e0, e1)) {
            Some(s) => *s,
            None => [NO_FACE, NO_FACE],
        }
    }

    /// The edges with a face on one side only, in increasing order.
    pub fn boundary_edges(&self) -> (r: Vec<[usize; 2]>)
        ensures
            edges_increasing(r@),
            forall|e: [usize; 2]|
                #[trigger] r@.contains(e) <==> (self@.contains_key((e[0], e[1])) && self@[(e[0], e[1])][1] == NO_FACE),
    {
        let ghost sq = vstd::std_specs::btree::spec_keys_iter(&self.slots).remaining();
        proof {
            vstd::std_specs::btree::axiom_spec_keys_iter(&self.slots);
        }
        let mut found: Vec<[usize; 2]> = Vec::new();
        for k in it: self.slots.keys()
            invariant
                it.seq() == sq,
                sq.unref().to_set() == self.slots@.dom(),
                0 <= it.index() <= sq.len(),
                forall|e: [usize; 2]|
                    #[trigger] found@.contains(e) <==> (exists|i: int| 0 <= i < it.index() && *sq[i] == (e[0], e[1]))
                        && self.slots@.contains_key((e[0], e[1])) && self.slots@[(e[0], e[1])][1] == NO_FACE,
        {
            let key = *k;
            let s = match self.slots.get(&key) {
                Some(s) => *s,
                None => [NO_FACE, NO_FACE],
            };
            let ghost before = found@;
            let ghost idx = it.index();
            assert(*sq[idx] == key);
            assert(sq.unref().to_set().contains(key)) by {
                assert(sq.unref()[idx] == key);
            }
            if s[1] == NO_FACE {
                found.push([key.0, key.1]);
            }
            assert forall|e: [usize; 2]|
                #[trigger] found@.contains(e) <==> (exists|i: int| 0 <= i < idx + 1 && *sq[i] == (e[0], e[1]))
                    && self.slots@.contains_key((e[0], e[1])) && self.slots@[(e[0], e[1])][1] == NO_FACE by {
                if found@.contains(e) {
                    let q = choose|q: int| 0 <= q < found@.len() && found@[q] == e;
                    if q < before.len() {
                        assert(before[q] == e);
                        assert(before.contains(e));
                    } else {
                        assert(e == [key.0, key.1]);
                    }
                }
                if (exists|i: int| 0 <= i < idx + 1 && *sq[i] == (e[0], e[1])) && self.slots@.contains_key((e[0], e[1]))
                    && self.slots@[(e[0], e[1])][1] == NO_FACE {
                    let i = choose|i: int| 0 <= i < idx + 1 && *sq[i] == (e[0], e[1]);
                    if i < idx {
                        assert(before.contains(e));
                        let q = choose|q: int| 0 <= q < before.len() && before[q] == e;
                        assert(found@[q] == e);
                    } else {
                        assert(found@[found@.len() - 1] =~= e);
                    }
                }
            }
        }
        assert forall|e: [usize; 2]|
            #[trigger] found@.contains(e) <==> (self@.contains_key((e[0], e[1])) && self@[(e[0], e[1])][1] == NO_FACE) by {
            if self.slots@.contains_key((e[0], e[1])) {
                assert(sq.unref().to_set().contains((e[0], e[1])));
                let i = choose|i: int| 0 <= i < sq.unref().len() && sq.unref()[i] == (e[0], e[1]);
                assert(*sq[i] == (e[0], e[1]));
            }
        }
        crate::qem::sort_dedup_edges(&found)
    }
}

/// The faces on the sides of every edge of `faces`, face `i` being given
/// by its edges `faces[i]`; an edge with a third face is an error, naming
/// the edge, its two faces and the third.
pub fn edge_face_slots(faces: &Vec<Vec<[usize; 2]>>) -> (r: Result<EdgeFaceSlots, Error>)
    ensures
        match assign_slots(incidences(faces@.map_values(|f: Vec<[usize; 2]>| f@))) {
            Ok(m) => r matches Ok(s) && s@ == m,
            Err(x) => r == Err::<EdgeFaceSlots, Error>(x),
        },
        r is Err <==> edge_in_three_faces(faces@.map_values(|f: Vec<[usize; 2]>| f@)),
{
    let num_faces = faces.len();
    proof {
        assert(faces@.map_values(|f: Vec<[usize; 2]>| f@).len() == num_faces);
        lemma_slots_fail_on_third_face(faces@.map_values(|f: Vec<[usize; 2]>| f@));
    }
    let ghost fs = faces@.map_values(|f: Vec<[usize; 2]>| f@);
    let mut slots: BTreeMap<(usize, usize), [usize; 2]> = BTreeMap::new();
    assert(fs.take(0) =~= Seq::<Seq<[usize; 2]>>::empty());
    let mut fi: usize = 0;
    while fi < faces.len()
        invariant
            fs == faces@.map_values(|f: Vec<[usize; 2]>| f@),
            fi <= faces@.len(),
            (assign_slots(incidences(fs)) is Err) <==> edge_in_three_faces(fs),
            assign_slots(incidences(fs.take(fi as int))) == Ok::<Map<(usize, usize), [usize; 2]>, Error>(slots@),
        decreases faces@.len() - fi,
    {
        let face = &faces[fi];
        assert(face@ == fs[fi as int]);
        let ghost base = incidences(fs.take(fi as int));
        let mut k: usize = 0;
        while k < face.len()
            invariant
                fs == faces@.map_values(|f: Vec<[usize; 2]>| f@),
                fi < faces@.len(),
                face@ == fs[fi as int],
                k <= face@.len(),
                base == incidences(fs.take(fi as int)),
                (assign_slots(incidences(fs)) is Err) <==> edge_in_three_faces(fs),
                assign_slots(base + face@.take(k as int).map_values(|e: [usize; 2]| (e, fi))) == Ok::<Map<(usize, usize), [usize; 2]>, Error>(slots@),
            decreases face@.len() - k,
        {
            let e = face[k];
            let e0 = e[0];
            let e1 = e[1];
            let ghost incs = base + face@.take(k as int).map_values(|e: [usize; 2]| (e, fi));
            let ghost incs1 = base + face@.take(k + 1).map_values(|e: [usize; 2]| (e, fi));
            assert(face@.take(k + 1).map_values(|e: [usize; 2]| (e, fi)) =~= face@.take(k as int).map_values(|e: [usize; 2]| (e, fi)).push((e, fi)));
            assert(incs1 =~= incs.push((e, fi)));
            assert(incs1.drop_last() =~= incs);
            let cur = match slots.get(&(e0, e1)) {
                Some(s) => *s,
                None => [NO_FACE, NO_FACE],
            };
            assert(cur == slots_of(slots@, e));
            let placed = if cur[0] == NO_FACE || cur[0] == fi {
                Some([fi, cur[1]])
            } else if cur[1] == NO_FACE || cur[1] == fi {
                Some([cur[0], fi])
            } else {
                None
            };
            assert(placed == place(cur, fi));
            match placed {
                None => {
                    proof {
                        lemma_assign_slots_prefix(fs, fi as int, k as int);
                    }
                    return Err(Error::NonManifoldEdge(e, cur, fi));
                },
                Some(s) => {
                    slots.insert((e0, e1), s);
                },
            }
            k = k + 1;
        }
        proof {
            assert(face@.take(k as int) =~= face@);
            assert(fs.take(fi + 1).drop_last() =~= fs.take(fi as int));
            assert(fs.take(fi + 1).last() == face@);
            assert(incidences(fs.take(fi + 1)) == base + face@.map_values(|e: [usize; 2]| (e, ((fi + 1) - 1) as usize)));
            assert(face@.map_values(|e: [usize; 2]| (e, ((fi + 1) - 1) as usize)) =~= face@.map_values(|e: [usize; 2]| (e, fi)));
        }
        fi = fi + 1;
    }
    assert(fs.take(fi as int) =~= fs);
    Ok(EdgeFaceSlots { slots })
}

/// Whether the incidences pair face `f` with the edge from `k.0` to `k.1`.
pub open spec fn seen(incs: Seq<([usize; 2], usize)>, k: (usize, usize), f: usize) -> bool {
    exists|i: int| 0 <= i < incs.len() && (#[trigger] incs[i]).0[0] == k.0 && incs[i].0[1] == k.1 && incs[i].1 == f
}

/// Whether some edge is paired with three different faces.
pub open spec fn seen_three(incs: Seq<([usize; 2], usize)>) -> bool {
    exists|k: (usize, usize), a: usize, b: usize, c: usize|
        a != b && b != c && a != c && #[trigger] seen(incs, k, a) && #[trigger] seen(incs, k, b) && #[trigger] seen(
            incs,
            k,
            c,
        )
}

/// Whether face `f` of `faces` has the edge from `k.0` to `k.1`.
pub open spec fn face_has_edge(faces: Seq<Seq<[usize; 2]>>, f: int, k: (usize, usize)) -> bool {
    0 <= f < faces.len() && exists|j: int|
        0 <= j < faces[f].len() && (#[trigger] faces[f][j])[0] == k.0 && faces[f][j][1] == k.1
}

/// Whether some edge belongs to three different faces.
pub open spec fn edge_in_three_faces(faces: Seq<Seq<[usize; 2]>>) -> bool {
    exists|k: (usize, usize), a: int, b: int, c: int|
        a != b && b != c && a != c && #[trigger] face_has_edge(faces, a, k) && #[trigger] face_has_edge(faces, b, k)
            && #[trigger] face_has_edge(faces, c, k)
}

/// The slots hold, for each edge met, its first face and then its second
/// (if any), and every face met with the edge is one of them.
spec fn slots_match(m: Map<(usize, usize), [usize; 2]>, incs: Seq<([usize; 2], usize)>) -> bool {
    forall|k: (usize, usize)|
        #![trigger m.contains_key(k)]
        (m.contains_key(k) <==> exists|f: usize| seen(incs, k, f)) && (m.contains_key(k) ==> {
            &&& m[k][0] != NO_FACE
            &&& seen(incs, k, m[k][0])
            &&& (m[k][1] == NO_FACE || (m[k][1] != m[k][0] && seen(incs, k, m[k][1])))
            &&& forall|f: usize| #[trigger] seen(incs, k, f) ==> f == m[k][0] || f == m[k][1]
        })
}

proof fn lemma_seen_push(incs: Seq<([usize; 2], usize)>, x: ([usize; 2], usize), k: (usize, usize), f: usize)
    ensures
        seen(incs.push(x), k, f) <==> (seen(incs, k, f) || (x.0[0] == k.0 && x.0[1] == k.1 && x.1 == f)),
{
    let p = incs.push(x);
    if seen(incs, k, f) {
        let i = choose|i: int| 0 <= i < incs.len() && (#[trigger] incs[i]).0[0] == k.0 && incs[i].0[1] == k.1 && incs[i].1 == f;
        assert(p[i] == incs[i]);
    }
    if x.0[0] == k.0 && x.0[1] == k.1 && x.1 == f {
        assert(p[incs.len() as int] == x);
    }
    if seen(p, k, f) {
        let i = choose|i: int| 0 <= i < p.len() && (#[trigger] p[i]).0[0] == k.0 && p[i].0[1] == k.1 && p[i].1 == f;
        if i < incs.len() {
            assert(p[i] == incs[i]);
        }
    }
}

/// Filling the slots fails exactly when some edge is met by three
/// different faces (none of them the empty mark).
proof fn lemma_assign_slots_three(incs: Seq<([usize; 2], usize)>)
    requires
        forall|i: int| 0 <= i < incs.len() ==> (#[trigger] incs[i]).1 != NO_FACE,
    ensures
        (assign_slots(incs) is Err) <==> seen_three(incs),
        assign_slots(incs) matches Ok(m) ==> slots_match(m, incs),
    decreases incs.len(),
{
    if incs.len() == 0 {
        let m = Map::<(usize, usize), [usize; 2]>::empty();
        assert(slots_match(m, incs));
        if seen_three(incs) {
            let (k, a, b, c) = choose|k: (usize, usize), a: usize, b: usize, c: usize|
                a != b && b != c && a != c && #[trigger] seen(incs, k, a) && #[trigger] seen(incs, k, b) && #[trigger] seen(
                    incs,
                    k,
                    c,
                );
        }
    } else {
        let d = incs.drop_last();
        let x = incs.last();
        assert(incs =~= d.push(x));
        lemma_assign_slots_three(d);
        let (e, fi) = x;
        let ke = (e[0], e[1]);
        assert forall|k: (usize, usize), f: usize| #[trigger] seen(incs, k, f) <==> (seen(d, k, f) || (e[0] == k.0 && e[1]
            == k.1 && fi == f)) by {
            lemma_seen_push(d, x, k, f);
        }
        // a third face seen before stays seen
        if seen_three(d) {
            let (k, a, b, c) = choose|k: (usize, usize), a: usize, b: usize, c: usize|
                a != b && b != c && a != c && #[trigger] seen(d, k, a) && #[trigger] seen(d, k, b) && #[trigger] seen(
                    d,
                    k,
                    c,
                );
            assert(seen(incs, k, a) && seen(incs, k, b) && seen(incs, k, c));
        }
        match assign_slots(d) {
            Err(_) => {},
            Ok(m) => {
                assert(fi != NO_FACE);
                let sl = slots_of(m, e);
                match place(sl, fi) {
                    None => {
                        assert(m.contains_key(ke));
                        assert(seen(incs, ke, sl[0]) && seen(incs, ke, sl[1]) && seen(incs, ke, fi));
                        assert(seen_three(incs));
                    },
                    Some(s) => {
                        let m2 = m.insert(ke, s);
                        assert(assign_slots(incs) == Ok::<Map<(usize, usize), [usize; 2]>, Error>(m2));
                        assert forall|k: (usize, usize)|
                            #![trigger m2.contains_key(k)]
                            (m2.contains_key(k) <==> exists|f: usize| seen(incs, k, f)) && (m2.contains_key(k) ==> {
                                &&& m2[k][0] != NO_FACE
                                &&& seen(incs, k, m2[k][0])
                                &&& (m2[k][1] == NO_FACE || (m2[k][1] != m2[k][0] && seen(incs, k, m2[k][1])))
                                &&& forall|f: usize| #[trigger] seen(incs, k, f) ==> f == m2[k][0] || f == m2[k][1]
                            }) by {
                            if k == ke {
                                assert(seen(incs, k, fi));
                                if m.contains_key(k) {
                                    assert(seen(d, k, m[k][0]));
                                }
                            } else {
                                assert(m.contains_key(k) == m2.contains_key(k));
                                if exists|f: usize| seen(incs, k, f) {
                                    let f = choose|f: usize| seen(incs, k, f);
                                    assert(seen(d, k, f));
                                }
                                if m.contains_key(k) {
                                    let f = choose|f: usize| seen(d, k, f);
                                    assert(seen(incs, k, f));
                                }
                            }
                        }
                        assert(slots_match(m2, incs));
                        if seen_three(incs) {
                            let (k, a, b, c) = choose|k: (usize, usize), a: usize, b: usize, c: usize|
                                a != b && b != c && a != c && #[trigger] seen(incs, k, a) && #[trigger] seen(incs, k, b)
                                    && #[trigger] seen(incs, k, c);
                            assert(m2.contains_key(k));
                        }
                    },
                }
            },
        }
    }
}

proof fn lemma_seen_incidences(fs: Seq<Seq<[usize; 2]>>)
    requires
        fs.len() <= usize::MAX,
    ensures
        forall|i: int| 0 <= i < incidences(fs).len() ==> (#[trigger] incidences(fs)[i]).1 < fs.len(),
        forall|k: (usize, usize), f: usize| #[trigger] seen(incidences(fs), k, f) <==> face_has_edge(fs, f as int, k),
    decreases fs.len(),
{
    if fs.len() > 0 {
        let d = fs.drop_last();
        lemma_seen_incidences(d);
        let n1 = (fs.len() - 1) as usize;
        let a = incidences(d);
        let b = fs.last().map_values(|e: [usize; 2]| (e, n1));
        let all = incidences(fs);
        assert(all == a + b);
        assert forall|i: int| 0 <= i < all.len() implies (#[trigger] all[i]).1 < fs.len() by {
            if i < a.len() {
                assert(all[i] == a[i]);
            } else {
                assert(all[i] == b[i - a.len()]);
            }
        }
        assert forall|k: (usize, usize), f: usize| #[trigger] seen(all, k, f) <==> face_has_edge(fs, f as int, k) by {
            if seen(all, k, f) {
                let i = choose|i: int| 0 <= i < all.len() && (#[trigger] all[i]).0[0] == k.0 && all[i].0[1] == k.1 && all[i].1 == f;
                if i < a.len() {
                    assert(all[i] == a[i]);
                    assert(seen(a, k, f));
                    assert(face_has_edge(d, f as int, k));
                    let j = choose|j: int| 0 <= j < d[f as int].len() && (#[trigger] d[f as int][j])[0] == k.0 && d[f as int][j][1] == k.1;
                    assert(fs[f as int][j] == d[f as int][j]);
                } else {
                    let j = i - a.len();
                    assert(all[i] == b[j]);
                    assert(fs[f as int][j] == fs.last()[j]);
                }
            }
            if face_has_edge(fs, f as int, k) {
                let j = choose|j: int| 0 <= j < fs[f as int].len() && (#[trigger] fs[f as int][j])[0] == k.0 && fs[f as int][j][1] == k.1;
                if (f as int) < d.len() {
                    assert(d[f as int][j] == fs[f as int][j]);
                    assert(face_has_edge(d, f as int, k));
                    assert(seen(a, k, f));
                    let i = choose|i: int| 0 <= i < a.len() && (#[trigger] a[i]).0[0] == k.0 && a[i].0[1] == k.1 && a[i].1 == f;
                    assert(all[i] == a[i]);
                } else {
                    assert(f == n1);
                    assert(all[a.len() + j] == b[j]);
                }
            }
        }
    }
}

/// Filling the slots of every edge of `faces` fails exactly when some edge
/// belongs to three different faces.
pub proof fn lemma_slots_fail_on_third_face(fs: Seq<Seq<[usize; 2]>>)
    requires
        fs.len() <= usize::MAX,
    ensures
        (assign_slots(incidences(fs)) is Err) <==> edge_in_three_faces(fs),
{
    lemma_seen_incidences(fs);
    let incs = incidences(fs);
    assert forall|i: int| 0 <= i < incs.len() implies (#[trigger] incs[i]).1 != NO_FACE by {
        assert(incs[i].1 < fs.len());
    }
    lemma_assign_slots_three(incs);
    if seen_three(incs) {
        let (k, a, b, c) = choose|k: (usize, usize), a: usize, b: usize, c: usize|
            a != b && b != c && a != c && #[trigger] seen(incs, k, a) && #[trigger] seen(incs, k, b) && #[trigger] seen(
                incs,
                k,
                c,
            );
        assert(face_has_edge(fs, a as int, k) && face_has_edge(fs, b as int, k) && face_has_edge(fs, c as int, k));
    }
    if edge_in_three_faces(fs) {
        let (k, a, b, c) = choose|k: (usize, usize), a: int, b: int, c: int|
            a != b && b != c && a != c && #[trigger] face_has_edge(fs, a, k) && #[trigger] face_has_edge(fs, b, k)
                && #[trigger] face_has_edge(fs, c, k);
        assert(face_has_edge(fs, (a as usize) as int, k));
        assert(face_has_edge(fs, (b as usize) as int, k));
        assert(face_has_edge(fs, (c as usize) as int, k));
        assert(seen(incs, k, a as usize) && seen(incs, k, b as usize) && seen(incs, k, c as usize));
    }
}

/// The slots only hold faces that have the edge: wherever filling the
/// slots from the incidences `incs` succeeds, each face recorded for an
/// edge comes with that edge among the incidences.
pub proof fn lemma_slots_hold_incident_faces(incs: Seq<([usize; 2], usize)>)
    ensures
        assign_slots(incs) matches Ok(m) ==> forall|k: (usize, usize), s: int|
            #![trigger m[k][s]]
            m.contains_key(k) && 0 <= s < 2 && m[k][s] != NO_FACE ==> exists|i: int|
                0 <= i < incs.len() && #[trigger] incs[i] == ([k.0, k.1], m[k][s]),
    decreases incs.len(),
{
    if incs.len() > 0 {
        let d = incs.drop_last();
        lemma_slots_hold_incident_faces(d);
        if let Ok(m0) = assign_slots(d) {
            let (e, fi) = incs.last();
            if let Some(sl) = place(slots_of(m0, e), fi) {
                let m = m0.insert((e[0], e[1]), sl);
                assert(assign_slots(incs) == Ok::<Map<(usize, usize), [usize; 2]>, Error>(m));
                assert forall|k: (usize, usize), s: int|
                    #![trigger m[k][s]]
                    m.contains_key(k) && 0 <= s < 2 && m[k][s] != NO_FACE implies exists|i: int|
                        0 <= i < incs.len() && #[trigger] incs[i] == ([k.0, k.1], m[k][s]) by {
                    if k == (e[0], e[1]) {
                        if m[k][s] == fi {
                            assert(incs[incs.len() - 1] == (e, fi));
                            assert(e =~= [k.0, k.1]);
                        } else {
                            let old = slots_of(m0, e);
                            assert(m[k][s] == old[s]);
                            assert(old[s] != NO_FACE);
                            assert(m0.contains_key((e[0], e[1])));
                            assert(m0[(e[0], e[1])][s] == old[s]);
                            let i = choose|i: int| 0 <= i < d.len() && #[trigger] d[i] == ([k.0, k.1], m0[k][s]);
                            assert(incs[i] == d[i]);
                        }
                    } else {
                        assert(m0.contains_key(k) && m[k] == m0[k]);
                        let i = choose|i: int| 0 <= i < d.len() && #[trigger] d[i] == ([k.0, k.1], m0[k][s]);
                        assert(incs[i] == d[i]);
                    }
                }
            }
        }
    }
}

/// An error among the first incidences stays an error when more follow.
proof fn lemma_assign_slots_err(incs: Seq<([usize; 2], usize)>, more: Seq<([usize; 2], usize)>)
    requires
        assign_slots(incs) is Err,
    ensures
        assign_slots(incs + more) == assign_slots(incs),
    decreases more.len(),
{
    if more.len() > 0 {
        lemma_assign_slots_err(incs, more.drop_last());
        assert((incs + more).drop_last() =~= incs + more.drop_last());
    } else {
        assert(incs + more =~= incs);
    }
}

proof fn lemma_assign_slots_prefix(fs: Seq<Seq<[usize; 2]>>, fi: int, k: int)
    requires
        0 <= fi < fs.len(),
        0 <= k < fs[fi].len(),
        assign_slots(incidences(fs.take(fi)) + fs[fi].take(k + 1).map_values(|e: [usize; 2]| (e, fi as usize))) is Err,
    ensures
        assign_slots(incidences(fs)) == assign_slots(incidences(fs.take(fi)) + fs[fi].take(k + 1).map_values(|e: [usize; 2]| (e, fi as usize))),
{
    let p0 = incidences(fs.take(fi));
    let mapped = fs[fi].map_values(|e: [usize; 2]| (e, fi as usize));
    let pre = p0 + fs[fi].take(k + 1).map_values(|e: [usize; 2]| (e, fi as usize));
    lemma_incidences_prefix(fs, fi + 1);
    assert(fs.take(fi + 1).drop_last() =~= fs.take(fi));
    assert(fs.take(fi + 1).last() == fs[fi]);
    let whole1 = incidences(fs.take(fi + 1));
    assert(whole1 == p0 + fs[fi].map_values(|e: [usize; 2]| (e, ((fi + 1) - 1) as usize)));
    assert(fs[fi].map_values(|e: [usize; 2]| (e, ((fi + 1) - 1) as usize)) =~= mapped);
    let all = incidences(fs);
    assert(all =~= pre + all.skip(pre.len() as int)) by {
        assert(all.take(whole1.len() as int) == whole1);
        assert forall|i: int| 0 <= i < pre.len() implies all[i] == pre[i] by {
            assert(whole1[i] == all[i]);
            if i < p0.len() {
            } else {
                assert(pre[i] == fs[fi].take(k + 1).map_values(|e: [usize; 2]| (e, fi as usize))[i - p0.len()]);
                assert(whole1[i] == mapped[i - p0.len()]);
            }
        }
    }
    lemma_assign_slots_err(pre, all.skip(pre.len() as int));
}

proof fn lemma_incidences_prefix(fs: Seq<Seq<[usize; 2]>>, n: int)
    requires
        0 <= n <= fs.len(),
    ensures
        incidences(fs.take(n)).len() <= incidences(fs).len(),
        incidences(fs).take(incidences(fs.take(n)).len() as int) == incidences(fs.take(n)),
    decreases fs.len(),
{
    if n == fs.len() {
        assert(fs.take(n) =~= fs);
        assert(incidences(fs).take(incidences(fs).len() as int) =~= incidences(fs));
    } else {
        let d = fs.drop_last();
        lemma_incidences_prefix(d, n);
        assert(d.take(n) =~= fs.take(n));
        let a = incidences(d);
        let b = fs.last().map_values(|e: [usize; 2]| (e, (fs.len() - 1) as usize));
        assert(incidences(fs) == a + b);
        let p = incidences(fs.take(n));
        assert((a + b).take(p.len() as int) =~= a.take(p.len() as int));
    }
}

} // verus!
