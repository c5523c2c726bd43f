//! The integer side of resampling a face into pixel quads: which pixels
//! neighbour which, and the bridging faces that stitch neighbouring pixel
//! quads together.
use vstd::prelude::*;
use crate::options::FaceLabel;

verus! {

/// A sampled pixel: its grid coordinates, the four corners of its quad
/// (left, right, upper right, upper left) and the index of that quad face.
#[derive(Debug, Clone, Copy, PartialEq, Eq)]
pub struct Pixel {
    pub at: [i32; 2],
    pub verts: [usize; 4],
    pub face: usize,
}

/// Whether grid coordinates `a` come before `b`: by the first coordinate,
/// then by the second.
pub open spec fn key_lt(a: [i32; 2], b: [i32; 2]) -> bool {
    a[0] < b[0] || (a[0] == b[0] && a[1] < b[1])
}

/// Whether the pixels come in strictly increasing order of coordinates.
pub open spec fn keys_increasing(px: Seq<Pixel>) -> bool {
    forall|i: int, j: int| 0 <= i < j < px.len() ==> key_lt(#[trigger] px[i].at, #[trigger] px[j].at)
}

/// Whether the pixel at `(x, y)` is one of `px`.
pub open spec fn has_pixel(px: Seq<Pixel>, x: int, y: int) -> bool {
    exists|i: int| 0 <= i < px.len() && #[trigger] px[i].at[0] == x && px[i].at[1] == y
}

/// The pixel of `px` at `(x, y)`, if there is one.
pub open spec fn pixel_at(px: Seq<Pixel>, x: int, y: int) -> Option<Pixel> {
    if has_pixel(px, x, y) {
        Some(px[choose|i: int| 0 <= i < px.len() && #[trigger] px[i].at[0] == x && px[i].at[1] == y])
    } else {
        None
    }
}

/// Whether every coordinate has a neighbouring value on both sides.
pub open spec fn coords_inner(px: Seq<Pixel>) -> bool {
    forall|i: int|
        0 <= i < px.len() ==> i32::MIN < (#[trigger] px[i]).at[0] < i32::MAX && i32::MIN < px[i].at[1] < i32::MAX
}

/// The corner faces to the right of pixel `p` of `px`: a triangle to the
/// lower right where the right and lower neighbours exist but not the
/// diagonal one, a quad to the upper right where only the diagonal
/// neighbour there exists.
pub open spec fn right_corner_faces(px: Seq<Pixel>, p: Pixel) -> Seq<(FaceLabel, Seq<usize>)> {
    let u = p.at[0] as int;
    let v = p.at[1] as int;
    let right = pixel_at(px, u + 1, v);
    let s1 = match (pixel_at(px, u + 1, v + 1), right, pixel_at(px, u, v + 1)) {
        (None, Some(a), Some(b)) => seq![(FaceLabel::BridgeCorner, seq![p.verts[2], a.verts[3], b.verts[1]])],
        _ => Seq::empty(),
    };
    let s2 = match (pixel_at(px, u + 1, v - 1), right, pixel_at(px, u, v - 1)) {
        (Some(a), None, None) => seq![(FaceLabel::BridgeCorner, seq![p.verts[1], a.verts[3], a.verts[0], p.verts[0]])],
        _ => Seq::empty(),
    };
    s1 + s2
}

/// The bridge quads from pixel `p` of `px` to its left and upper neighbours.
pub open spec fn bridge_quads(px: Seq<Pixel>, p: Pixel) -> Seq<(FaceLabel, Seq<usize>)> {
    let u = p.at[0] as int;
    let v = p.at[1] as int;
    let s3 = match pixel_at(px, u - 1, v) {
        Some(a) => seq![(FaceLabel::Bridge(p.face, a.face), seq![p.verts[3], a.verts[2], a.verts[1], p.verts[0]])],
        None => Seq::empty(),
    };
    let s4 = match pixel_at(px, u, v - 1) {
        Some(a) => seq![(FaceLabel::Bridge(p.face, a.face), seq![a.verts[3], a.verts[2], p.verts[1], p.verts[0]])],
        None => Seq::empty(),
    };
    s3 + s4
}

/// The face closing the upper left corner of pixel `p` of `px` among its
/// neighbours there, if any.
pub open spec fn upper_left_face(px: Seq<Pixel>, p: Pixel) -> Seq<(FaceLabel, Seq<usize>)> {
    let u = p.at[0] as int;
    let v = p.at[1] as int;
    let l = p.verts[0];
    match (pixel_at(px, u - 1, v - 1), pixel_at(px, u, v - 1), pixel_at(px, u - 1, v)) {
        (Some(a), Some(b), Some(c)) => seq![(FaceLabel::BridgeCorner, seq![l, c.verts[1], a.verts[2], b.verts[3]])],
        (None, Some(b), Some(c)) => seq![(FaceLabel::BridgeCorner, seq![l, c.verts[1], b.verts[3]])],
        (Some(a), None, Some(c)) => seq![(FaceLabel::BridgeCorner, seq![l, c.verts[1], a.verts[2]])],
        (Some(a), Some(b), None) => seq![(FaceLabel::BridgeCorner, seq![l, a.verts[2], b.verts[3]])],
        (Some(a), None, None) => seq![(FaceLabel::BridgeCorner, seq![l, a.verts[2], a.verts[1], p.verts[1]])],
        _ => Seq::empty(),
    }
}

/// The faces stitched in for pixel `p` of `px`.
pub open spec fn pixel_faces(px: Seq<Pixel>, p: Pixel) -> Seq<(FaceLabel, Seq<usize>)> {
    right_corner_faces(px, p) + bridge_quads(px, p) + upper_left_face(px, p)
}

/// The faces stitched in for the first `n` pixels of `px`, pixel after pixel.
pub open spec fn bridge_faces(px: Seq<Pixel>, n: int) -> Seq<(FaceLabel, Seq<usize>)>
    decreases n,
{
    if n <= 0 {
        Seq::empty()
    } else {
        bridge_faces(px, n - 1) + pixel_faces(px, px[n - 1])
    }
}

/// The labelled faces of `out`, each face given by its corners.
pub open spec fn labelled_faces(out: Seq<(FaceLabel, Vec<usize>)>) -> Seq<(FaceLabel, Seq<usize>)> {
    out.map_values(|f: (FaceLabel, Vec<usize>)| (f.0, f.1@))
}

proof fn lemma_pixel_at_index(px: Seq<Pixel>, i: int)
    requires
        keys_increasing(px),
        0 <= i < px.len(),
    ensures
        pixel_at(px, px[i].at[0] as int, px[i].at[1] as int) == Some(px[i]),
{
    let x = px[i].at[0] as int;
    let y = px[i].at[1] as int;
    assert(px[i].at[0] == x && px[i].at[1] == y);
    let j = choose|j: int| 0 <= j < px.len() && #[trigger] px[j].at[0] == x && px[j].at[1] == y;
    if j < i {
        assert(key_lt(px[j].at, px[i].at));
    } else if j > i {
        assert(key_lt(px[i].at, px[j].at));
    }
}

/// The position in `px` of the pixel at `(x, y)`, found by bisection.
fn find_pixel(px: &Vec<Pixel>, x: i32, y: i32) -> (r: Option<usize>)
    requires
        keys_increasing(px@),
    ensures
        match r {
            Some(i) => i < px@.len() && px@[i as int].at[0] == x && px@[i as int].at[1] == y,
            None => !has_pixel(px@, x as int, y as int),
        },
{
    let mut lo: usize = 0;
    let mut hi: usize = px.len();
    while lo < hi
        invariant
            0 <= lo <= hi <= px@.len(),
            keys_increasing(px@),
            forall|i: int| 0 <= i < lo ==> key_lt(#[trigger] px@[i].at, [x, y]),
            forall|i: int| hi <= i < px@.len() ==> key_lt([x, y], #[trigger] px@[i].at),
        decreases hi - lo,
    {
        let mid = lo + (hi - lo) / 2;
        let k = px[mid].at;
        if k[0] == x && k[1] == y {
            return Some(mid);
        } else if k[0] < x || (k[0] == x && k[1] < y) {
            assert forall|i: int| 0 <= i < mid + 1 implies key_lt(#[trigger] px@[i].at, [x, y]) by {
                if i < mid {
                    assert(key_lt(px@[i].at, px@[mid as int].at));
                }
            }
            lo = mid + 1;
        } else {
            assert forall|i: int| mid <= i < px@.len() implies key_lt([x, y], #[trigger] px@[i].at) by {
                if i > mid {
                    assert(key_lt(px@[mid as int].at, px@[i].at));
                }
            }
            hi = mid;
        }
    }
    assert(!has_pixel(px@, x as int, y as int)) by {
        if has_pixel(px@, x as int, y as int) {
            let i = choose|i: int| 0 <= i < px@.len() && #[trigger] px@[i].at[0] == x && px@[i].at[1] == y;
            if i < lo {
                assert(key_lt(px@[i].at, [x, y]));
            } else {
                assert(key_lt([x, y], px@[i].at));
            }
        }
    }
    None
}

/// The pixel of `px` at `(x, y)`.
fn get_pixel(px: &Vec<Pixel>, x: i32, y: i32) -> (r: Option<Pixel>)
    requires
        keys_increasing(px@),
    ensures
        r == pixel_at(px@, x as int, y as int),
{
    match find_pixel(px, x, y) {
        Some(i) => {
            proof {
                lemma_pixel_at_index(px@, i as int);
            }
            Some(px[i])
        },
        None => None,
    }
}

fn push_face(out: &mut Vec<(FaceLabel, Vec<usize>)>, label: FaceLabel, f: Vec<usize>)
    ensures
        labelled_faces(final(out)@) == labelled_faces(old(out)@).push((label, f@)),
{
    out.push((label, f));
    assert(labelled_faces(out@) =~= labelled_faces(old(out)@).push((label, f@)));
}

fn push_right_corner_faces(px: &Vec<Pixel>, p: Pixel, out: &mut Vec<(FaceLabel, Vec<usize>)>)
    requires
        keys_increasing(px@),
        i32::MIN < p.at[0] < i32::MAX && i32::MIN < p.at[1] < i32::MAX,
    ensures
        labelled_faces(final(out)@) == labelled_faces(old(out)@) + right_corner_faces(px@, p),
{
    let u = p.at[0];
    let v = p.at[1];
    let right = get_pixel(px, u + 1, v);
    let down_right = get_pixel(px, u + 1, v + 1);
    let down = get_pixel(px, u, v + 1);
    let up_right = get_pixel(px, u + 1, v - 1);
    let up = get_pixel(px, u, v - 1);
    let ghost start = labelled_faces(out@);
    if down_right.is_none() {
        if let Some(a) = right {
            if let Some(b) = down {
                push_face(out, FaceLabel::BridgeCorner, vec![p.verts[2], a.verts[3], b.verts[1]]);
            }
        }
    }
    let ghost mid = labelled_faces(out@);
    if let Some(a) = up_right {
        if right.is_none() && up.is_none() {
            push_face(out, FaceLabel::BridgeCorner, vec![p.verts[1], a.verts[3], a.verts[0], p.verts[0]]);
        }
    }
    proof {
        let s1 = match (down_right, right, down) {
            (None, Some(a), Some(b)) => seq![(FaceLabel::BridgeCorner, seq![p.verts[2], a.verts[3], b.verts[1]])],
            _ => Seq::<(FaceLabel, Seq<usize>)>::empty(),
        };
        let s2 = match (up_right, right, up) {
            (Some(a), None, None) => seq![(FaceLabel::BridgeCorner, seq![p.verts[1], a.verts[3], a.verts[0], p.verts[0]])],
            _ => Seq::<(FaceLabel, Seq<usize>)>::empty(),
        };
        assert(mid =~= start + s1);
        assert(labelled_faces(out@) =~= start + (s1 + s2));
    }
}

fn push_bridge_quads(px: &Vec<Pixel>, p: Pixel, out: &mut Vec<(FaceLabel, Vec<usize>)>)
    requires
        keys_increasing(px@),
        i32::MIN < p.at[0] < i32::MAX && i32::MIN < p.at[1] < i32::MAX,
    ensures
        labelled_faces(final(out)@) == labelled_faces(old(out)@) + bridge_quads(px@, p),
{
    let u = p.at[0];
    let v = p.at[1];
    let left = get_pixel(px, u - 1, v);
    let up = get_pixel(px, u, v - 1);
    let ghost start = labelled_faces(out@);
    if let Some(a) = left {
        push_face(out, FaceLabel::Bridge(p.face, a.face), vec![p.verts[3], a.verts[2], a.verts[1], p.verts[0]]);
    }
    let ghost mid = labelled_faces(out@);
    if let Some(a) = up {
        push_face(out, FaceLabel::Bridge(p.face, a.face), vec![a.verts[3], a.verts[2], p.verts[1], p.verts[0]]);
    }
    proof {
        let s3 = match left {
            Some(a) => seq![(FaceLabel::Bridge(p.face, a.face), seq![p.verts[3], a.verts[2], a.verts[1], p.verts[0]])],
            None => Seq::<(FaceLabel, Seq<usize>)>::empty(),
        };
        let s4 = match up {
            Some(a) => seq![(FaceLabel::Bridge(p.face, a.face), seq![a.verts[3], a.verts[2], p.verts[1], p.verts[0]])],
            None => Seq::<(FaceLabel, Seq<usize>)>::empty(),
        };
        assert(mid =~= start + s3);
        assert(labelled_faces(out@) =~= start + (s3 + s4));
    }
}

fn push_upper_left_face(px: &Vec<Pixel>, p: Pixel, out: &mut Vec<(FaceLabel, Vec<usize>)>)
    requires
        keys_increasing(px@),
        i32::MIN < p.at[0] < i32::MAX && i32::MIN < p.at[1] < i32::MAX,
    ensures
        labelled_faces(final(out)@) == labelled_faces(old(out)@) + upper_left_face(px@, p),
{
    let u = p.at[0];
    let v = p.at[1];
    let l = p.verts[0];
    let up_left = get_pixel(px, u - 1, v - 1);
    let up = get_pixel(px, u, v - 1);
    let left = get_pixel(px, u - 1, v);
    let ghost start = labelled_faces(out@);
    match (up_left, up, left) {
        (Some(a), Some(b), Some(c)) => {
            push_face(out, FaceLabel::BridgeCorner, vec![l, c.verts[1], a.verts[2], b.verts[3]]);
        },
        (None, Some(b), Some(c)) => {
            push_face(out, FaceLabel::BridgeCorner, vec![l, c.verts[1], b.verts[3]]);
        },
        (Some(a), None, Some(c)) => {
            push_face(out, FaceLabel::BridgeCorner, vec![l, c.verts[1], a.verts[2]]);
        },
        (Some(a), Some(b), None) => {
            push_face(out, FaceLabel::BridgeCorner, vec![l, a.verts[2], b.verts[3]]);
        },
        (Some(a), None, None) => {
            push_face(out, FaceLabel::BridgeCorner, vec![l, a.verts[2], a.verts[1], p.verts[1]]);
        },
        _ => {
            assert(upper_left_face(px@, p) =~= Seq::<(FaceLabel, Seq<usize>)>::empty());
            assert(labelled_faces(out@) =~= start + upper_left_face(px@, p));
        },
    }
}

/// The faces that stitch the pixel quads `px` together, with their labels:
/// for each pixel in turn, the corner faces to its right, the bridge quads
/// to its left and upper neighbours, and the face closing its upper left
/// corner.
pub fn pixel_bridges(px: &Vec<Pixel>) -> (r: Vec<(FaceLabel, Vec<usize>)>)
    requires
        keys_increasing(px@),
        coords_inner(px@),
    ensures
        labelled_faces(r@) == bridge_faces(px@, px@.len() as int),
{
    let mut out: Vec<(FaceLabel, Vec<usize>)> = Vec::new();
    let mut k: usize = 0;
    assert(labelled_faces(out@) =~= Seq::<(FaceLabel, Seq<usize>)>::empty());
    while k < px.len()
        invariant
            k <= px@.len(),
            keys_increasing(px@),
            coords_inner(px@),
            labelled_faces(out@) == bridge_faces(px@, k as int),
        decreases px@.len() - k,
    {
        let p = px[k];
        assert(i32::MIN < p.at[0] < i32::MAX && i32::MIN < p.at[1] < i32::MAX);
        let ghost start = labelled_faces(out@);
        push_right_corner_faces(px, p, &mut out);
        push_bridge_quads(px, p, &mut out);
        push_upper_left_face(px, p, &mut out);
        assert(labelled_faces(out@) =~= start + pixel_faces(px@, p));
        assert(px@[k as int] == p);
        k = k + 1;
    }
    out
}

// ---------------------------------------------------------------------------
// Pixels with only diagonal neighbours
// ---------------------------------------------------------------------------

/// The coordinates of the pixels of `px`.
pub open spec fn pixel_keys(px: Seq<Pixel>) -> Set<(int, int)> {
    Set::new(|c: (int, int)| has_pixel(px, c.0, c.1))
}

/// Whether a cell next to `(x, y)` along a grid line is in `s`.
pub open spec fn has_direct(s: Set<(int, int)>, x: int, y: int) -> bool {
    s.contains((x - 1, y)) || s.contains((x + 1, y)) || s.contains((x, y - 1)) || s.contains((x, y + 1))
}

/// Whether a cell diagonally next to `(x, y)` is in `s`.
pub open spec fn has_diagonal(s: Set<(int, int)>, x: int, y: int) -> bool {
    s.contains((x - 1, y - 1)) || s.contains((x - 1, y + 1)) || s.contains((x + 1, y - 1)) || s.contains((x + 1, y + 1))
}

/// The cells after visiting `c`: a cell of `s` with a diagonal neighbour
/// but no direct one leaves.
pub open spec fn prune_step(s: Set<(int, int)>, c: [i32; 2]) -> Set<(int, int)> {
    let x = c[0] as int;
    let y = c[1] as int;
    if s.contains((x, y)) && !has_direct(s, x, y) && has_diagonal(s, x, y) {
        s.remove((x, y))
    } else {
        s
    }
}

/// The cells after visiting the coordinates `cs` in order.
pub open spec fn prune_all(s: Set<(int, int)>, cs: Seq<[i32; 2]>) -> Set<(int, int)>
    decreases cs.len(),
{
    if cs.len() == 0 {
        s
    } else {
        prune_step(prune_all(s, cs.drop_last()), cs.last())
    }
}

/// The cells of the pixels of `px` still marked alive.
pub open spec fn alive_keys(px: Seq<Pixel>, alive: Seq<bool>) -> Set<(int, int)> {
    Set::new(
        |c: (int, int)|
            exists|i: int| 0 <= i < px.len() && #[trigger] px[i].at[0] == c.0 && px[i].at[1] == c.1 && alive[i],
    )
}

fn alive_at(px: &Vec<Pixel>, alive: &Vec<bool>, x: i32, y: i32) -> (r: bool)
    requires
        keys_increasing(px@),
        alive@.len() == px@.len(),
    ensures
        r == alive_keys(px@, alive@).contains((x as int, y as int)),
{
    match find_pixel(px, x, y) {
        Some(i) => {
            let r = alive[i];
            proof {
                if alive_keys(px@, alive@).contains((x as int, y as int)) {
                    let j = choose|j: int|
                        0 <= j < px@.len() && #[trigger] px@[j].at[0] == x && px@[j].at[1] == y && alive@[j];
                    if j < i {
                        assert(key_lt(px@[j].at, px@[i as int].at));
                    } else if j > i {
                        assert(key_lt(px@[i as int].at, px@[j].at));
                    }
                }
            }
            r
        },
        None => false,
    }
}

/// Visits the cells `coords` in order and drops each pixel that then has a
/// diagonal neighbour but no direct one; returns the pixels kept, in order,
/// and the faces of the pixels dropped, in the order of `px`.
pub fn prune_diagonal_only(px: &Vec<Pixel>, coords: &Vec<[i32; 2]>) -> (r: (Vec<Pixel>, Vec<usize>))
    requires
        keys_increasing(px@),
        coords_inner(px@),
    ensures
        ({
            let s = prune_all(pixel_keys(px@), coords@);
            &&& r.0@ == px@.filter(|p: Pixel| s.contains((p.at[0] as int, p.at[1] as int)))
            &&& r.1@ == px@.filter(|p: Pixel| !s.contains((p.at[0] as int, p.at[1] as int))).map_values(|p: Pixel| p.face)
        }),
{
    let mut alive: Vec<bool> = Vec::new();
    let mut t: usize = 0;
    while t < px.len()
        invariant
            t <= px@.len(),
            alive@.len() == t,
            forall|q: int| 0 <= q < t ==> #[trigger] alive@[q],
        decreases px@.len() - t,
    {
        alive.push(true);
        t = t + 1;
    }
    assert(alive_keys(px@, alive@) =~= pixel_keys(px@));
    let mut k: usize = 0;
    while k < coords.len()
        invariant
            k <= coords@.len(),
            keys_increasing(px@),
            coords_inner(px@),
            alive@.len() == px@.len(),
            alive_keys(px@, alive@) == prune_all(pixel_keys(px@), coords@.take(k as int)),
        decreases coords@.len() - k,
    {
        let c = coords[k];
        let x = c[0];
        let y = c[1];
        let ghost s = alive_keys(px@, alive@);
        assert(coords@.take(k + 1).drop_last() =~= coords@.take(k as int));
        assert(coords@.take(k + 1).last() == c);
        match find_pixel(px, x, y) {
            Some(i) => {
                if alive[i] {
                    assert(i32::MIN < px@[i as int].at[0] < i32::MAX && i32::MIN < px@[i as int].at[1] < i32::MAX);
                    assert(s.contains((x as int, y as int)));
                    let direct = alive_at(px, &alive, x - 1, y) || alive_at(px, &alive, x + 1, y) || alive_at(
                        px,
                        &alive,
                        x,
                        y - 1,
                    ) || alive_at(px, &alive, x, y + 1);
                    let diagonal = alive_at(px, &alive, x - 1, y - 1) || alive_at(px, &alive, x - 1, y + 1)
                        || alive_at(px, &alive, x + 1, y - 1) || alive_at(px, &alive, x + 1, y + 1);
                    assert(direct == has_direct(s, x as int, y as int));
                    assert(diagonal == has_diagonal(s, x as int, y as int));
                    if !direct && diagonal {
                        let ghost old_alive = alive@;
                        alive.set(i, false);
                        assert forall|c2: (int, int)| #[trigger] alive_keys(px@, alive@).contains(c2) == s.remove(
                            (x as int, y as int),
                        ).contains(c2) by {
                            if alive_keys(px@, alive@).contains(c2) {
                                let j = choose|j: int|
                                    0 <= j < px@.len() && #[trigger] px@[j].at[0] == c2.0 && px@[j].at[1] == c2.1
                                        && alive@[j];
                                assert(j != i);
                                if j < i {
                                    assert(key_lt(px@[j].at, px@[i as int].at));
                                } else {
                                    assert(key_lt(px@[i as int].at, px@[j].at));
                                }
                                assert(s.contains(c2));
                            }
                            if s.remove((x as int, y as int)).contains(c2) {
                                let j = choose|j: int|
                                    0 <= j < px@.len() && #[trigger] px@[j].at[0] == c2.0 && px@[j].at[1] == c2.1
                                        && old_alive[j];
                                assert(j != i);
                                assert(alive@[j]);
                            }
                        }
                        assert(alive_keys(px@, alive@) =~= s.remove((x as int, y as int)));
                    }
                } else {
                    assert(!s.contains((x as int, y as int))) by {
                        if s.contains((x as int, y as int)) {
                            let j = choose|j: int|
                                0 <= j < px@.len() && #[trigger] px@[j].at[0] == x && px@[j].at[1] == y && alive@[j];
                            if j < i {
                                assert(key_lt(px@[j].at, px@[i as int].at));
                            } else if j > i {
                                assert(key_lt(px@[i as int].at, px@[j].at));
                            }
                        }
                    }
                }
            },
            None => {
                assert(!s.contains((x as int, y as int))) by {
                    if s.contains((x as int, y as int)) {
                        let j = choose|j: int|
                            0 <= j < px@.len() && #[trigger] px@[j].at[0] == x && px@[j].at[1] == y && alive@[j];
                        assert(has_pixel(px@, x as int, y as int));
                    }
                }
            },
        }
        k = k + 1;
    }
    assert(coords@.take(k as int) =~= coords@);
    let ghost fin = alive_keys(px@, alive@);
    let mut kept: Vec<Pixel> = Vec::new();
    let mut dropped: Vec<usize> = Vec::new();
    let mut i: usize = 0;
    while i < px.len()
        invariant
            i <= px@.len(),
            keys_increasing(px@),
            alive@.len() == px@.len(),
            fin == alive_keys(px@, alive@),
            kept@ == px@.take(i as int).filter(|p: Pixel| fin.contains((p.at[0] as int, p.at[1] as int))),
            dropped@ == px@.take(i as int).filter(|p: Pixel| !fin.contains((p.at[0] as int, p.at[1] as int))).map_values(
                |p: Pixel| p.face,
            ),
        decreases px@.len() - i,
    {
        let p = px[i];
        assert(fin.contains((p.at[0] as int, p.at[1] as int)) == alive@[i as int]) by {
            if fin.contains((p.at[0] as int, p.at[1] as int)) {
                let j = choose|j: int|
                    0 <= j < px@.len() && #[trigger] px@[j].at[0] == p.at[0] && px@[j].at[1] == p.at[1] && alive@[j];
                if j < i {
                    assert(key_lt(px@[j].at, px@[i as int].at));
                } else if j > i {
                    assert(key_lt(px@[i as int].at, px@[j].at));
                }
            }
            if alive@[i as int] {
                assert(px@[i as int].at[0] == p.at[0] && px@[i as int].at[1] == p.at[1]);
            }
        }
        let ghost t0 = px@.take(i as int);
        assert(px@.take(i + 1).drop_last() =~= t0);
        assert(px@.take(i + 1).last() == p);
        if alive[i] {
            kept.push(p);
        } else {
            dropped.push(p.face);
        }
        proof {
            let kf = |p: Pixel| fin.contains((p.at[0] as int, p.at[1] as int));
            let df = |p: Pixel| !fin.contains((p.at[0] as int, p.at[1] as int));
            reveal(Seq::filter);
            assert(px@.take(i + 1).filter(kf) == if kf(p) { t0.filter(kf).push(p) } else { t0.filter(kf) });
            assert(px@.take(i + 1).filter(df) == if df(p) { t0.filter(df).push(p) } else { t0.filter(df) });
            assert(kept@ =~= px@.take(i + 1).filter(kf));
            assert(dropped@ =~= px@.take(i + 1).filter(df).map_values(|p: Pixel| p.face));
        }
        i = i + 1;
    }
    assert(px@.take(i as int) =~= px@);
    (kept, dropped)
}

/// Whether the pixel at `(x, y)` is one of `px`.
fn present(px: &Vec<Pixel>, x: i32, y: i32) -> (r: bool)
    requires
        keys_increasing(px@),
    ensures
        r == pixel_keys(px@).contains((x as int, y as int)),
{
    match find_pixel(px, x, y) {
        Some(i) => {
            assert(has_pixel(px@, x as int, y as int));
            true
        },
        None => false,
    }
}

/// Whether some pixel of `px` has none of its eight neighbours in `px`.
pub fn any_isolated(px: &Vec<Pixel>) -> (r: bool)
    requires
        keys_increasing(px@),
        coords_inner(px@),
    ensures
        r == exists|k: int|
            0 <= k < px@.len() && !has_direct(pixel_keys(px@), #[trigger] px@[k].at[0] as int, px@[k].at[1] as int)
                && !has_diagonal(pixel_keys(px@), px@[k].at[0] as int, px@[k].at[1] as int),
{
    let ghost s = pixel_keys(px@);
    let mut k: usize = 0;
    while k < px.len()
        invariant
            k <= px@.len(),
            keys_increasing(px@),
            coords_inner(px@),
            s == pixel_keys(px@),
            forall|q: int|
                0 <= q < k ==> has_direct(s, #[trigger] px@[q].at[0] as int, px@[q].at[1] as int) || has_diagonal(
                    s,
                    px@[q].at[0] as int,
                    px@[q].at[1] as int,
                ),
        decreases px@.len() - k,
    {
        let p = px[k];
        assert(i32::MIN < p.at[0] < i32::MAX && i32::MIN < p.at[1] < i32::MAX);
        let x = p.at[0];
        let y = p.at[1];
        let has_nbr = present(px, x + 1, y) || present(px, x, y + 1) || present(px, x - 1, y) || present(px, x, y - 1)
            || present(px, x + 1, y + 1) || present(px, x + 1, y - 1) || present(px, x - 1, y + 1) || present(
            px,
            x - 1,
            y - 1,
        );
        assert(has_nbr == (has_direct(s, x as int, y as int) || has_diagonal(s, x as int, y as int)));
        if !has_nbr {
            assert(px@[k as int] == p);
            return true;
        }
        k = k + 1;
    }
    false
}

} // verus!
