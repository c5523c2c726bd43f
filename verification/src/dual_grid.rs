//! The integer side of resampling a face into one vertex per pixel centre:
//! the shape checks that send a face back to another sampler, and the
//! faces that connect neighbouring pixel centres.
use vstd::prelude::*;

verus! {

/// A vertex placed at the centre of the pixel at grid coordinates `at`.
#[derive(Debug, Clone, Copy, PartialEq, Eq)]
pub struct GridPoint {
    pub at: [i32; 2],
    pub vert: usize,
}

/// Whether the points come in strictly increasing order of coordinates:
/// by the first coordinate, then by the second.
pub open spec fn points_increasing(pts: Seq<GridPoint>) -> bool {
    forall|i: int, j: int|
        0 <= i < j < pts.len() ==> (#[trigger] pts[i].at[0] < #[trigger] pts[j].at[0] || (pts[i].at[0] == pts[j].at[0]
            && pts[i].at[1] < pts[j].at[1]))
}

/// Whether every coordinate has a neighbouring value on both sides.
pub open spec fn points_inner(pts: Seq<GridPoint>) -> bool {
    forall|i: int|
        0 <= i < pts.len() ==> i32::MIN < (#[trigger] pts[i]).at[0] < i32::MAX && i32::MIN < pts[i].at[1] < i32::MAX
}

/// The cells that hold a point.
pub open spec fn cells(pts: Seq<GridPoint>) -> Set<(int, int)> {
    Set::new(|c: (int, int)| exists|i: int| 0 <= i < pts.len() && #[trigger] pts[i].at[0] == c.0 && pts[i].at[1] == c.1)
}

/// The vertex at cell `(x, y)`, if there is one.
pub open spec fn vert_at(pts: Seq<GridPoint>, x: int, y: int) -> Option<usize> {
    if cells(pts).contains((x, y)) {
        Some(pts[choose|i: int| 0 <= i < pts.len() && #[trigger] pts[i].at[0] == x && pts[i].at[1] == y].vert)
    } else {
        None
    }
}

/// Whether the cells on both sides of `(x, y)` along its row are in `s`
/// while none of the six cells of the rows above and below is.
pub open spec fn row_pinched(s: Set<(int, int)>, x: int, y: int) -> bool {
    s.contains((x + 1, y)) && s.contains((x - 1, y)) && !(s.contains((x + 1, y + 1)) || s.contains((x + 1, y - 1))
        || s.contains((x - 1, y + 1)) || s.contains((x - 1, y - 1)) || s.contains((x, y + 1)) || s.contains((x, y - 1)))
}

/// Whether the cells on both sides of `(x, y)` along its column are in `s`
/// while none of the six cells of the columns beside it is.
pub open spec fn column_pinched(s: Set<(int, int)>, x: int, y: int) -> bool {
    s.contains((x, y + 1)) && s.contains((x, y - 1)) && !(s.contains((x + 1, y)) || s.contains((x - 1, y))
        || s.contains((x + 1, y + 1)) || s.contains((x - 1, y + 1)) || s.contains((x + 1, y - 1)) || s.contains(
        (x - 1, y - 1),
    ))
}

/// Whether none of the eight cells around `(x, y)` is in `s`.
pub open spec fn alone(s: Set<(int, int)>, x: int, y: int) -> bool {
    !(s.contains((x + 1, y)) || s.contains((x, y + 1)) || s.contains((x - 1, y)) || s.contains((x, y - 1))
        || s.contains((x + 1, y + 1)) || s.contains((x + 1, y - 1)) || s.contains((x - 1, y + 1)) || s.contains(
        (x - 1, y - 1),
    ))
}

proof fn lemma_point_index(pts: Seq<GridPoint>, i: int)
    requires
        points_increasing(pts),
        0 <= i < pts.len(),
    ensures
        vert_at(pts, pts[i].at[0] as int, pts[i].at[1] as int) == Some(pts[i].vert),
{
    let x = pts[i].at[0] as int;
    let y = pts[i].at[1] as int;
    assert(pts[i].at[0] == x && pts[i].at[1] == y);
    assert(cells(pts).contains((x, y)));
    let j = choose|j: int| 0 <= j < pts.len() && #[trigger] pts[j].at[0] == x && pts[j].at[1] == y;
    if j < i {
        assert(pts[j].at[0] < pts[i].at[0] || (pts[j].at[0] == pts[i].at[0] && pts[j].at[1] < pts[i].at[1]));
    } else if j > i {
        assert(pts[i].at[0] < pts[j].at[0] || (pts[i].at[0] == pts[j].at[0] && pts[i].at[1] < pts[j].at[1]));
    }
}

/// The vertex at cell `(x, y)`, found by bisection.
fn get_vert(pts: &Vec<GridPoint>, x: i32, y: i32) -> (r: Option<usize>)
    requires
        points_increasing(pts@),
    ensures
        r == vert_at(pts@, x as int, y as int),
{
    let mut lo: usize = 0;
    let mut hi: usize = pts.len();
    while lo < hi
        invariant
            0 <= lo <= hi <= pts@.len(),
            points_increasing(pts@),
            forall|i: int| 0 <= i < lo ==> (#[trigger] pts@[i]).at[0] < x || (pts@[i].at[0] == x && pts@[i].at[1] < y),
            forall|i: int| hi <= i < pts@.len() ==> x < (#[trigger] pts@[i]).at[0] || (pts@[i].at[0] == x && y < pts@[i].at[1]),
        decreases hi - lo,
    {
        let mid = lo + (hi - lo) / 2;
        let k = pts[mid].at;
        if k[0] == x && k[1] == y {
            proof {
                lemma_point_index(pts@, mid as int);
            }
            return Some(pts[mid].vert);
        } else if k[0] < x || (k[0] == x && k[1] < y) {
            assert forall|i: int| 0 <= i < mid + 1 implies (#[trigger] pts@[i]).at[0] < x || (pts@[i].at[0] == x
                && pts@[i].at[1] < y) by {
                if i < mid {
                    assert(pts@[i].at[0] < pts@[mid as int].at[0] || (pts@[i].at[0] == pts@[mid as int].at[0]
                        && pts@[i].at[1] < pts@[mid as int].at[1]));
                }
            }
            lo = mid + 1;
        } else {
            assert forall|i: int| mid <= i < pts@.len() implies x < (#[trigger] pts@[i]).at[0] || (pts@[i].at[0] == x
                && y < pts@[i].at[1]) by {
                if i > mid {
                    assert(pts@[mid as int].at[0] < pts@[i].at[0] || (pts@[mid as int].at[0] == pts@[i].at[0]
                        && pts@[mid as int].at[1] < pts@[i].at[1]));
                }
            }
            hi = mid;
        }
    }
    assert(!cells(pts@).contains((x as int, y as int))) by {
        if cells(pts@).contains((x as int, y as int)) {
            let i = choose|i: int| 0 <= i < pts@.len() && #[trigger] pts@[i].at[0] == x && pts@[i].at[1] == y;
            assert(i < lo || i >= hi);
        }
    }
    None
}

/// Whether cell `(x, y)` holds a point.
fn has_cell(pts: &Vec<GridPoint>, x: i32, y: i32) -> (r: bool)
    requires
        points_increasing(pts@),
    ensures
        r == cells(pts@).contains((x as int, y as int)),
{
    get_vert(pts, x, y).is_some()
}

/// Whether some point has a neighbour along its row and some point (maybe
/// another) has one along its column: the points are not all in one line.
pub fn has_extent(pts: &Vec<GridPoint>) -> (r: bool)
    requires
        points_increasing(pts@),
        points_inner(pts@),
    ensures
        r == ((exists|k: int|
            0 <= k < pts@.len() && (cells(pts@).contains((#[trigger] pts@[k].at[0] + 1, pts@[k].at[1] as int))
                || cells(pts@).contains((pts@[k].at[0] - 1, pts@[k].at[1] as int)))) && (exists|k: int|
            0 <= k < pts@.len() && (cells(pts@).contains((#[trigger] pts@[k].at[0] as int, pts@[k].at[1] + 1))
                || cells(pts@).contains((pts@[k].at[0] as int, pts@[k].at[1] - 1))))),
{
    let ghost s = cells(pts@);
    let mut has_height = false;
    let mut has_width = false;
    let mut k: usize = 0;
    while k < pts.len()
        invariant
            k <= pts@.len(),
            points_increasing(pts@),
            points_inner(pts@),
            s == cells(pts@),
            has_height == exists|q: int|
                0 <= q < k && (s.contains((#[trigger] pts@[q].at[0] + 1, pts@[q].at[1] as int)) || s.contains(
                    (pts@[q].at[0] - 1, pts@[q].at[1] as int),
                )),
            has_width == exists|q: int|
                0 <= q < k && (s.contains((#[trigger] pts@[q].at[0] as int, pts@[q].at[1] + 1)) || s.contains(
                    (pts@[q].at[0] as int, pts@[q].at[1] - 1),
                )),
        decreases pts@.len() - k,
    {
        let p = pts[k];
        assert(pts@[k as int] == p);
        assert(i32::MIN < p.at[0] < i32::MAX && i32::MIN < p.at[1] < i32::MAX);
        let u = p.at[0];
        let v = p.at[1];
        let h = has_cell(pts, u + 1, v) || has_cell(pts, u - 1, v);
        let w = has_cell(pts, u, v + 1) || has_cell(pts, u, v - 1);
        has_height = has_height || h;
        has_width = has_width || w;
        k = k + 1;
    }
    has_width && has_height
}

/// Whether some point has neighbours on both sides along its row but none
/// in the rows above and below, or on both sides along its column but none
/// in the columns beside it: its vertex would join the mesh at one point.
pub fn any_non_manifold(pts: &Vec<GridPoint>) -> (r: bool)
    requires
        points_increasing(pts@),
        points_inner(pts@),
    ensures
        r == exists|k: int|
            0 <= k < pts@.len() && (row_pinched(cells(pts@), #[trigger] pts@[k].at[0] as int, pts@[k].at[1] as int)
                || column_pinched(cells(pts@), pts@[k].at[0] as int, pts@[k].at[1] as int)),
{
    let ghost s = cells(pts@);
    let mut k: usize = 0;
    while k < pts.len()
        invariant
            k <= pts@.len(),
            points_increasing(pts@),
            points_inner(pts@),
            s == cells(pts@),
            forall|q: int|
                0 <= q < k ==> !(row_pinched(s, #[trigger] pts@[q].at[0] as int, pts@[q].at[1] as int) || column_pinched(
                    s,
                    pts@[q].at[0] as int,
                    pts@[q].at[1] as int,
                )),
        decreases pts@.len() - k,
    {
        let p = pts[k];
        assert(pts@[k as int] == p);
        assert(i32::MIN < p.at[0] < i32::MAX && i32::MIN < p.at[1] < i32::MAX);
        let u = p.at[0];
        let v = p.at[1];
        let has_lr = has_cell(pts, u + 1, v) && has_cell(pts, u - 1, v);
        let has_one_ud = has_cell(pts, u + 1, v + 1) || has_cell(pts, u + 1, v - 1) || has_cell(pts, u - 1, v + 1)
            || has_cell(pts, u - 1, v - 1) || has_cell(pts, u, v + 1) || has_cell(pts, u, v - 1);
        if has_lr && !has_one_ud {
            return true;
        }
        let has_ud = has_cell(pts, u, v + 1) && has_cell(pts, u, v - 1);
        let has_one_lr = has_cell(pts, u + 1, v) || has_cell(pts, u - 1, v) || has_cell(pts, u + 1, v + 1) || has_cell(
            pts,
            u - 1,
            v + 1,
        ) || has_cell(pts, u + 1, v - 1) || has_cell(pts, u - 1, v - 1);
        if has_ud && !has_one_lr {
            return true;
        }
        k = k + 1;
    }
    false
}

/// Whether some point has neighbours on both sides along its row and none
/// in the rows above and below it.
pub fn any_collinear(pts: &Vec<GridPoint>) -> (r: bool)
    requires
        points_increasing(pts@),
        points_inner(pts@),
    ensures
        r == exists|k: int|
            0 <= k < pts@.len() && row_pinched(cells(pts@), #[trigger] pts@[k].at[0] as int, pts@[k].at[1] as int),
{
    let ghost s = cells(pts@);
    let mut k: usize = 0;
    while k < pts.len()
        invariant
            k <= pts@.len(),
            points_increasing(pts@),
            points_inner(pts@),
            s == cells(pts@),
            forall|q: int| 0 <= q < k ==> !row_pinched(s, #[trigger] pts@[q].at[0] as int, pts@[q].at[1] as int),
        decreases pts@.len() - k,
    {
        let p = pts[k];
        assert(pts@[k as int] == p);
        assert(i32::MIN < p.at[0] < i32::MAX && i32::MIN < p.at[1] < i32::MAX);
        let u = p.at[0];
        let v = p.at[1];
        let collinear = has_cell(pts, u + 1, v) && has_cell(pts, u - 1, v) && !has_cell(pts, u + 1, v + 1)
            && !has_cell(pts, u, v + 1) && !has_cell(pts, u - 1, v + 1) && !has_cell(pts, u + 1, v - 1) && !has_cell(
            pts,
            u,
            v - 1,
        ) && !has_cell(pts, u - 1, v - 1);
        if collinear {
            return true;
        }
        // the second test repeats the row's two neighbours, which then may
        // not be present: it never holds
        let crossing = has_cell(pts, u + 1, v) && has_cell(pts, u - 1, v) && !has_cell(pts, u + 1, v + 1)
            && !has_cell(pts, u + 1, v) && !has_cell(pts, u + 1, v - 1) && !has_cell(pts, u - 1, v + 1) && !has_cell(
            pts,
            u - 1,
            v,
        ) && !has_cell(pts, u - 1, v - 1);
        if crossing {
            return true;
        }
        k = k + 1;
    }
    false
}

/// Whether some point has none of its eight neighbours.
pub fn any_alone(pts: &Vec<GridPoint>) -> (r: bool)
    requires
        points_increasing(pts@),
        points_inner(pts@),
    ensures
        r == exists|k: int| 0 <= k < pts@.len() && alone(cells(pts@), #[trigger] pts@[k].at[0] as int, pts@[k].at[1] as int),
{
    let ghost s = cells(pts@);
    let mut k: usize = 0;
    while k < pts.len()
        invariant
            k <= pts@.len(),
            points_increasing(pts@),
            points_inner(pts@),
            s == cells(pts@),
            forall|q: int| 0 <= q < k ==> !alone(s, #[trigger] pts@[q].at[0] as int, pts@[q].at[1] as int),
        decreases pts@.len() - k,
    {
        let p = pts[k];
        assert(pts@[k as int] == p);
        assert(i32::MIN < p.at[0] < i32::MAX && i32::MIN < p.at[1] < i32::MAX);
        let u = p.at[0];
        let v = p.at[1];
        let any_nbr = has_cell(pts, u + 1, v) || has_cell(pts, u, v + 1) || has_cell(pts, u - 1, v) || has_cell(
            pts,
            u,
            v - 1,
        );
        let any_diag = has_cell(pts, u + 1, v + 1) || has_cell(pts, u + 1, v - 1) || has_cell(pts, u - 1, v + 1)
            || has_cell(pts, u - 1, v - 1);
        if !any_diag && !any_nbr {
            return true;
        }
        k = k + 1;
    }
    false
}

// ---------------------------------------------------------------------------
// Faces between pixel centres
// ---------------------------------------------------------------------------

/// One triangle where both corners given exist.
pub open spec fn tri_if(vi: usize, a: Option<usize>, b: Option<usize>, a_first: bool) -> Seq<Seq<usize>> {
    match (a, b) {
        (Some(x), Some(y)) => if a_first {
            seq![seq![vi, x, y]]
        } else {
            seq![seq![vi, y, x]]
        },
        _ => Seq::empty(),
    }
}

/// The triangles around point `p` when it has no neighbour along its row:
/// each fanning to the point above or below it and a diagonal one on the
/// other side.
pub open spec fn column_faces(pts: Seq<GridPoint>, p: GridPoint) -> Seq<Seq<usize>> {
    let u = p.at[0] as int;
    let v = p.at[1] as int;
    let s = cells(pts);
    if !s.contains((u - 1, v)) && !s.contains((u + 1, v)) {
        let up = vert_at(pts, u, v + 1);
        let down = vert_at(pts, u, v - 1);
        tri_if(p.vert, up, vert_at(pts, u - 1, v - 1), true) + tri_if(p.vert, up, vert_at(pts, u + 1, v - 1), false)
            + tri_if(p.vert, down, vert_at(pts, u - 1, v + 1), false) + tri_if(
            p.vert,
            down,
            vert_at(pts, u + 1, v + 1),
            true,
        )
    } else {
        Seq::empty()
    }
}

/// The triangles around point `p` when it has no neighbour along its
/// column: each fanning to the point beside it and a diagonal one on the
/// other side.
pub open spec fn row_faces(pts: Seq<GridPoint>, p: GridPoint) -> Seq<Seq<usize>> {
    let u = p.at[0] as int;
    let v = p.at[1] as int;
    let s = cells(pts);
    if !s.contains((u, v - 1)) && !s.contains((u, v + 1)) {
        let r = vert_at(pts, u + 1, v);
        let l = vert_at(pts, u - 1, v);
        tri_if(p.vert, r, vert_at(pts, u - 1, v + 1), true) + tri_if(p.vert, r, vert_at(pts, u - 1, v - 1), false)
            + tri_if(p.vert, l, vert_at(pts, u + 1, v + 1), false) + tri_if(
            p.vert,
            l,
            vert_at(pts, u + 1, v - 1),
            true,
        )
    } else {
        Seq::empty()
    }
}

/// The triangle to the lower left of point `p` where its diagonal
/// neighbour there is missing, and the face to its upper right among the
/// neighbours there.
pub open spec fn corner_faces(pts: Seq<GridPoint>, p: GridPoint) -> Seq<Seq<usize>> {
    let u = p.at[0] as int;
    let v = p.at[1] as int;
    let vi = p.vert;
    let low = if !cells(pts).contains((u - 1, v - 1)) {
        tri_if(vi, vert_at(pts, u - 1, v), vert_at(pts, u, v - 1), true)
    } else {
        Seq::empty()
    };
    let high = match (vert_at(pts, u, v + 1), vert_at(pts, u + 1, v + 1), vert_at(pts, u + 1, v)) {
        (Some(a), Some(d), Some(l)) => seq![seq![l, d, a, vi]],
        (Some(a), None, Some(l)) => seq![seq![l, a, vi]],
        (Some(a), Some(d), None) => seq![seq![d, a, vi]],
        (None, Some(d), Some(l)) => seq![seq![l, d, vi]],
        _ => Seq::empty(),
    };
    low + high
}

/// The faces around point `p`.
pub open spec fn point_faces(pts: Seq<GridPoint>, p: GridPoint) -> Seq<Seq<usize>> {
    column_faces(pts, p) + row_faces(pts, p) + corner_faces(pts, p)
}

/// The faces around the first `n` points, point after point.
pub open spec fn dual_faces_upto(pts: Seq<GridPoint>, n: int) -> Seq<Seq<usize>>
    decreases n,
{
    if n <= 0 {
        Seq::empty()
    } else {
        dual_faces_upto(pts, n - 1) + point_faces(pts, pts[n - 1])
    }
}

/// The corners of the faces of `out`.
pub open spec fn faces_view(out: Seq<Vec<usize>>) -> Seq<Seq<usize>> {
    out.map_values(|f: Vec<usize>| f@)
}

fn push_face(out: &mut Vec<Vec<usize>>, f: Vec<usize>)
    ensures
        faces_view(final(out)@) == faces_view(old(out)@).push(f@),
{
    out.push(f);
    assert(faces_view(out@) =~= faces_view(old(out)@).push(f@));
}

fn push_tri_if(out: &mut Vec<Vec<usize>>, vi: usize, a: Option<usize>, b: Option<usize>, a_first: bool)
    ensures
        faces_view(final(out)@) == faces_view(old(out)@) + tri_if(vi, a, b, a_first),
{
    let ghost start = faces_view(out@);
    match (a, b) {
        (Some(x), Some(y)) => {
            if a_first {
                out.push(vec![vi, x, y]);
            } else {
                out.push(vec![vi, y, x]);
            }
        },
        _ => {},
    }
    assert(faces_view(out@) =~= start + tri_if(vi, a, b, a_first));
}

fn push_column_faces(pts: &Vec<GridPoint>, p: GridPoint, out: &mut Vec<Vec<usize>>)
    requires
        points_increasing(pts@),
        i32::MIN < p.at[0] < i32::MAX && i32::MIN < p.at[1] < i32::MAX,
    ensures
        faces_view(final(out)@) == faces_view(old(out)@) + column_faces(pts@, p),
{
    let u = p.at[0];
    let v = p.at[1];
    let ghost start = faces_view(out@);
    if !has_cell(pts, u - 1, v) && !has_cell(pts, u + 1, v) {
        let up = get_vert(pts, u, v + 1);
        let down = get_vert(pts, u, v - 1);
        let dl = get_vert(pts, u - 1, v - 1);
        let dr = get_vert(pts, u + 1, v - 1);
        let ul = get_vert(pts, u - 1, v + 1);
        let ur = get_vert(pts, u + 1, v + 1);
        push_tri_if(out, p.vert, up, dl, true);
        push_tri_if(out, p.vert, up, dr, false);
        push_tri_if(out, p.vert, down, ul, false);
        push_tri_if(out, p.vert, down, ur, true);
    }
    assert(faces_view(out@) =~= start + column_faces(pts@, p));
}

fn push_row_faces(pts: &Vec<GridPoint>, p: GridPoint, out: &mut Vec<Vec<usize>>)
    requires
        points_increasing(pts@),
        i32::MIN < p.at[0] < i32::MAX && i32::MIN < p.at[1] < i32::MAX,
    ensures
        faces_view(final(out)@) == faces_view(old(out)@) + row_faces(pts@, p),
{
    let u = p.at[0];
    let v = p.at[1];
    let ghost start = faces_view(out@);
    if !has_cell(pts, u, v - 1) && !has_cell(pts, u, v + 1) {
        let r = get_vert(pts, u + 1, v);
        let l = get_vert(pts, u - 1, v);
        let ul = get_vert(pts, u - 1, v + 1);
        let dl = get_vert(pts, u - 1, v - 1);
        let ur = get_vert(pts, u + 1, v + 1);
        let dr = get_vert(pts, u + 1, v - 1);
        push_tri_if(out, p.vert, r, ul, true);
        push_tri_if(out, p.vert, r, dl, false);
        push_tri_if(out, p.vert, l, ur, false);
        push_tri_if(out, p.vert, l, dr, true);
    }
    assert(faces_view(out@) =~= start + row_faces(pts@, p));
}

fn push_corner_faces(pts: &Vec<GridPoint>, p: GridPoint, out: &mut Vec<Vec<usize>>)
    requires
        points_increasing(pts@),
        i32::MIN < p.at[0] < i32::MAX && i32::MIN < p.at[1] < i32::MAX,
    ensures
        faces_view(final(out)@) == faces_view(old(out)@) + corner_faces(pts@, p),
{
    let u = p.at[0];
    let v = p.at[1];
    let vi = p.vert;
    let ghost start = faces_view(out@);
    if !has_cell(pts, u - 1, v - 1) {
        let r = get_vert(pts, u - 1, v);
        let d = get_vert(pts, u, v - 1);
        push_tri_if(out, vi, r, d, true);
    }
    let ghost mid = faces_view(out@);
    let up = get_vert(pts, u, v + 1);
    let diag = get_vert(pts, u + 1, v + 1);
    let side = get_vert(pts, u + 1, v);
    match (up, diag, side) {
        (Some(a), Some(d), Some(l)) => {
            push_face(out, vec![l, d, a, vi]);
            assert(faces_view(out@) =~= mid + seq![seq![l, d, a, vi]]);
        },
        (Some(a), None, Some(l)) => {
            push_face(out, vec![l, a, vi]);
            assert(faces_view(out@) =~= mid + seq![seq![l, a, vi]]);
        },
        (Some(a), Some(d), None) => {
            push_face(out, vec![d, a, vi]);
            assert(faces_view(out@) =~= mid + seq![seq![d, a, vi]]);
        },
        (None, Some(d), Some(l)) => {
            push_face(out, vec![l, d, vi]);
            assert(faces_view(out@) =~= mid + seq![seq![l, d, vi]]);
        },
        _ => {
            assert(faces_view(out@) =~= mid + Seq::<Seq<usize>>::empty());
        },
    }
    proof {
        let low = if !cells(pts@).contains((u - 1, v - 1)) {
            tri_if(vi, vert_at(pts@, u - 1, v as int), vert_at(pts@, u as int, v - 1), true)
        } else {
            Seq::empty()
        };
        let high = match (up, diag, side) {
            (Some(a), Some(d), Some(l)) => seq![seq![l, d, a, vi]],
            (Some(a), None, Some(l)) => seq![seq![l, a, vi]],
            (Some(a), Some(d), None) => seq![seq![d, a, vi]],
            (None, Some(d), Some(l)) => seq![seq![l, d, vi]],
            _ => Seq::<Seq<usize>>::empty(),
        };
        assert(mid =~= start + low);
        assert(faces_view(out@) =~= start + (low + high));
    }
}

/// The faces that connect the pixel-centre points `pts`, point after point
/// in order: where a point has no neighbour along its row (or column), the
/// triangles fanning from it to the points above and below (or beside) it
/// and their diagonal neighbours; the triangle to its lower left where the
/// diagonal point there is missing; and the face to its upper right among
/// the points there.
pub fn dual_faces(pts: &Vec<GridPoint>) -> (r: Vec<Vec<usize>>)
    requires
        points_increasing(pts@),
        points_inner(pts@),
    ensures
        faces_view(r@) == dual_faces_upto(pts@, pts@.len() as int),
{
    let mut out: Vec<Vec<usize>> = Vec::new();
    assert(faces_view(out@) =~= Seq::<Seq<usize>>::empty());
    let mut k: usize = 0;
    while k < pts.len()
        invariant
            k <= pts@.len(),
            points_increasing(pts@),
            points_inner(pts@),
            faces_view(out@) == dual_faces_upto(pts@, k as int),
        decreases pts@.len() - k,
    {
        let p = pts[k];
        assert(pts@[k as int] == p);
        assert(i32::MIN < p.at[0] < i32::MAX && i32::MIN < p.at[1] < i32::MAX);
        let ghost start = faces_view(out@);
        push_column_faces(pts, p, &mut out);
        push_row_faces(pts, p, &mut out);
        push_corner_faces(pts, p, &mut out);
        assert(faces_view(out@) =~= start + point_faces(pts@, p));
        k = k + 1;
    }
    out
}

} // verus!
