//! Axis-aligned bounding boxes, and the integer pixel boxes they round to.
use vstd::prelude::*;

verus! {

/// An axis-aligned box given by its lowest and highest corner.
#[derive(Debug, Clone, Copy, PartialEq)]
pub struct AABB<T, const N: usize> {
    pub min: [T; N],
    pub max: [T; N],
}

/// The pixels `[x, y]` of row `y`, for `x` from `lx` up to (excluding) `hx`.
pub open spec fn pixel_row(lx: int, hx: int, y: int) -> Seq<[i32; 2]> {
    Seq::new((if hx > lx { hx - lx } else { 0 }) as nat, |i: int| [(lx + i) as i32, y as i32])
}

/// The pixels of rows `ly` up to (excluding) `hy`, row after row.
pub open spec fn pixel_rows(lx: int, hx: int, ly: int, hy: int) -> Seq<[i32; 2]>
    decreases hy - ly,
{
    if hy <= ly {
        Seq::empty()
    } else {
        pixel_rows(lx, hx, ly, hy - 1) + pixel_row(lx, hx, hy - 1)
    }
}

impl<T: Copy, const N: usize> AABB<T, N> {
    /// The box with the given lowest and highest corner.
    pub fn from_corners(min: [T; N], max: [T; N]) -> (r: Self)
        ensures
            r.min == min,
            r.max == max,
    {
        AABB { min, max }
    }
}

impl AABB<i32, 2> {
    /// Every pixel `[x, y]` of the box, `x` from `min[0]` up to (excluding)
    /// `max[0]` within each row, rows `y` from `min[1]` up to (excluding)
    /// `max[1]`.
    pub fn iter_coords(&self) -> (r: Vec<[i32; 2]>)
        ensures
            r@ == pixel_rows(self.min[0] as int, self.max[0] as int, self.min[1] as int, self.max[1] as int),
    {
        let lx = self.min[0];
        let ly = self.min[1];
        let hx = self.max[0];
        let hy = self.max[1];
        let mut out: Vec<[i32; 2]> = Vec::new();
        if hy <= ly {
            return out;
        }
        let mut y = ly;
        while y < hy
            invariant
                ly <= y <= hy,
                lx == self.min[0] && hx == self.max[0] && ly == self.min[1] && hy == self.max[1],
                out@ == pixel_rows(lx as int, hx as int, ly as int, y as int),
            decreases hy - y,
        {
            let ghost before = out@;
            if lx < hx {
                let mut x = lx;
                while x < hx
                    invariant
                        lx <= x <= hx,
                        ly <= y < hy,
                        out@ =~= before + pixel_row(lx as int, hx as int, y as int).take(x - lx),
                    decreases hx - x,
                {
                    out.push([x, y]);
                    x = x + 1;
                }
                assert(pixel_row(lx as int, hx as int, y as int).take(hx - lx) =~= pixel_row(lx as int, hx as int, y as int));
            } else {
                assert(pixel_row(lx as int, hx as int, y as int) =~= Seq::<[i32; 2]>::empty());
                assert(out@ =~= before + pixel_row(lx as int, hx as int, y as int));
            }
            y = y + 1;
        }
        out
    }

    /// Grows the box by `v` on every side.
    pub fn expand_by(&mut self, v: i32)
        requires
            i32::MIN <= old(self).min[0] - v <= i32::MAX,
            i32::MIN <= old(self).min[1] - v <= i32::MAX,
            i32::MIN <= old(self).max[0] + v <= i32::MAX,
            i32::MIN <= old(self).max[1] + v <= i32::MAX,
        ensures
            final(self).min[0] == old(self).min[0] - v,
            final(self).min[1] == old(self).min[1] - v,
            final(self).max[0] == old(self).max[0] + v,
            final(self).max[1] == old(self).max[1] + v,
    {
        let m0 = self.min[0] - v;
        let m1 = self.min[1] - v;
        let x0 = self.max[0] + v;
        let x1 = self.max[1] + v;
        self.min = [m0, m1];
        self.max = [x0, x1];
    }
}

} // verus!
