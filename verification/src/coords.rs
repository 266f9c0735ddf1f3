//! The pixel grid: pixels, their row-major indices, and the way from one to
//! the other.

use vstd::prelude::*;
use vstd::arithmetic::div_mod::{lemma_fundamental_div_mod, lemma_fundamental_div_mod_converse};
use crate::error::Error;

verus! {

/// A pixel of the grid: column `x`, row `y`, row 0 being the top row.
#[derive(Clone, Copy, Debug, PartialEq, Eq, Structural)]
pub struct Point {
    pub x: u32,
    pub y: u32,
}

/// The extent of a pixel grid, in whole pixels.
#[derive(Clone, Copy, Debug, PartialEq, Eq, Structural)]
pub struct Size {
    pub width: u32,
    pub height: u32,
}

impl Size {
    /// The number of pixels of the grid.
    pub open spec fn area(self) -> int {
        self.width * self.height
    }

    /// Whether `p` lies on the grid.
    pub open spec fn holds(self, p: Point) -> bool {
        p.x < self.width && p.y < self.height
    }
}

/// The pixel that the row-major index `idx` names on a grid `width` pixels
/// wide: column `idx mod width`, row `idx div width`.
pub open spec fn point_at(idx: int, width: int) -> Point
    recommends
        0 <= idx <= u32::MAX,
        0 < width,
{
    Point { x: (idx % width) as u32, y: (idx / width) as u32 }
}

/// The row-major index of `p` on a grid `width` pixels wide.
pub open spec fn index_of(p: Point, width: int) -> int {
    width * p.y + p.x
}

/// Maps a row-major index to its pixel.
///
/// A grid of width zero has no pixels to name, which is the one failure.
pub fn idx2point(idx: u32, width: u32) -> (r: Result<Point, Error>)
    ensures
        width == 0 <==> r.is_err(),
        width == 0 ==> r == Err::<Point, Error>(Error::InvalidGeometry),
        width != 0 ==> r == Ok::<Point, Error>(point_at(idx as int, width as int)),
{
    if width == 0 {
        return Err(Error::InvalidGeometry);
    }
    let x: u32 = idx % width;
    let y: u32 = idx / width;
    Ok(Point { x, y })
}

/// Maps a pixel to its row-major index.
///
/// The pixel is not held against any grid height: a pixel below the grid
/// gets an index beyond it. The index has to fit the index type.
pub fn point2idx(p: Point, width: u32) -> (idx: u32)
    requires
        index_of(p, width as int) <= u32::MAX,
    ensures
        idx == index_of(p, width as int),
{
    proof {
        lemma_index_bounds(p, width);
    }
    width * p.y + p.x
}

/// Both terms of an index are bounded by the index.
proof fn lemma_index_bounds(p: Point, width: u32)
    ensures
        0 <= width * p.y <= index_of(p, width as int),
{
    assert(0 <= width * p.y) by (nonlinear_arith)
        requires
            0 <= width,
            0 <= p.y,
    ;
}

/// Index to pixel and back is the identity on every index of the grid, and
/// the pixel in between lies on the grid.
pub proof fn lemma_index_round_trip(idx: u32, size: Size)
    requires
        idx < size.area(),
    ensures
        size.holds(point_at(idx as int, size.width as int)),
        index_of(point_at(idx as int, size.width as int), size.width as int) == idx,
{
    let w = size.width as int;
    let h = size.height as int;
    let i = idx as int;
    assert(w > 0) by (nonlinear_arith)
        requires
            0 <= i < w * h,
            0 <= w,
    ;
    lemma_fundamental_div_mod(i, w);
    assert(0 <= i % w < w);
    assert(0 <= i / w < h) by (nonlinear_arith)
        requires
            i == w * (i / w) + (i % w),
            0 <= i % w < w,
            0 <= i < w * h,
            0 < w,
    ;
}

/// Pixel to index and back is the identity on every pixel whose column is on
/// the grid, and a pixel of the grid gets an index of the grid.
pub proof fn lemma_point_round_trip(p: Point, size: Size)
    requires
        p.x < size.width,
    ensures
        point_at(index_of(p, size.width as int), size.width as int) == p,
        size.holds(p) ==> 0 <= index_of(p, size.width as int) < size.area(),
{
    let w = size.width as int;
    let h = size.height as int;
    let i = index_of(p, w);
    lemma_fundamental_div_mod_converse(i, w, p.y as int, p.x as int);
    if size.holds(p) {
        assert(w * p.y + p.x < w * h) by (nonlinear_arith)
            requires
                0 <= p.x < w,
                0 <= p.y < h,
        ;
        assert(0 <= w * p.y) by (nonlinear_arith)
            requires
                0 <= w,
                0 <= p.y,
        ;
    }
}

} // verus!
