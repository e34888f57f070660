//! Plain integer geometry: points, sizes, rectangles, and the bounded
//! coordinate arithmetic the layout pass relies on.

use vstd::prelude::*;

verus! {

/// Largest extent (width or height) a container, window or output may have.
pub const MAX_EXTENT: i32 = 0x0100_0000;

/// Coordinates are kept within [-MAX_COORD, MAX_COORD].
pub const MAX_COORD: i32 = 0x4000_0000;

/// Largest accepted inter-child gap.
pub const MAX_GAP: u32 = 0x0001_0000;

/// A location in the global, logical coordinate space.
#[derive(Clone, Copy, PartialEq, Eq, Structural, Debug)]
pub struct Point {
    pub x: i32,
    pub y: i32,
}

/// A width and height, never negative.
#[derive(Clone, Copy, PartialEq, Eq, Structural, Debug)]
pub struct Size {
    pub w: i32,
    pub h: i32,
}

/// A rectangle of space: a location and a size.
#[derive(Clone, Copy, PartialEq, Eq, Structural, Debug)]
pub struct Rect {
    pub loc: Point,
    pub size: Size,
}

pub open spec fn point_ok(p: Point) -> bool {
    &&& -MAX_COORD <= p.x <= MAX_COORD
    &&& -MAX_COORD <= p.y <= MAX_COORD
}

pub open spec fn size_ok(s: Size) -> bool {
    &&& 0 <= s.w <= MAX_EXTENT
    &&& 0 <= s.h <= MAX_EXTENT
}

pub open spec fn rect_ok(r: Rect) -> bool {
    point_ok(r.loc) && size_ok(r.size)
}

/// Coordinates that leave the allowed range are pinned to its nearer end.
pub open spec fn clamp_coord_spec(v: int) -> i32 {
    if v < -MAX_COORD {
        (-MAX_COORD) as i32
    } else if v > MAX_COORD {
        MAX_COORD
    } else {
        v as i32
    }
}

pub fn clamp_coord(v: i128) -> (r: i32)
    ensures
        r == clamp_coord_spec(v as int),
        -MAX_COORD <= r <= MAX_COORD,
{
    let lo: i128 = -(MAX_COORD as i128);
    let hi: i128 = MAX_COORD as i128;
    if v < lo {
        -MAX_COORD
    } else if v > hi {
        MAX_COORD
    } else {
        v as i32
    }
}

pub fn clamp_coord_i32(v: i32) -> (r: i32)
    ensures
        r == clamp_coord_spec(v as int),
        -MAX_COORD <= r <= MAX_COORD,
{
    if v < -MAX_COORD {
        -MAX_COORD
    } else if v > MAX_COORD {
        MAX_COORD
    } else {
        v
    }
}

/// Where a window of size `inner` sits when centered on an output of size
/// `outer`.
pub open spec fn center_spec(outer: Size, inner: Size) -> Point {
    Point {
        x: (outer.w / 2 - inner.w / 2) as i32,
        y: (outer.h / 2 - inner.h / 2) as i32,
    }
}

pub fn center_on(outer: Size, inner: Size) -> (r: Point)
    requires
        size_ok(outer),
        size_ok(inner),
    ensures
        r == center_spec(outer, inner),
        point_ok(r),
{
    Point { x: outer.w / 2 - inner.w / 2, y: outer.h / 2 - inner.h / 2 }
}

} // verus!
