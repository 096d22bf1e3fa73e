//! Raster geometry for drawing a flood result: image size and pixel positions.

use crate::geometry::{Bounds, Point};
use vstd::prelude::*;

verus! {

/// Millimetres per pixel side (10 m).
pub const IMG_SCALE: i64 = 10_000;

/// Pixels along an extent of `len` millimetres: whole metres, rounded up, per
/// ten metres, plus one.
pub open spec fn cells(len: int) -> int {
    ((len + 999) / 1000) / 10 + 1
}

/// The largest extent, in millimetres, that an image may span (210 km).
pub const MAX_EXTENT: i64 = 210_000_000;

pub open spec fn drawable(b: Bounds) -> bool {
    &&& 0 <= b.max_x - b.min_x <= MAX_EXTENT
    &&& 0 <= b.max_y - b.min_y <= MAX_EXTENT
}

/// Width and height in pixels of the image of `bounds`.
pub fn image_size(bounds: &Bounds) -> (r: (u32, u32))
    requires
        drawable(*bounds),
    ensures
        r.0 == cells(bounds.max_x - bounds.min_x),
        r.1 == cells(bounds.max_y - bounds.min_y),
{
    let w = bounds.max_x - bounds.min_x;
    let h = bounds.max_y - bounds.min_y;
    ((((w + 999) / 1000) / 10 + 1) as u32, (((h + 999) / 1000) / 10 + 1) as u32)
}

/// The pixel of a point inside `bounds`, in an image `height` pixels high:
/// columns grow eastwards, rows grow southwards.
pub fn get_pixel_coords(point: &Point, bounds: &Bounds, height: u32) -> (r: (u32, u32))
    requires
        drawable(*bounds),
        height == cells(bounds.max_y - bounds.min_y),
        bounds.min_x <= point.x <= bounds.max_x,
        bounds.min_y <= point.y <= bounds.max_y,
    ensures
        r.0 == (point.x - bounds.min_x) / IMG_SCALE as int,
        r.1 == height - 1 - (point.y - bounds.min_y) / IMG_SCALE as int,
        r.0 < cells(bounds.max_x - bounds.min_x),
        r.1 < height,
{
    let dx = (point.x - bounds.min_x) / IMG_SCALE;
    let dy = (point.y - bounds.min_y) / IMG_SCALE;
    assert(dy <= (bounds.max_y - bounds.min_y) / IMG_SCALE as int);
    (dx as u32, height - 1 - dy as u32)
}

} // verus!
