//! Drawing a flood result: the home marker in red over the reached samples in
//! translucent blue, on a transparent image covering the result's bounds.

use crate::geometry::{Bounds, Point};
use crate::raster::{cells, drawable, get_pixel_coords, image_size, IMG_SCALE};
use vstd::prelude::*;

verus! {

/// Side, in pixels, of the square that marks home.
pub const MARKER: u32 = 10;

/// An RGBA image of the image crate.
#[verifier::external_body]
pub struct Canvas {
    pub img: image::RgbaImage,
}

/// The pixels of a canvas, by column and row, as RGBA channel values.
pub uninterp spec fn canvas_pixels(c: Canvas) -> Map<(u32, u32), Seq<u8>>;

/// Width and height of a canvas, in pixels.
pub uninterp spec fn canvas_size(c: Canvas) -> (u32, u32);

/// Relies on ImageBuffer::new: an image of the given size with every channel
/// zero. It panics where the buffer length overflows; four bytes per pixel
/// within i32::MAX stay clear of that on every target of 32 bits or more.
#[verifier::external_body]
fn new_canvas(width: u32, height: u32) -> (c: Canvas)
    requires
        width * height * 4 <= i32::MAX,
    ensures
        canvas_size(c) == (width, height),
        forall|x: u32, y: u32|
            x < width && y < height ==> #[trigger] canvas_pixels(c).contains_key((x, y))
                && canvas_pixels(c)[(x, y)] == seq![0u8, 0u8, 0u8, 0u8],
{
    Canvas { img: image::RgbaImage::new(width, height) }
}

/// Relies on ImageBuffer::put_pixel: sets the one pixel at column `x`, row
/// `y`; it panics outside the image.
#[verifier::external_body]
fn put_pixel(c: &mut Canvas, x: u32, y: u32, rgba: [u8; 4])
    requires
        x < canvas_size(*old(c)).0,
        y < canvas_size(*old(c)).1,
    ensures
        canvas_size(*final(c)) == canvas_size(*old(c)),
        canvas_pixels(*final(c)) == canvas_pixels(*old(c)).insert((x, y), rgba@),
{
    c.img.put_pixel(x, y, image::Rgba(rgba))
}

pub open spec fn pixel_of(p: Point, b: Bounds) -> (u32, u32) {
    (
        ((p.x - b.min_x) / IMG_SCALE as int) as u32,
        (cells(b.max_y - b.min_y) - 1 - (p.y - b.min_y) / IMG_SCALE as int) as u32,
    )
}

pub open spec fn within(p: Point, b: Bounds) -> bool {
    b.min_x <= p.x <= b.max_x && b.min_y <= p.y <= b.max_y
}

/// Under the home marker: the square of `MARKER` pixels whose top-left corner
/// is home's pixel.
pub open spec fn under_marker(home: Point, b: Bounds, x: u32, y: u32) -> bool {
    let (hx, hy) = pixel_of(home, b);
    within(home, b) && hx <= x < hx + MARKER && hy <= y < hy + MARKER
}

/// Some of the first `n` points falls on pixel `(x, y)`.
pub open spec fn painted(points: Seq<Point>, b: Bounds, n: int, x: u32, y: u32) -> bool {
    exists|i: int| 0 <= i < n && pixel_of(#[trigger] points[i], b) == (x, y)
}

/// The colour `render` gives a pixel.
pub open spec fn expected_pixel(home: Point, points: Seq<Point>, b: Bounds, x: u32, y: u32) -> Seq<u8> {
    if under_marker(home, b, x, y) {
        seq![255u8, 0u8, 0u8, 255u8]
    } else if painted(points, b, points.len() as int, x, y) {
        seq![0u8, 0u8, 255u8, 150u8]
    } else {
        seq![0u8, 0u8, 0u8, 0u8]
    }
}

/// `m` after the first `n` points are drawn on it in blue.
pub open spec fn draw_points(m: Map<(u32, u32), Seq<u8>>, points: Seq<Point>, b: Bounds, n: int) -> Map<
    (u32, u32),
    Seq<u8>,
>
    decreases n,
{
    if n <= 0 {
        m
    } else {
        draw_points(m, points, b, n - 1).insert(pixel_of(points[n - 1], b), seq![0u8, 0u8, 255u8, 150u8])
    }
}

/// `m` after the first `k` pixels of the marker at `(hx, hy)` are drawn in red,
/// column by column, skipping those outside a `w` by `h` image.
pub open spec fn draw_marker(m: Map<(u32, u32), Seq<u8>>, hx: u32, hy: u32, w: u32, h: u32, k: int) -> Map<
    (u32, u32),
    Seq<u8>,
>
    decreases k,
{
    if k <= 0 {
        m
    } else {
        let prev = draw_marker(m, hx, hy, w, h, k - 1);
        let x = hx + (k - 1) / MARKER as int;
        let y = hy + (k - 1) % MARKER as int;
        if x < w && y < h {
            prev.insert((x as u32, y as u32), seq![255u8, 0u8, 0u8, 255u8])
        } else {
            prev
        }
    }
}

proof fn lemma_draw_points(m: Map<(u32, u32), Seq<u8>>, points: Seq<Point>, b: Bounds, n: int, x: u32, y: u32)
    requires
        0 <= n <= points.len(),
        m.contains_key((x, y)),
    ensures
        draw_points(m, points, b, n).contains_key((x, y)),
        draw_points(m, points, b, n)[(x, y)] == if painted(points, b, n, x, y) {
            seq![0u8, 0u8, 255u8, 150u8]
        } else {
            m[(x, y)]
        },
    decreases n,
{
    if n > 0 {
        lemma_draw_points(m, points, b, n - 1, x, y);
        if painted(points, b, n - 1, x, y) {
            let i = choose|i: int| 0 <= i < n - 1 && pixel_of(#[trigger] points[i], b) == (x, y);
            assert(0 <= i < n && pixel_of(points[i], b) == (x, y));
        }
        if pixel_of(points[n - 1], b) == (x, y) {
            assert(painted(points, b, n, x, y));
        } else if painted(points, b, n, x, y) {
            let i = choose|i: int| 0 <= i < n && pixel_of(#[trigger] points[i], b) == (x, y);
            assert(i < n - 1);
            assert(painted(points, b, n - 1, x, y));
        }
    }
}

proof fn lemma_draw_marker(m: Map<(u32, u32), Seq<u8>>, hx: u32, hy: u32, w: u32, h: u32, k: int, x: u32, y: u32)
    requires
        0 <= k <= MARKER * MARKER,
        m.contains_key((x, y)),
        x < w,
        y < h,
    ensures
        draw_marker(m, hx, hy, w, h, k).contains_key((x, y)),
        draw_marker(m, hx, hy, w, h, k)[(x, y)] == if hx <= x < hx + MARKER && hy <= y < hy + MARKER
            && (x - hx) * MARKER + (y - hy) < k {
            seq![255u8, 0u8, 0u8, 255u8]
        } else {
            m[(x, y)]
        },
    decreases k,
{
    if k > 0 {
        lemma_draw_marker(m, hx, hy, w, h, k - 1, x, y);
        let px = hx + (k - 1) / MARKER as int;
        let py = hy + (k - 1) % MARKER as int;
        if hx <= x < hx + MARKER && hy <= y < hy + MARKER {
            assert((x - hx) * MARKER + (y - hy) == k - 1 <==> (x == px && y == py));
        } else {
            assert(x != px || y != py);
        }
    }
}

/// Draws `points` and `home` on an image of `bounds`, one pixel per ten metres.
pub fn render(home: &Point, points: &[Point], bounds: &Bounds) -> (c: Canvas)
    requires
        drawable(*bounds),
        forall|i: int| 0 <= i < points@.len() ==> within(#[trigger] points@[i], *bounds),
    ensures
        canvas_size(c) == (
            cells(bounds.max_x - bounds.min_x) as u32,
            cells(bounds.max_y - bounds.min_y) as u32,
        ),
        forall|x: u32, y: u32|
            x < canvas_size(c).0 && y < canvas_size(c).1 ==> #[trigger] canvas_pixels(c)[(x, y)]
                == expected_pixel(*home, points@, *bounds, x, y),
{
    let (w, h) = image_size(bounds);
    assert(w <= 21_001 && h <= 21_001);
    assert(w * h * 4 <= 21_001 * 21_001 * 4) by (nonlinear_arith)
        requires
            w <= 21_001,
            h <= 21_001,
    ;
    let mut c = new_canvas(w, h);
    let ghost blank = canvas_pixels(c);
    let blue: [u8; 4] = [0, 0, 255, 150];
    let red: [u8; 4] = [255, 0, 0, 255];
    assert(blue@ =~= seq![0u8, 0u8, 255u8, 150u8]);
    assert(red@ =~= seq![255u8, 0u8, 0u8, 255u8]);
    let mut i: usize = 0;
    while i < points.len()
        invariant
            i <= points@.len(),
            canvas_size(c) == (w, h),
            w == cells(bounds.max_x - bounds.min_x),
            h == cells(bounds.max_y - bounds.min_y),
            drawable(*bounds),
            blue@ == seq![0u8, 0u8, 255u8, 150u8],
            forall|k: int| 0 <= k < points@.len() ==> within(#[trigger] points@[k], *bounds),
            canvas_pixels(c) == draw_points(blank, points@, *bounds, i as int),
        decreases points@.len() - i,
    {
        let p = &points[i];
        assert(within(points@[i as int], *bounds));
        let (x, y) = get_pixel_coords(p, bounds, h);
        assert(pixel_of(*p, *bounds) == (x, y));
        put_pixel(&mut c, x, y, blue);
        i = i + 1;
    }
    let ghost drawn = canvas_pixels(c);
    let inside = bounds.min_x <= home.x && home.x <= bounds.max_x && bounds.min_y <= home.y
        && home.y <= bounds.max_y;
    let ghost mut hxy: (u32, u32) = (0, 0);
    if inside {
        let (hx, hy) = get_pixel_coords(home, bounds, h);
        assert(pixel_of(*home, *bounds) == (hx, hy));
        proof {
            hxy = (hx, hy);
        }
        let mut k: u32 = 0;
        while k < MARKER * MARKER
            invariant
                k <= MARKER * MARKER,
                canvas_size(c) == (w, h),
                red@ == seq![255u8, 0u8, 0u8, 255u8],
                canvas_pixels(c) == draw_marker(drawn, hx, hy, w, h, k as int),
            decreases MARKER * MARKER - k,
        {
            let x = hx as u64 + (k / MARKER) as u64;
            let y = hy as u64 + (k % MARKER) as u64;
            if x < w as u64 && y < h as u64 {
                put_pixel(&mut c, x as u32, y as u32, red);
            }
            k = k + 1;
        }
    }
    proof {
        assert forall|x: u32, y: u32| x < canvas_size(c).0 && y < canvas_size(c).1 implies #[trigger] canvas_pixels(
            c,
        )[(x, y)] == expected_pixel(*home, points@, *bounds, x, y) by {
            assert(blank.contains_key((x, y)));
            lemma_draw_points(blank, points@, *bounds, points@.len() as int, x, y);
            if inside {
                lemma_draw_marker(drawn, hxy.0, hxy.1, w, h, MARKER * MARKER, x, y);
                if hxy.0 <= x < hxy.0 + MARKER && hxy.1 <= y < hxy.1 + MARKER {
                    assert((x - hxy.0) * MARKER + (y - hxy.1) < MARKER * MARKER) by (nonlinear_arith)
                        requires
                            0 <= x - hxy.0 < MARKER,
                            0 <= y - hxy.1 < MARKER,
                    ;
                }
            }
        }
    }
    c
}

} // verus!
