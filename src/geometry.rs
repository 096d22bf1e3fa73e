//! Points, axis-aligned square areas and bounding rectangles.

use vstd::prelude::*;

verus! {

/// Largest `|center| + 2 * radius` of an area that the quadtree may split.
pub const AREA_LIMIT: i64 = 0x4000_0000_0000_0000;

/// A terrain sample: planar position and elevation, in millimetres.
#[derive(Clone, Copy, Debug, PartialEq, Eq, Structural, Hash)]
pub struct Point {
    pub x: i64,
    pub y: i64,
    pub z: i64,
}

/// An axis-aligned square given by its center (elevation ignored) and half side.
#[derive(Clone, Copy, Debug, PartialEq, Eq, Structural, Hash)]
pub struct Area {
    pub center: Point,
    pub radius: i64,
}

pub open spec fn abs(v: int) -> int {
    if v < 0 {
        -v
    } else {
        v
    }
}

impl Area {
    /// The containment test: inclusive on both axes.
    pub open spec fn contains(self, p: Point) -> bool {
        &&& self.center.x - self.radius <= p.x <= self.center.x + self.radius
        &&& self.center.y - self.radius <= p.y <= self.center.y + self.radius
    }

    /// Bounding-box overlap: center offsets within the sum of the radii on both axes.
    pub open spec fn overlaps(self, o: Area) -> bool {
        &&& abs(self.center.x - o.center.x) <= self.radius + o.radius
        &&& abs(self.center.y - o.center.y) <= self.radius + o.radius
    }

    /// A positive radius, with room to compute the area's corners and quadrants.
    pub open spec fn wf(self) -> bool {
        &&& 0 < self.radius
        &&& abs(self.center.x as int) + 2 * self.radius <= AREA_LIMIT
        &&& abs(self.center.y as int) + 2 * self.radius <= AREA_LIMIT
    }

    pub fn is_point_inside(&self, p: &Point) -> (r: bool)
        ensures
            r == self.contains(*p),
    {
        let cx = self.center.x as i128;
        let cy = self.center.y as i128;
        let rad = self.radius as i128;
        let px = p.x as i128;
        let py = p.y as i128;
        cx - rad <= px && px <= cx + rad && cy - rad <= py && py <= cy + rad
    }

    pub fn intersects(&self, o: &Area) -> (r: bool)
        ensures
            r == self.overlaps(*o),
    {
        let dx = self.center.x as i128 - o.center.x as i128;
        let dy = self.center.y as i128 - o.center.y as i128;
        let adx = if dx < 0 {
            -dx
        } else {
            dx
        };
        let ady = if dy < 0 {
            -dy
        } else {
            dy
        };
        let sum = self.radius as i128 + o.radius as i128;
        adx <= sum && ady <= sum
    }
}

/// Two areas that both contain one point overlap.
pub proof fn lemma_common_point_overlaps(a: Area, b: Area, p: Point)
    requires
        a.contains(p),
        b.contains(p),
    ensures
        a.overlaps(b),
{
}

/// A bounding rectangle.
#[derive(Clone, Copy, Debug, PartialEq, Eq, Structural)]
pub struct Bounds {
    pub min_x: i64,
    pub min_y: i64,
    pub max_x: i64,
    pub max_y: i64,
}

impl Bounds {
    pub fn width(&self) -> (r: i64)
        requires
            i64::MIN <= self.max_x - self.min_x <= i64::MAX,
        ensures
            r == self.max_x - self.min_x,
    {
        self.max_x - self.min_x
    }

    pub fn height(&self) -> (r: i64)
        requires
            i64::MIN <= self.max_y - self.min_y <= i64::MAX,
        ensures
            r == self.max_y - self.min_y,
    {
        self.max_y - self.min_y
    }
}

impl Bounds {
    /// The rectangle that an area covers.
    pub fn from_area(area: &Area) -> (r: Bounds)
        requires
            area.wf(),
        ensures
            r.min_x == area.center.x - area.radius,
            r.min_y == area.center.y - area.radius,
            r.max_x == area.center.x + area.radius,
            r.max_y == area.center.y + area.radius,
    {
        Bounds {
            min_x: area.center.x - area.radius,
            min_y: area.center.y - area.radius,
            max_x: area.center.x + area.radius,
            max_y: area.center.y + area.radius,
        }
    }
}

/// `b` is the tightest rectangle around the points of `s`.
pub open spec fn is_bounds_of(s: Seq<Point>, b: Bounds) -> bool {
    &&& forall|i: int|
        0 <= i < s.len() ==> b.min_x <= (#[trigger] s[i]).x <= b.max_x && b.min_y <= s[i].y <= b.max_y
    &&& exists|i: int| 0 <= i < s.len() && s[i].x == b.min_x
    &&& exists|i: int| 0 <= i < s.len() && s[i].x == b.max_x
    &&& exists|i: int| 0 <= i < s.len() && s[i].y == b.min_y
    &&& exists|i: int| 0 <= i < s.len() && s[i].y == b.max_y
}

impl Bounds {
    /// The tightest rectangle around `points`; `None` for no points.
    pub fn of_points(points: &[Point]) -> (r: Option<Bounds>)
        ensures
            r is None <==> points@.len() == 0,
            r is Some ==> is_bounds_of(points@, r->Some_0),
    {
        if points.len() == 0 {
            return None;
        }
        let mut b = Bounds { min_x: points[0].x, min_y: points[0].y, max_x: points[0].x, max_y: points[0].y };
        proof {
            let s1 = points@.subrange(0, 1);
            assert(s1[0] == points@[0]);
            assert(forall|k: int| 0 <= k < s1.len() ==> #[trigger] s1[k] == points@[0]);
        }
        let mut i: usize = 1;
        while i < points.len()
            invariant
                1 <= i <= points@.len(),
                is_bounds_of(points@.subrange(0, i as int), b),
            decreases points@.len() - i,
        {
            let p = points[i];
            let ghost s = points@.subrange(0, i as int);
            let ghost s2 = points@.subrange(0, i + 1);
            let ghost old_b = b;
            if p.x < b.min_x {
                b.min_x = p.x;
            }
            if p.y < b.min_y {
                b.min_y = p.y;
            }
            if p.x > b.max_x {
                b.max_x = p.x;
            }
            if p.y > b.max_y {
                b.max_y = p.y;
            }
            proof {
                assert forall|k: int| 0 <= k < s.len() implies s2[k] == #[trigger] s[k] by {}
                assert(s2[i as int] == p);
                let k1 = choose|k: int| 0 <= k < s.len() && s[k].x == old_b.min_x;
                let k2 = choose|k: int| 0 <= k < s.len() && s[k].x == old_b.max_x;
                let k3 = choose|k: int| 0 <= k < s.len() && s[k].y == old_b.min_y;
                let k4 = choose|k: int| 0 <= k < s.len() && s[k].y == old_b.max_y;
                assert(s2[k1] == s[k1] && s2[k2] == s[k2] && s2[k3] == s[k3] && s2[k4] == s[k4]);
                assert forall|k: int| 0 <= k < s2.len() implies b.min_x <= (#[trigger] s2[k]).x
                    <= b.max_x && b.min_y <= s2[k].y <= b.max_y by {
                    if k < s.len() {
                        assert(s2[k] == s[k]);
                    }
                }
            }
            i = i + 1;
        }
        assert(points@.subrange(0, i as int) =~= points@);
        Some(b)
    }
}

} // verus!
