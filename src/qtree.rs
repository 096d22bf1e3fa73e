//! A quadtree of points whose query finds and removes the matching points in
//! one pass, writing them into a buffer that the caller owns.

use crate::geometry::{abs, Area, Point, AREA_LIMIT};
use vstd::multiset::Multiset;
use vstd::prelude::*;

verus! {

/// Points a leaf holds before it splits.
pub const MAX_POINTS: usize = 1000;

/// Overlap added to each quadrant's radius, so that siblings overlap a little.
pub const EPSILON: i64 = 10;

/// A leaf with a smaller radius keeps its points beyond capacity: its quadrants
/// would not be smaller than itself by a useful margin.
pub const MIN_SPLIT_RADIUS: i64 = 100;

#[derive(Clone, Copy, Debug, PartialEq, Eq, Structural)]
pub enum QTreeError {
    /// The point, or the query area, lies outside the tree's area.
    OutsideArea,
    /// A query matched more points than the buffer holds.
    BufferFull,
}

/// Radius of each quadrant of an area of radius `r`.
pub open spec fn child_radius(r: int) -> int {
    r / 2 + EPSILON
}

/// Quadrant `k` (0 = NW, 1 = NE, 2 = SW, 3 = SE) of an area.
pub open spec fn quadrant(a: Area, k: int) -> Area {
    let r = child_radius(a.radius as int);
    Area {
        center: Point {
            x: (if k == 0 || k == 2 {
                a.center.x - r
            } else {
                a.center.x + r
            }) as i64,
            y: (if k == 0 || k == 1 {
                a.center.y - r
            } else {
                a.center.y + r
            }) as i64,
            z: 0,
        },
        radius: r as i64,
    }
}

/// The quadrant that owns a point: the first, in the order NW, NE, SW, SE, that
/// contains it; 4 where none does.
pub open spec fn route(a: Area, p: Point) -> int {
    if quadrant(a, 0).contains(p) {
        0
    } else if quadrant(a, 1).contains(p) {
        1
    } else if quadrant(a, 2).contains(p) {
        2
    } else if quadrant(a, 3).contains(p) {
        3
    } else {
        4
    }
}

/// Quadrants of a splittable area are well formed, smaller than the area, and
/// together cover it.
pub proof fn lemma_quadrants(a: Area)
    requires
        a.wf(),
        a.radius >= MIN_SPLIT_RADIUS,
    ensures
        forall|k: int|
            0 <= k < 4 ==> (#[trigger] quadrant(a, k)).wf() && quadrant(a, k).radius < a.radius,
        forall|p: Point| a.contains(p) ==> #[trigger] route(a, p) < 4,
{
    let r = child_radius(a.radius as int);
    assert(2 * r >= a.radius);
    assert forall|k: int| 0 <= k < 4 implies (#[trigger] quadrant(a, k)).wf() && quadrant(a, k).radius
        < a.radius by {
        let q = quadrant(a, k);
        assert(abs(q.center.x as int) <= abs(a.center.x as int) + r);
        assert(abs(q.center.y as int) <= abs(a.center.y as int) + r);
    }
}

/// `out` holds what left `before`, leaving `after`, and all of it lies in `area`.
pub open spec fn drained(
    before: Multiset<Point>,
    after: Multiset<Point>,
    out: Seq<Point>,
    area: Area,
) -> bool {
    &&& before == after.add(out.to_multiset())
    &&& forall|j: int| 0 <= j < out.len() ==> area.contains(#[trigger] out[j])
}

/// No point of `m` lies in `area`.
pub open spec fn clear_of(m: Multiset<Point>, area: Area) -> bool {
    forall|p: Point| #[trigger] m.contains(p) ==> !area.contains(p)
}

/// A buffer changed at most in positions `from .. to`.
pub open spec fn kept_outside(before: Seq<Point>, after: Seq<Point>, from: int, to: int) -> bool {
    &&& after.len() == before.len()
    &&& after.subrange(0, from) == before.subrange(0, from)
    &&& after.subrange(to, after.len() as int) == before.subrange(to, before.len() as int)
}

proof fn lemma_swap_remove_to_multiset(s: Seq<Point>, i: int)
    requires
        0 <= i < s.len(),
    ensures
        s.update(i, s.last()).drop_last().to_multiset().insert(s[i]) == s.to_multiset(),
{
    broadcast use vstd::seq_lib::group_to_multiset_ensures;
    broadcast use vstd::multiset::group_multiset_axioms;

    let t = s.update(i, s.last()).drop_last();
    if i == s.len() - 1 {
        assert(s == t.push(s[i]));
    } else {
        let a = s.subrange(0, i);
        let b = s.subrange(i + 1, s.len() - 1);
        let l = seq![s.last()];
        assert(t == a + (l + b));
        assert(s.remove(i) == a + (b + l));
        vstd::seq_lib::lemma_multiset_commutative(a, l + b);
        vstd::seq_lib::lemma_multiset_commutative(l, b);
        vstd::seq_lib::lemma_multiset_commutative(a, b + l);
        vstd::seq_lib::lemma_multiset_commutative(b, l);
        assert(t.to_multiset() =~= s.remove(i).to_multiset());
    }
}

/// Extending the written part of a buffer by what a later step wrote.
proof fn lemma_extend_written(s: Seq<Point>, s2: Seq<Point>, i0: int, i: int, i2: int)
    requires
        0 <= i0 <= i <= i2 <= s.len(),
        s2.len() == s.len(),
        s2.subrange(0, i) == s.subrange(0, i),
    ensures
        s2.subrange(i0, i2) == s.subrange(i0, i) + s2.subrange(i, i2),
        s2.subrange(i0, i2).to_multiset() == s.subrange(i0, i).to_multiset().add(
            s2.subrange(i, i2).to_multiset(),
        ),
{
    assert(s.subrange(i0, i) == s2.subrange(0, i).subrange(i0, i));
    assert(s2.subrange(i0, i2) =~= s.subrange(i0, i) + s2.subrange(i, i2));
    vstd::seq_lib::lemma_multiset_commutative(s.subrange(i0, i), s2.subrange(i, i2));
}

proof fn lemma_clear_of_add(a: Multiset<Point>, b: Multiset<Point>, area: Area)
    ensures
        clear_of(a.add(b), area) <==> clear_of(a, area) && clear_of(b, area),
{
    broadcast use vstd::multiset::group_multiset_axioms;

    if clear_of(a, area) && clear_of(b, area) {
        assert forall|p: Point| #[trigger] a.add(b).contains(p) implies !area.contains(p) by {
            if a.contains(p) {
            } else {
                assert(b.contains(p));
            }
        }
    }
    if clear_of(a.add(b), area) {
        assert forall|p: Point| #[trigger] a.contains(p) implies !area.contains(p) by {
            assert(a.add(b).contains(p));
        }
        assert forall|p: Point| #[trigger] b.contains(p) implies !area.contains(p) by {
            assert(a.add(b).contains(p));
        }
    }
}

proof fn lemma_nothing_written(m: Multiset<Point>, s: Seq<Point>, i: int, area: Area)
    requires
        0 <= i <= s.len(),
    ensures
        drained(m, m, s.subrange(i, i), area),
        kept_outside(s, s, i, i),
{
    broadcast use vstd::seq_lib::group_to_multiset_ensures;
    broadcast use vstd::multiset::group_multiset_axioms;

    assert(s.subrange(i, i) =~= Seq::<Point>::empty());
    assert(Seq::<Point>::empty().to_multiset().len() == 0);
    assert(m =~= m.add(Seq::<Point>::empty().to_multiset()));
}

/// Chaining two writes: what a step wrote after what came before.
proof fn lemma_chain_writes(
    buf0: Seq<Point>,
    b: Seq<Point>,
    b2: Seq<Point>,
    i0: int,
    j: int,
    j2: int,
    area: Area,
)
    requires
        0 <= i0 <= j <= j2 <= b2.len(),
        kept_outside(buf0, b, i0, j),
        kept_outside(b, b2, j, j2),
        forall|k: int| 0 <= k < j - i0 ==> area.contains(#[trigger] b.subrange(i0, j)[k]),
        forall|k: int| 0 <= k < j2 - j ==> area.contains(#[trigger] b2.subrange(j, j2)[k]),
    ensures
        kept_outside(buf0, b2, i0, j2),
        b2.subrange(i0, j2).to_multiset() == b.subrange(i0, j).to_multiset().add(
            b2.subrange(j, j2).to_multiset(),
        ),
        forall|k: int| 0 <= k < j2 - i0 ==> area.contains(#[trigger] b2.subrange(i0, j2)[k]),
{
    lemma_extend_written(b, b2, i0, j, j2);
    assert(b2.subrange(0, i0) =~= b2.subrange(0, j).subrange(0, i0));
    assert(b.subrange(0, i0) =~= b.subrange(0, j).subrange(0, i0));
    assert(b2.subrange(j2, b2.len() as int) =~= b.subrange(j2, b.len() as int));
    assert(b.subrange(j2, b.len() as int) =~= b.subrange(j, b.len() as int).subrange(
        j2 - j,
        b.len() - j,
    ));
    assert(buf0.subrange(j2, buf0.len() as int) =~= buf0.subrange(j, buf0.len() as int).subrange(
        j2 - j,
        buf0.len() - j,
    ));
    assert forall|k: int| 0 <= k < j2 - i0 implies area.contains(
        #[trigger] b2.subrange(i0, j2)[k],
    ) by {
        if k < j - i0 {
            assert(b2.subrange(i0, j2)[k] == b.subrange(i0, j)[k]);
        } else {
            assert(b2.subrange(i0, j2)[k] == b2.subrange(j, j2)[k - (j - i0)]);
        }
    }
}

pub enum NodeInner {
    Leaf { points: Vec<Point> },
    Intermediate { nw: Box<Node>, ne: Box<Node>, sw: Box<Node>, se: Box<Node> },
}

pub struct Node {
    pub area: Area,
    pub inner: NodeInner,
}

impl Node {
    /// The points stored under this node, with their multiplicities.
    pub open spec fn points(self) -> Multiset<Point>
        decreases self,
    {
        match self.inner {
            NodeInner::Leaf { points } => points@.to_multiset(),
            NodeInner::Intermediate { nw, ne, sw, se } => nw.points().add(ne.points()).add(
                sw.points(),
            ).add(se.points()),
        }
    }

    /// Child `k` of an intermediate node, in the order NW, NE, SW, SE.
    pub open spec fn child(self, k: int) -> Node {
        match self.inner {
            NodeInner::Leaf { .. } => self,
            NodeInner::Intermediate { nw, ne, sw, se } => if k == 0 {
                *nw
            } else if k == 1 {
                *ne
            } else if k == 2 {
                *sw
            } else {
                *se
            },
        }
    }

    /// Every stored point lies in the node's area; an intermediate node has the
    /// four quadrants of its area as children, each well formed and holding only
    /// the points that it owns.
    pub open spec fn wf(self) -> bool
        decreases self,
    {
        &&& self.area.wf()
        &&& forall|p: Point| #[trigger] self.points().contains(p) ==> self.area.contains(p)
        &&& match self.inner {
            NodeInner::Leaf { .. } => true,
            NodeInner::Intermediate { nw, ne, sw, se } => {
                &&& self.area.radius >= MIN_SPLIT_RADIUS
                &&& nw.area == quadrant(self.area, 0)
                &&& ne.area == quadrant(self.area, 1)
                &&& sw.area == quadrant(self.area, 2)
                &&& se.area == quadrant(self.area, 3)
                &&& nw.wf() && ne.wf() && sw.wf() && se.wf()
                &&& forall|p: Point| #[trigger] nw.points().contains(p) ==> route(self.area, p) == 0
                &&& forall|p: Point| #[trigger] ne.points().contains(p) ==> route(self.area, p) == 1
                &&& forall|p: Point| #[trigger] sw.points().contains(p) ==> route(self.area, p) == 2
                &&& forall|p: Point| #[trigger] se.points().contains(p) ==> route(self.area, p) == 3
            },
        }
    }

    pub open spec fn measure(self) -> int {
        if self.inner is Leaf {
            2
        } else {
            0
        }
    }

    fn new_leaf(area: Area) -> (r: Node)
        ensures
            r.area == area,
            r.inner is Leaf,
            r.points() =~= Multiset::empty(),
    {
        let r = Node { area, inner: NodeInner::Leaf { points: Vec::new() } };
        proof {
            broadcast use vstd::seq_lib::group_to_multiset_ensures;

            assert(r.points().len() == 0);
        }
        r
    }

    fn insert(&mut self, point: Point) -> (r: Result<(), QTreeError>)
        requires
            old(self).wf(),
        ensures
            final(self).wf(),
            final(self).area == old(self).area,
            old(self).inner is Intermediate ==> final(self).inner is Intermediate,
            r is Ok <==> old(self).area.contains(point),
            r is Ok ==> final(self).points() == old(self).points().insert(point),
            r is Err ==> r == Err::<(), QTreeError>(QTreeError::OutsideArea) && *final(self)
                == *old(self),
        decreases old(self).area.radius as int, old(self).measure(),
    {
        if !self.area.is_point_inside(&point) {
            return Err(QTreeError::OutsideArea);
        }
        let area = self.area;
        let mut inner = NodeInner::Leaf { points: Vec::new() };
        std::mem::swap(&mut inner, &mut self.inner);
        match inner {
            NodeInner::Intermediate { mut nw, mut ne, mut sw, mut se } => {
                proof {
                    lemma_quadrants(area);
                    assert(route(area, point) < 4);
                }
                let ghost k: int;
                if nw.area.is_point_inside(&point) {
                    let _ = (&mut *nw).insert(point);
                    proof {
                        k = 0;
                    }
                } else if ne.area.is_point_inside(&point) {
                    let _ = (&mut *ne).insert(point);
                    proof {
                        k = 1;
                    }
                } else if sw.area.is_point_inside(&point) {
                    let _ = (&mut *sw).insert(point);
                    proof {
                        k = 2;
                    }
                } else {
                    let _ = (&mut *se).insert(point);
                    proof {
                        k = 3;
                    }
                }
                assert(route(area, point) == k);
                self.inner = NodeInner::Intermediate { nw, ne, sw, se };
                proof {
                    broadcast use vstd::multiset::group_multiset_axioms;

                    assert(self.points() =~= old(self).points().insert(point));
                    assert forall|j: int, p: Point|
                        0 <= j < 4 && #[trigger] self.child(j).points().contains(p) implies route(
                        area,
                        p,
                    ) == j by {
                        if j != k || p != point {
                            assert(old(self).child(j).points().contains(p));
                        }
                    }
                    assert(self.child(1).points() == self.inner->Intermediate_ne.points());
                    assert(self.child(2).points() == self.inner->Intermediate_sw.points());
                    assert(self.child(3).points() == self.inner->Intermediate_se.points());
                    assert forall|p: Point| #[trigger] self.points().contains(p) implies area.contains(
                        p,
                    ) by {
                        if p != point {
                            assert(old(self).points().contains(p));
                        }
                    }
                }
            },
            NodeInner::Leaf { mut points } => {
                points.push(point);
                proof {
                    broadcast use vstd::seq_lib::group_to_multiset_ensures;

                    assert(points@ == old(self).inner->Leaf_points@.push(point));
                    assert forall|p: Point| points@.contains(p) implies area.contains(p) by {
                        if p != point {
                            assert(old(self).points().contains(p));
                        }
                    }
                }
                if points.len() > MAX_POINTS && area.radius >= MIN_SPLIT_RADIUS {
                    self.subdivide(points);
                } else {
                    self.inner = NodeInner::Leaf { points };
                }
            },
        }
        Ok(())
    }

    /// Turns this node into an intermediate node with four empty quadrant
    /// leaves and inserts `points` into it.
    fn subdivide(&mut self, points: Vec<Point>)
        requires
            old(self).area.wf(),
            old(self).area.radius >= MIN_SPLIT_RADIUS,
            forall|p: Point| points@.contains(p) ==> old(self).area.contains(p),
        ensures
            final(self).wf(),
            final(self).area == old(self).area,
            final(self).inner is Intermediate,
            final(self).points() == points@.to_multiset(),
        decreases old(self).area.radius as int, 1int,
    {
        let area = self.area;
        proof {
            lemma_quadrants(area);
        }
        let r = area.radius / 2 + EPSILON;
        let nw_area = Area {
            center: Point { x: area.center.x - r, y: area.center.y - r, z: 0 },
            radius: r,
        };
        let ne_area = Area {
            center: Point { x: area.center.x + r, y: area.center.y - r, z: 0 },
            radius: r,
        };
        let sw_area = Area {
            center: Point { x: area.center.x - r, y: area.center.y + r, z: 0 },
            radius: r,
        };
        let se_area = Area {
            center: Point { x: area.center.x + r, y: area.center.y + r, z: 0 },
            radius: r,
        };
        assert(nw_area == quadrant(area, 0));
        assert(ne_area == quadrant(area, 1));
        assert(sw_area == quadrant(area, 2));
        assert(se_area == quadrant(area, 3));
        let nw = Node::new_leaf(nw_area);
        let ne = Node::new_leaf(ne_area);
        let sw = Node::new_leaf(sw_area);
        let se = Node::new_leaf(se_area);
        proof {
            assert(nw.wf() && ne.wf() && sw.wf() && se.wf());
        }
        self.inner = NodeInner::Intermediate {
            nw: Box::new(nw),
            ne: Box::new(ne),
            sw: Box::new(sw),
            se: Box::new(se),
        };
        proof {
            broadcast use vstd::multiset::group_multiset_axioms;
            broadcast use vstd::seq_lib::group_to_multiset_ensures;

            assert(self.points() =~= Multiset::empty());
            assert(points@.subrange(0, 0) =~= Seq::<Point>::empty());
        }
        let mut i: usize = 0;
        while i < points.len()
            invariant
                i <= points.len(),
                self.wf(),
                self.area == area,
                area == old(self).area,
                self.inner is Intermediate,
                self.points() == points@.subrange(0, i as int).to_multiset(),
                area.wf(),
                area.radius >= MIN_SPLIT_RADIUS,
                forall|p: Point| points@.contains(p) ==> area.contains(p),
            decreases points.len() - i,
        {
            let p = points[i];
            assert(points@.contains(p));
            assert(self.measure() == 0);
            let _ = self.insert(p);
            proof {
                broadcast use vstd::seq_lib::group_to_multiset_ensures;

                assert(points@.subrange(0, i + 1) =~= points@.subrange(0, i as int).push(p));
            }
            i = i + 1;
        }
        assert(points@.subrange(0, i as int) =~= points@);
    }


    /// Finds and removes the points of this subtree that lie in `area`, writing
    /// them to `results` from `*idx` on and advancing `*idx` past them.
    fn query(&mut self, area: &Area, results: &mut [Point], idx: &mut usize) -> (r: Result<
        (),
        QTreeError,
    >)
        requires
            old(self).wf(),
            *old(idx) <= old(results)@.len(),
        ensures
            final(self).wf(),
            final(self).area == old(self).area,
            *old(idx) <= *final(idx) <= final(results)@.len(),
            kept_outside(old(results)@, final(results)@, *old(idx) as int, *final(idx) as int),
            drained(
                old(self).points(),
                final(self).points(),
                final(results)@.subrange(*old(idx) as int, *final(idx) as int),
                *area,
            ),
            r is Ok ==> clear_of(final(self).points(), *area),
            r == Err::<(), QTreeError>(QTreeError::OutsideArea) <==> !old(self).area.overlaps(*area),
            r == Err::<(), QTreeError>(QTreeError::OutsideArea) ==> *final(self) == *old(self) && *final(idx) == *old(idx) && final(results)@ == old(results)@,
            r == Err::<(), QTreeError>(QTreeError::BufferFull) ==> *final(idx) == final(results)@.len() && !clear_of(final(self).points(), *area),
        decreases *old(self), 1int,
    {
        broadcast use vstd::seq_lib::group_to_multiset_ensures;
        broadcast use vstd::multiset::group_multiset_axioms;

        if !self.area.intersects(area) {
            proof {
                lemma_nothing_written(self.points(), results@, *idx as int, *area);
            }
            return Err(QTreeError::OutsideArea);
        }
        let ghost i0 = *idx as int;
        let ghost buf0 = results@;
        let mut inner = NodeInner::Leaf { points: Vec::new() };
        std::mem::swap(&mut inner, &mut self.inner);
        match inner {
            NodeInner::Intermediate { mut nw, mut ne, mut sw, mut se } => {
                let ghost c0 = old(self).child(0);
                let ghost c1 = old(self).child(1);
                let ghost c2 = old(self).child(2);
                let ghost c3 = old(self).child(3);
                proof {
                    lemma_nothing_written(old(self).points(), results@, i0, *area);
                }
                let ghost b = results@;
                let ghost j = *idx as int;
                let mut res = Node::query_child(&mut *nw, area, results, idx);
                proof {
                    lemma_chain_writes(buf0, b, results@, i0, j, *idx as int, *area);
                    assert(old(self).points() =~= nw.points().add(c1.points()).add(c2.points()).add(
                        c3.points(),
                    ).add(results@.subrange(i0, *idx as int).to_multiset()));
                }
                if res.is_ok() {
                    let ghost b = results@;
                    let ghost j = *idx as int;
                    res = Node::query_child(&mut *ne, area, results, idx);
                    proof {
                        lemma_chain_writes(buf0, b, results@, i0, j, *idx as int, *area);
                        assert(old(self).points() =~= nw.points().add(ne.points()).add(
                            c2.points(),
                        ).add(c3.points()).add(results@.subrange(i0, *idx as int).to_multiset()));
                    }
                }
                if res.is_ok() {
                    let ghost b = results@;
                    let ghost j = *idx as int;
                    res = Node::query_child(&mut *sw, area, results, idx);
                    proof {
                        lemma_chain_writes(buf0, b, results@, i0, j, *idx as int, *area);
                        assert(old(self).points() =~= nw.points().add(ne.points()).add(
                            sw.points(),
                        ).add(c3.points()).add(results@.subrange(i0, *idx as int).to_multiset()));
                    }
                }
                if res.is_ok() {
                    let ghost b = results@;
                    let ghost j = *idx as int;
                    res = Node::query_child(&mut *se, area, results, idx);
                    proof {
                        lemma_chain_writes(buf0, b, results@, i0, j, *idx as int, *area);
                        assert(old(self).points() =~= nw.points().add(ne.points()).add(
                            sw.points(),
                        ).add(se.points()).add(results@.subrange(i0, *idx as int).to_multiset()));
                    }
                }
                self.inner = NodeInner::Intermediate { nw, ne, sw, se };
                proof {
                    assert(self.points() =~= nw.points().add(ne.points()).add(sw.points()).add(
                        se.points(),
                    ));
                    assert forall|p: Point| #[trigger] self.points().contains(p) implies self.area.contains(
                        p,
                    ) by {
                        assert(old(self).points().count(p) >= self.points().count(p));
                        assert(old(self).points().contains(p));
                    }
                    lemma_clear_of_add(nw.points(), ne.points(), *area);
                    lemma_clear_of_add(nw.points().add(ne.points()), sw.points(), *area);
                    lemma_clear_of_add(nw.points().add(ne.points()).add(sw.points()), se.points(), *area);
                    assert forall|p: Point| #[trigger] nw.points().contains(p) implies route(
                        self.area,
                        p,
                    ) == 0 by {
                        assert(c0.points().count(p) >= nw.points().count(p));
                        assert(c0.points().contains(p));
                    }
                    assert forall|p: Point| #[trigger] ne.points().contains(p) implies route(
                        self.area,
                        p,
                    ) == 1 by {
                        assert(c1.points().count(p) >= ne.points().count(p));
                        assert(c1.points().contains(p));
                    }
                    assert forall|p: Point| #[trigger] sw.points().contains(p) implies route(
                        self.area,
                        p,
                    ) == 2 by {
                        assert(c2.points().count(p) >= sw.points().count(p));
                        assert(c2.points().contains(p));
                    }
                    assert forall|p: Point| #[trigger] se.points().contains(p) implies route(
                        self.area,
                        p,
                    ) == 3 by {
                        assert(c3.points().count(p) >= se.points().count(p));
                        assert(c3.points().contains(p));
                    }
                }
                res
            },
            NodeInner::Leaf { mut points } => {
                let ghost leaf0 = points@;
                let res = Node::query_leaf(&mut points, area, results, idx);
                self.inner = NodeInner::Leaf { points };
                proof {
                    assert(old(self).points() == leaf0.to_multiset());
                    assert forall|p: Point| #[trigger] self.points().contains(p) implies self.area.contains(
                        p,
                    ) by {
                        assert(leaf0.to_multiset().count(p) >= self.points().count(p));
                        assert(old(self).points().contains(p));
                    }
                }
                res
            },
        }
    }

    /// Scans a leaf's points, moving those in `area` to `results` from `*idx` on.
    fn query_leaf(points: &mut Vec<Point>, area: &Area, results: &mut [Point], idx: &mut usize) -> (r:
        Result<(), QTreeError>)
        requires
            *old(idx) <= old(results)@.len(),
        ensures
            *old(idx) <= *final(idx) <= final(results)@.len(),
            kept_outside(old(results)@, final(results)@, *old(idx) as int, *final(idx) as int),
            drained(
                old(points)@.to_multiset(),
                final(points)@.to_multiset(),
                final(results)@.subrange(*old(idx) as int, *final(idx) as int),
                *area,
            ),
            r is Ok ==> clear_of(final(points)@.to_multiset(), *area),
            r != Err::<(), QTreeError>(QTreeError::OutsideArea),
            r == Err::<(), QTreeError>(QTreeError::BufferFull) ==> *final(idx) == final(results)@.len() && !clear_of(final(points)@.to_multiset(), *area),
    {
        broadcast use vstd::seq_lib::group_to_multiset_ensures;
        broadcast use vstd::multiset::group_multiset_axioms;

        let ghost i0 = *idx as int;
        let ghost buf0 = results@;
        let ghost leaf0 = points@;
        proof {
            lemma_nothing_written(leaf0.to_multiset(), results@, i0, *area);
        }
        let mut i: usize = 0;
        while i < points.len()
            invariant
                i <= points.len(),
                i0 == *old(idx),
                buf0 == old(results)@,
                leaf0 == old(points)@,
                i0 <= *idx <= results@.len(),
                kept_outside(buf0, results@, i0, *idx as int),
                drained(
                    leaf0.to_multiset(),
                    points@.to_multiset(),
                    results@.subrange(i0, *idx as int),
                    *area,
                ),
                forall|j: int| 0 <= j < i ==> !area.contains(#[trigger] points@[j]),
            decreases points.len() - i, points.len(),
        {
            if !area.is_point_inside(&points[i]) {
                i = i + 1;
                continue;
            }
            if *idx >= results.len() {
                proof {
                    assert(points@.contains(points@[i as int]));
                    points@.to_multiset_ensures();
                    assert(points@.to_multiset().contains(points@[i as int]));
                }
                return Err(QTreeError::BufferFull);
            }
            let ghost before = points@;
            let ghost buf = results@;
            let point = points.swap_remove(i);
            results[*idx] = point;
            *idx = *idx + 1;
            proof {
                lemma_swap_remove_to_multiset(before, i as int);
                assert(results@.subrange(0, *idx - 1) =~= buf.subrange(0, *idx - 1));
                lemma_extend_written(buf, results@, i0, *idx - 1, *idx as int);
                assert(buf.subrange(*idx as int, buf.len() as int) =~= buf.subrange(
                    *idx - 1,
                    buf.len() as int,
                ).subrange(1, buf.len() - *idx + 1));
                assert(buf0.subrange(*idx as int, buf0.len() as int) =~= buf0.subrange(
                    *idx - 1,
                    buf0.len() as int,
                ).subrange(1, buf0.len() - *idx + 1));
                assert(results@.subrange(*idx - 1, *idx as int) =~= seq![point]);
                assert(seq![point] =~= Seq::<Point>::empty().push(point));
                Seq::<Point>::empty().to_multiset_ensures();
                vstd::multiset::lemma_multiset_empty_len(Seq::<Point>::empty().to_multiset());
                vstd::seq_lib::to_multiset_build(Seq::<Point>::empty(), point);
                assert(seq![point].to_multiset() =~= Multiset::empty().insert(point));
                assert(leaf0.to_multiset() =~= points@.to_multiset().add(
                    results@.subrange(i0, *idx as int).to_multiset(),
                ));
                assert forall|k: int| 0 <= k < *idx - i0 implies area.contains(
                    #[trigger] results@.subrange(i0, *idx as int)[k],
                ) by {
                    if k < *idx - 1 - i0 {
                        assert(results@.subrange(i0, *idx as int)[k] == buf.subrange(
                            i0,
                            *idx - 1,
                        )[k]);
                    }
                }
                assert(results@.subrange(0, i0) =~= buf.subrange(0, i0));
                assert(results@.subrange(*idx as int, results@.len() as int) =~= buf.subrange(
                    *idx as int,
                    buf.len() as int,
                ));
            }
        }
        proof {
            assert forall|p: Point| #[trigger] points@.to_multiset().contains(p) implies !area.contains(
                p,
            ) by {
                assert(points@.contains(p));
            }
        }
        Ok(())
    }

    /// Queries a child only where its area meets `area`: a child that it does
    /// not meet holds no point in `area`.
    fn query_child(child: &mut Node, area: &Area, results: &mut [Point], idx: &mut usize) -> (r:
        Result<(), QTreeError>)
        requires
            old(child).wf(),
            *old(idx) <= old(results)@.len(),
        ensures
            final(child).wf(),
            final(child).area == old(child).area,
            *old(idx) <= *final(idx) <= final(results)@.len(),
            kept_outside(old(results)@, final(results)@, *old(idx) as int, *final(idx) as int),
            drained(
                old(child).points(),
                final(child).points(),
                final(results)@.subrange(*old(idx) as int, *final(idx) as int),
                *area,
            ),
            r is Ok ==> clear_of(final(child).points(), *area),
            r != Err::<(), QTreeError>(QTreeError::OutsideArea),
            r == Err::<(), QTreeError>(QTreeError::BufferFull) ==> *final(idx) == final(results)@.len() && !clear_of(final(child).points(), *area),
        decreases *old(child), 2int,
    {
        if child.area.intersects(area) {
            child.query(area, results, idx)
        } else {
            proof {
                broadcast use vstd::seq_lib::group_to_multiset_ensures;
                broadcast use vstd::multiset::group_multiset_axioms;

                lemma_nothing_written(child.points(), results@, *idx as int, *area);
                assert forall|p: Point| #[trigger] child.points().contains(p) implies !area.contains(
                    p,
                ) by {
                    if area.contains(p) {
                        crate::geometry::lemma_common_point_overlaps(child.area, *area, p);
                    }
                }
            }
            Ok(())
        }
    }

    /// Levels from this node down to its deepest leaf.
    pub open spec fn depth(self) -> int
        decreases self,
    {
        match self.inner {
            NodeInner::Leaf { .. } => 1,
            NodeInner::Intermediate { nw, ne, sw, se } => 1 + vstd::math::max(
                vstd::math::max(nw.depth(), ne.depth()),
                vstd::math::max(sw.depth(), se.depth()),
            ),
        }
    }

    fn depth_exec(&self) -> (r: i64)
        requires
            self.wf(),
        ensures
            r == self.depth(),
            1 <= r <= self.area.radius,
        decreases self,
    {
        match &self.inner {
            NodeInner::Leaf { .. } => 1,
            NodeInner::Intermediate { nw, ne, sw, se } => {
                proof {
                    lemma_quadrants(self.area);
                    assert(nw.area == quadrant(self.area, 0));
                    assert(ne.area == quadrant(self.area, 1));
                    assert(sw.area == quadrant(self.area, 2));
                    assert(se.area == quadrant(self.area, 3));
                }
                let a = nw.depth_exec();
                let b = ne.depth_exec();
                let c = sw.depth_exec();
                let d = se.depth_exec();
                let ab = if a >= b {
                    a
                } else {
                    b
                };
                let cd = if c >= d {
                    c
                } else {
                    d
                };
                let m = if ab >= cd {
                    ab
                } else {
                    cd
                };
                1 + m
            },
        }
    }

    fn size(&self) -> (r: usize)
        requires
            self.wf(),
            self.points().len() <= usize::MAX,
        ensures
            r == self.points().len(),
        decreases self,
    {
        proof {
            broadcast use vstd::multiset::group_multiset_axioms;
            broadcast use vstd::seq_lib::group_to_multiset_ensures;

        }
        match &self.inner {
            NodeInner::Leaf { points } => points.len(),
            NodeInner::Intermediate { nw, ne, sw, se } => {
                nw.size() + ne.size() + sw.size() + se.size()
            },
        }
    }
}

/// In a split node every point is held by exactly one quadrant, the one that
/// owns it, and that quadrant holds all of its copies.
pub proof fn lemma_split_partition(n: Node, p: Point)
    requires
        n.wf(),
        n.inner is Intermediate,
        n.points().contains(p),
    ensures
        0 <= route(n.area, p) < 4,
        n.child(route(n.area, p)).points().count(p) == n.points().count(p),
        forall|k: int|
            0 <= k < 4 && k != route(n.area, p) ==> #[trigger] n.child(k).points().count(p) == 0,
{
    broadcast use vstd::multiset::group_multiset_axioms;

    lemma_quadrants(n.area);
    assert(n.area.contains(p));
    assert forall|k: int| 0 <= k < 4 && k != route(n.area, p) implies #[trigger] n.child(k).points().count(
        p,
    ) == 0 by {
        if n.child(k).points().count(p) > 0 {
            assert(n.child(k).points().contains(p));
        }
    }
    assert(n.points() == n.child(0).points().add(n.child(1).points()).add(n.child(2).points()).add(
        n.child(3).points(),
    ));
}

/// A query never adds points: the tree keeps at most as many as before.
pub proof fn lemma_query_shrinks(
    before: Multiset<Point>,
    after: Multiset<Point>,
    out: Seq<Point>,
    area: Area,
)
    requires
        drained(before, after, out, area),
    ensures
        after.len() <= before.len(),
        after.subset_of(before),
{
    broadcast use vstd::multiset::group_multiset_axioms;

    assert forall|p: Point| after.count(p) <= #[trigger] before.count(p) by {}
}

/// The spatial index: one root node covering a fixed area.
pub struct QTree(Node);

impl View for QTree {
    type V = Multiset<Point>;

    /// The points held, with their multiplicities.
    closed spec fn view(&self) -> Multiset<Point> {
        self.0.points()
    }
}

impl QTree {
    pub closed spec fn wf(&self) -> bool {
        self.0.wf()
    }

    /// The area the tree covers.
    pub closed spec fn spec_area(&self) -> Area {
        self.0.area
    }

    /// Levels of the tree: 1 until the root first splits.
    pub closed spec fn spec_depth(&self) -> int {
        self.0.depth()
    }

    /// Every point held lies in the tree's area.
    pub proof fn lemma_points_in_area(&self)
        requires
            self.wf(),
        ensures
            forall|p: Point| #[trigger] self@.contains(p) ==> self.spec_area().contains(p),
    {
    }

    /// An empty tree covering `area`.
    pub fn new(area: Area) -> (t: QTree)
        requires
            area.wf(),
        ensures
            t.wf(),
            t@ == Multiset::<Point>::empty(),
            t.spec_area() == area,
            t.spec_depth() == 1,
    {
        let t = QTree(Node::new_leaf(area));
        proof {
            broadcast use vstd::multiset::group_multiset_axioms;

            assert(t.0.wf());
        }
        t
    }

    /// Adds a point; fails, changing nothing, where it lies outside the tree's area.
    pub fn insert(&mut self, point: Point) -> (r: Result<(), QTreeError>)
        requires
            old(self).wf(),
        ensures
            final(self).wf(),
            final(self).spec_area() == old(self).spec_area(),
            r is Ok <==> old(self).spec_area().contains(point),
            r is Ok ==> final(self)@ == old(self)@.insert(point),
            r is Err ==> r == Err::<(), QTreeError>(QTreeError::OutsideArea) && final(self)@ == old(self)@ && final(self).spec_depth() == old(self).spec_depth(),
    {
        self.0.insert(point)
    }

    /// Number of points held.
    pub fn size(&self) -> (r: usize)
        requires
            self.wf(),
            self@.len() <= usize::MAX,
        ensures
            r == self@.len(),
    {
        self.0.size()
    }

    /// Levels of the tree.
    pub fn depth(&self) -> (r: i64)
        requires
            self.wf(),
        ensures
            r == self.spec_depth(),
    {
        self.0.depth_exec()
    }

    /// Removes every point that lies in `area` and writes them to the front of
    /// `results`, returning how many there were. Fails where `area` does not
    /// meet the tree's area (changing nothing), or where the matches do not fit
    /// in `results` (then `results` is full of matches and at least one match
    /// stays in the tree).
    pub fn query(&mut self, area: &Area, results: &mut [Point]) -> (r: Result<usize, QTreeError>)
        requires
            old(self).wf(),
        ensures
            final(self).wf(),
            final(self).spec_area() == old(self).spec_area(),
            final(results)@.len() == old(results)@.len(),
            r == Err::<usize, QTreeError>(QTreeError::OutsideArea) <==> !old(self).spec_area().overlaps(*area),
            r == Err::<usize, QTreeError>(QTreeError::OutsideArea) ==> final(self)@ == old(self)@ && final(results)@ == old(results)@,
            r is Ok ==> {
                let n = r->Ok_0 as int;
                &&& n <= final(results)@.len()
                &&& drained(old(self)@, final(self)@, final(results)@.subrange(0, n), *area)
                &&& clear_of(final(self)@, *area)
                &&& final(results)@.subrange(n, final(results)@.len() as int) == old(results)@.subrange(n, old(results)@.len() as int)
            },
            r == Err::<usize, QTreeError>(QTreeError::BufferFull) ==> drained(old(self)@, final(self)@, final(results)@, *area) && !clear_of(final(self)@, *area),
    {
        let mut idx: usize = 0;
        let res = self.0.query(area, results, &mut idx);
        proof {
            assert(results@.subrange(0, results@.len() as int) =~= results@);
        }
        match res {
            Ok(()) => Ok(idx),
            Err(e) => Err(e),
        }
    }
}

} // verus!
