//! The connectivity engine and the pipeline around it: pre-filter the samples,
//! index the candidates, and flood outwards from home by short hops.

use crate::geometry::{abs, is_bounds_of, Area, Bounds, Point};
use crate::qtree::{clear_of, drained, QTree, QTreeError};
use vstd::multiset::Multiset;
use vstd::prelude::*;

verus! {

/// Samples farther than this from home (100 km) are never candidates.
pub const MAX_DISTANCE: i64 = 100_000_000;

/// Largest hop between neighbouring samples (6 m).
pub const JUMP_DISTANCE: i64 = 6_000;

/// Most points one hop query may return.
pub const BUFFER_SIZE: usize = 50;

/// Largest planar coordinate, in absolute value, that the index is built over.
pub const COORD_LIMIT: i64 = 0x1000_0000_0000_0000;

/// Squared planar distance.
pub open spec fn dist_sq(a: Point, b: Point) -> int {
    (a.x - b.x) * (a.x - b.x) + (a.y - b.y) * (a.y - b.y)
}

/// Within the maximum distance of home.
pub open spec fn near(p: Point, home: Point) -> bool {
    dist_sq(p, home) <= MAX_DISTANCE * MAX_DISTANCE
}

/// `s[i]` is the sample nearest to home among those near it, the first such
/// where several are equally near.
pub open spec fn is_reference(s: Seq<Point>, home: Point, i: int) -> bool {
    &&& 0 <= i < s.len()
    &&& near(s[i], home)
    &&& forall|j: int|
        0 <= j < s.len() && near(#[trigger] s[j], home) ==> dist_sq(s[i], home) <= dist_sq(s[j], home)
            && (j < i ==> dist_sq(s[i], home) < dist_sq(s[j], home))
}

/// Kept by the pre-filter: near home and at most `depth` above the reference.
pub open spec fn passes(p: Point, home: Point, ref_z: int, depth: i64) -> bool {
    near(p, home) && p.z <= ref_z + depth
}

/// The candidate set: the samples near home whose elevation is at most `depth`
/// above that of the reference sample; empty where no sample is near.
pub open spec fn candidate_set(s: Seq<Point>, home: Point, depth: i64) -> Seq<Point> {
    if exists|i: int| is_reference(s, home, i) {
        let i = choose|i: int| is_reference(s, home, i);
        s.filter(|p: Point| passes(p, home, s[i].z as int, depth))
    } else {
        Seq::empty()
    }
}

/// The square that `area_from_points` builds around a bounding rectangle.
pub open spec fn square_around(b: Bounds) -> Area {
    let w = b.max_x - b.min_x;
    let h = b.max_y - b.min_y;
    let m = if w >= h {
        w
    } else {
        h
    };
    Area {
        center: Point { x: (b.min_x + w / 2) as i64, y: (b.min_y + h / 2) as i64, z: 0 },
        radius: (if m < 1 {
            1
        } else {
            (m + 1) / 2
        }) as i64,
    }
}

pub open spec fn in_range(p: Point) -> bool {
    abs(p.x as int) <= COORD_LIMIT && abs(p.y as int) <= COORD_LIMIT
}

/// Squared distance to home, where the sample is near home.
pub fn near_distance_sq(p: &Point, home: &Point) -> (r: Option<i64>)
    ensures
        r is Some <==> near(*p, *home),
        r is Some ==> r->Some_0 == dist_sq(*p, *home),
{
    let dx = p.x as i128 - home.x as i128;
    let dy = p.y as i128 - home.y as i128;
    let m = MAX_DISTANCE as i128;
    if dx > m || dx < -m || dy > m || dy < -m {
        proof {
            let ddx = p.x - home.x;
            let ddy = p.y - home.y;
            assert(ddx * ddx >= 0 && ddy * ddy >= 0) by (nonlinear_arith);
            if dx > m || dx < -m {
                assert(ddx * ddx > MAX_DISTANCE * MAX_DISTANCE) by (nonlinear_arith)
                    requires
                        ddx > MAX_DISTANCE || ddx < -MAX_DISTANCE,
                        MAX_DISTANCE > 0,
                ;
            } else {
                assert(ddy * ddy > MAX_DISTANCE * MAX_DISTANCE) by (nonlinear_arith)
                    requires
                        ddy > MAX_DISTANCE || ddy < -MAX_DISTANCE,
                        MAX_DISTANCE > 0,
                ;
            }
        }
        return None;
    }
    assert(0 <= dx * dx <= 10_000_000_000_000_000) by (nonlinear_arith)
        requires
            -100_000_000 <= dx <= 100_000_000,
    ;
    assert(0 <= dy * dy <= 10_000_000_000_000_000) by (nonlinear_arith)
        requires
            -100_000_000 <= dy <= 100_000_000,
    ;
    let d = dx * dx + dy * dy;
    if d <= m * m {
        Some(d as i64)
    } else {
        None
    }
}

/// The pre-filter: drops the samples farther than the maximum distance from
/// home, then those higher than `depth` above the nearest remaining sample.
pub fn candidates(home: &Point, points: &Vec<Point>, depth: i64) -> (r: Vec<Point>)
    ensures
        r@ == candidate_set(points@, *home, depth),
{
    // The nearest sample: the first of the nearest where several tie.
    let mut best: Option<(usize, i64)> = None;
    let mut i: usize = 0;
    while i < points.len()
        invariant
            i <= points@.len(),
            best is None ==> forall|j: int| 0 <= j < i ==> !near(#[trigger] points@[j], *home),
            best is Some ==> {
                let (bi, bd) = best->Some_0;
                &&& bi < i
                &&& near(points@[bi as int], *home)
                &&& bd == dist_sq(points@[bi as int], *home)
                &&& forall|j: int|
                    0 <= j < i && near(#[trigger] points@[j], *home) ==> bd <= dist_sq(points@[j], *home)
                        && (j < bi ==> bd < dist_sq(points@[j], *home))
            },
        decreases points@.len() - i,
    {
        match near_distance_sq(&points[i], home) {
            Some(d) => {
                match best {
                    None => {
                        best = Some((i, d));
                    },
                    Some((_, bd)) => {
                        if d < bd {
                            best = Some((i, d));
                        }
                    },
                }
            },
            None => {},
        }
        i = i + 1;
    }
    let mut r: Vec<Point> = Vec::new();
    match best {
        None => {
            proof {
                assert forall|k: int| !is_reference(points@, *home, k) by {
                    if 0 <= k < points@.len() {
                        assert(!near(points@[k], *home));
                    }
                }
            }
            return r;
        },
        Some((bi, _)) => {
            let ref_z = points[bi].z;
            let ghost pred = |p: Point| passes(p, *home, ref_z as int, depth);
            proof {
                assert(is_reference(points@, *home, bi as int));
                let c = choose|i: int| is_reference(points@, *home, i);
                if c < bi {
                    assert(near(points@[c], *home));
                } else if c > bi {
                    assert(near(points@[bi as int], *home));
                }
                assert(c == bi);
                reveal(Seq::filter);
                assert(points@.subrange(0, 0).filter(pred) =~= Seq::<Point>::empty());
            }
            let mut k: usize = 0;
            while k < points.len()
                invariant
                    k <= points@.len(),
                    r@ == points@.subrange(0, k as int).filter(pred),
                    pred == (|p: Point| passes(p, *home, ref_z as int, depth)),
                decreases points@.len() - k,
            {
                let p = points[k];
                let keep = match near_distance_sq(&p, home) {
                    Some(_) => p.z as i128 <= ref_z as i128 + depth as i128,
                    None => false,
                };
                proof {
                    assert(keep == pred(p));
                    assert(points@.subrange(0, k + 1).drop_last() =~= points@.subrange(0, k as int));
                    assert(points@.subrange(0, k + 1).last() == p);
                }
                let ghost r0 = r@;
                if keep {
                    r.push(p);
                }
                proof {
                    let s2 = points@.subrange(0, k + 1);
                    reveal(Seq::filter);
                    assert(s2.len() > 0);
                    assert(s2.filter(pred) == (if pred(s2.last()) {
                        s2.drop_last().filter(pred).push(s2.last())
                    } else {
                        s2.drop_last().filter(pred)
                    }));
                    assert(r0 == points@.subrange(0, k as int).filter(pred));
                }
                k = k + 1;
            }
            assert(points@.subrange(0, k as int) =~= points@);
            r
        },
    }
}

/// A square covering all `points`, centered on their bounding rectangle, with
/// radius at least 1; a unit square at the origin for no points.
pub fn area_from_points(points: &[Point]) -> (r: Area)
    requires
        forall|i: int| 0 <= i < points@.len() ==> in_range(#[trigger] points@[i]),
    ensures
        r.wf(),
        forall|i: int| 0 <= i < points@.len() ==> r.contains(#[trigger] points@[i]),
        points@.len() == 0 ==> r == (Area { center: Point { x: 0, y: 0, z: 0 }, radius: 1 }),
        forall|b: Bounds| is_bounds_of(points@, b) ==> r == square_around(b),
{
    match Bounds::of_points(points) {
        None => Area { center: Point { x: 0, y: 0, z: 0 }, radius: 1 },
        Some(b) => {
            proof {
                let k1 = choose|i: int| 0 <= i < points@.len() && points@[i].x == b.min_x;
                let k2 = choose|i: int| 0 <= i < points@.len() && points@[i].x == b.max_x;
                let k3 = choose|i: int| 0 <= i < points@.len() && points@[i].y == b.min_y;
                let k4 = choose|i: int| 0 <= i < points@.len() && points@[i].y == b.max_y;
                assert(in_range(points@[k1]) && in_range(points@[k2]) && in_range(points@[k3])
                    && in_range(points@[k4]));
                assert forall|b2: Bounds| is_bounds_of(points@, b2) implies b2 == b by {
                    let j1 = choose|i: int| 0 <= i < points@.len() && points@[i].x == b2.min_x;
                    let j2 = choose|i: int| 0 <= i < points@.len() && points@[i].x == b2.max_x;
                    let j3 = choose|i: int| 0 <= i < points@.len() && points@[i].y == b2.min_y;
                    let j4 = choose|i: int| 0 <= i < points@.len() && points@[i].y == b2.max_y;
                    assert(b.min_x <= points@[j1].x && b2.min_x <= points@[k1].x);
                    assert(b.max_x >= points@[j2].x && b2.max_x >= points@[k2].x);
                    assert(b.min_y <= points@[j3].y && b2.min_y <= points@[k3].y);
                    assert(b.max_y >= points@[j4].y && b2.max_y >= points@[k4].y);
                }
            }
            let w = b.max_x - b.min_x;
            let h = b.max_y - b.min_y;
            let m = if w >= h {
                w
            } else {
                h
            };
            let radius = if m < 1 {
                1
            } else {
                (m + 1) / 2
            };
            let r = Area { center: Point { x: b.min_x + w / 2, y: b.min_y + h / 2, z: 0 }, radius };
            assert(r == square_around(b));
            r
        },
    }
}

/// The square that one hop from `p` reaches.
pub open spec fn hop(p: Point, jump: i64) -> Area {
    Area { center: p, radius: jump }
}

/// A path from `home` over candidates, each hop within `jump` on both axes.
pub open spec fn is_chain(c: Seq<Point>, home: Point, cands: Multiset<Point>, jump: i64) -> bool {
    &&& c.len() >= 1
    &&& c[0] == home
    &&& forall|i: int|
        1 <= i < c.len() ==> #[trigger] cands.contains(c[i]) && hop(c[i - 1], jump).contains(c[i])
}

/// `p` can be reached from `home` by hops over candidates.
pub open spec fn reachable(home: Point, cands: Multiset<Point>, jump: i64, p: Point) -> bool {
    exists|c: Seq<Point>| is_chain(c, home, cands, jump) && c.last() == p
}

proof fn lemma_extend_chain(
    home: Point,
    cands: Multiset<Point>,
    jump: i64,
    p: Point,
    q: Point,
)
    requires
        reachable(home, cands, jump, p),
        cands.contains(q),
        hop(p, jump).contains(q),
    ensures
        reachable(home, cands, jump, q),
{
    let c = choose|c: Seq<Point>| is_chain(c, home, cands, jump) && c.last() == p;
    let c2 = c.push(q);
    assert forall|i: int| 1 <= i < c2.len() implies #[trigger] cands.contains(c2[i]) && hop(
        c2[i - 1],
        jump,
    ).contains(c2[i]) by {
        if i < c.len() {
            assert(c2[i] == c[i] && c2[i - 1] == c[i - 1]);
        }
    }
    assert(is_chain(c2, home, cands, jump) && c2.last() == q);
}

/// Every point of a chain lies in a result set that starts at home, is closed
/// under hops over what is left, and holds all that was taken.
proof fn lemma_chain_in_result(
    c: Seq<Point>,
    home: Point,
    cands: Multiset<Point>,
    left: Multiset<Point>,
    res: Seq<Point>,
    jump: i64,
    n: int,
)
    requires
        is_chain(c, home, cands, jump),
        0 < n <= c.len(),
        res.len() >= 1,
        res[0] == home,
        cands == left.add(res.drop_first().to_multiset()),
        forall|j: int| 0 <= j < res.len() ==> clear_of(left, hop(#[trigger] res[j], jump)),
    ensures
        res.contains(c[n - 1]),
    decreases n,
{
    broadcast use vstd::seq_lib::group_to_multiset_ensures;
    broadcast use vstd::multiset::group_multiset_axioms;

    if n == 1 {
        assert(res[0] == c[0]);
    } else {
        lemma_chain_in_result(c, home, cands, left, res, jump, n - 1);
        let j = choose|j: int| 0 <= j < res.len() && res[j] == c[n - 2];
        let q = c[n - 1];
        assert(cands.contains(q));
        assert(hop(res[j], jump).contains(q));
        assert(clear_of(left, hop(res[j], jump)));
        assert(!left.contains(q));
        assert(res.drop_first().to_multiset().contains(q));
        assert(res.drop_first().contains(q));
        let k = choose|k: int| 0 <= k < res.drop_first().len() && res.drop_first()[k] == q;
        assert(res[k + 1] == q);
    }
}

proof fn lemma_clear_of_sub(before: Multiset<Point>, after: Multiset<Point>, out: Multiset<Point>, area: Area)
    requires
        before == after.add(out),
        clear_of(before, area),
    ensures
        clear_of(after, area),
{
    broadcast use vstd::multiset::group_multiset_axioms;

    assert forall|p: Point| #[trigger] after.contains(p) implies !area.contains(p) by {
        assert(before.contains(p));
    }
}

/// Floods outwards from `home`: the result starts with `home`, and each query
/// around a result point removes its neighbours from `tree` and appends them.
/// Stops when the queries run out of new points; fails only where one query
/// finds more points than `buffer` holds.
pub fn flood(home: Point, tree: &mut QTree, jump: i64, buffer: &mut [Point]) -> (r: Result<
    Vec<Point>,
    QTreeError,
>)
    requires
        old(tree).wf(),
    ensures
        final(tree).wf(),
        r is Err ==> r == Err::<Vec<Point>, QTreeError>(QTreeError::BufferFull),
        old(buffer)@.len() >= old(tree)@.len() ==> r is Ok,
        r is Ok ==> {
            let res = r->Ok_0@;
            &&& res.len() >= 1
            &&& res[0] == home
            &&& old(tree)@ == final(tree)@.add(res.drop_first().to_multiset())
            &&& forall|j: int| 0 <= j < res.len() ==> clear_of(final(tree)@, hop(#[trigger] res[j], jump))
            &&& forall|p: Point| res.contains(p) <==> reachable(home, old(tree)@, jump, p)
        },
{
    broadcast use vstd::seq_lib::group_to_multiset_ensures;
    broadcast use vstd::multiset::group_multiset_axioms;

    let ghost cands = tree@;
    let mut results: Vec<Point> = Vec::new();
    results.push(home);
    proof {
        assert(results@.drop_first() =~= Seq::<Point>::empty());
        Seq::<Point>::empty().to_multiset_ensures();
        vstd::multiset::lemma_multiset_empty_len(Seq::<Point>::empty().to_multiset());
        assert(cands =~= tree@.add(results@.drop_first().to_multiset()));
        let c = seq![home];
        assert(is_chain(c, home, cands, jump) && c.last() == home);
    }
    let mut idx: usize = 0;
    while idx < results.len()
        invariant
            tree.wf(),
            buffer@.len() == old(buffer)@.len(),
            cands == old(tree)@,
            1 <= results@.len(),
            idx <= results@.len(),
            results@[0] == home,
            cands == tree@.add(results@.drop_first().to_multiset()),
            forall|j: int| 0 <= j < idx ==> clear_of(tree@, hop(#[trigger] results@[j], jump)),
            forall|k: int| 0 <= k < results@.len() ==> reachable(home, cands, jump, #[trigger] results@[k]),
        decreases tree@.len() + results@.len() - idx,
    {
        let center = results[idx];
        let area = Area { center, radius: jump };
        let ghost before = tree@;
        let found = tree.query(&area, buffer);
        let n: usize = match found {
            Ok(n) => n,
            Err(QTreeError::OutsideArea) => {
                proof {
                    tree.lemma_points_in_area();
                    assert forall|p: Point| #[trigger] tree@.contains(p) implies !area.contains(p) by {
                        if area.contains(p) {
                            crate::geometry::lemma_common_point_overlaps(tree.spec_area(), area, p);
                        }
                    }
                }
                0
            },
            Err(e) => {
                proof {
                    let full = buffer@;
                    full.to_multiset_ensures();
                    assert(tree@.len() > 0) by {
                        let p = choose|p: Point| #[trigger] tree@.contains(p) && area.contains(p);
                        assert(tree@.count(p) > 0);
                    }
                    assert(before.len() == tree@.len() + full.len());
                    assert(cands.len() >= before.len());
                }
                return Err(e);
            },
        };
        assert(n <= buffer@.len());
        let ghost out = buffer@.subrange(0, n as int);
        proof {
            if found is Err {
                assert(out =~= Seq::<Point>::empty());
                Seq::<Point>::empty().to_multiset_ensures();
                vstd::multiset::lemma_multiset_empty_len(Seq::<Point>::empty().to_multiset());
                assert(before =~= tree@.add(out.to_multiset()));
            }
            assert(drained(before, tree@, out, area));
            assert forall|j: int| 0 <= j < idx implies clear_of(tree@, hop(#[trigger] results@[j], jump)) by {
                lemma_clear_of_sub(before, tree@, out.to_multiset(), hop(results@[j], jump));
            }
        }
        let ghost base = results@;
        let mut i: usize = 0;
        while i < n
            invariant
                n <= buffer@.len(),
                out == buffer@.subrange(0, n as int),
                drained(before, tree@, out, area),
                area == hop(center, jump),
                forall|k: int| 0 <= k < results@.len() ==> reachable(home, cands, jump, #[trigger] results@[k]),
                cands == before.add(base.drop_first().to_multiset()),
                i <= n,
                results@ == base + out.subrange(0, i as int),
                base.len() >= 1,
                idx < base.len(),
                base[idx as int] == center,
                forall|k: int| 0 <= k < base.len() ==> reachable(home, cands, jump, #[trigger] base[k]),
            decreases n - i,
        {
            let q = buffer[i];
            let ghost old_results = results@;
            proof {
                assert(out[i as int] == q);
                assert(area.contains(q));
                assert(out.contains(q));
                out.to_multiset_ensures();
                assert(out.to_multiset().contains(q));
                assert(cands.contains(q));
                assert(reachable(home, cands, jump, center)) by {
                    assert(base[idx as int] == center);
                }
                lemma_extend_chain(home, cands, jump, center, q);
            }
            results.push(q);
            proof {
                assert forall|k: int| 0 <= k < results@.len() implies reachable(home, cands, jump, #[trigger] results@[k]) by {
                    if k < results@.len() - 1 {
                        assert(results@[k] == old_results[k]);
                    }
                }
                assert(out.subrange(0, i + 1) =~= out.subrange(0, i as int).push(q));
            }
            i = i + 1;
        }
        proof {
            assert(out.subrange(0, n as int) =~= out);
            assert(results@.drop_first() =~= base.drop_first() + out);
            vstd::seq_lib::lemma_multiset_commutative(base.drop_first(), out);
            assert(cands =~= tree@.add(results@.drop_first().to_multiset()));
            assert forall|k: int| 0 <= k < results@.len() implies reachable(home, cands, jump, #[trigger] results@[k]) by {
                if k < base.len() {
                    assert(results@[k] == base[k]);
                }
            }
            assert forall|j: int| 0 <= j < idx + 1 implies clear_of(tree@, hop(#[trigger] results@[j], jump)) by {
                assert(results@[j] == base[j]);
            }
            out.to_multiset_ensures();
            assert(before.len() == tree@.len() + out.len());
        }
        idx = idx + 1;
    }
    proof {
        assert forall|p: Point| results@.contains(p) <==> reachable(home, cands, jump, p) by {
            if reachable(home, cands, jump, p) {
                let c = choose|c: Seq<Point>| is_chain(c, home, cands, jump) && c.last() == p;
                lemma_chain_in_result(c, home, cands, tree@, results@, jump, c.len() as int);
            }
        }
    }
    Ok(results)
}

/// A flood result holds no point twice where the candidates are distinct and
/// do not hold `home`.
pub proof fn lemma_no_duplicates(home: Point, cands: Multiset<Point>, res: Seq<Point>)
    requires
        res.len() >= 1,
        res[0] == home,
        res.drop_first().to_multiset().subset_of(cands),
        forall|p: Point| #[trigger] cands.count(p) <= 1,
        !cands.contains(home),
    ensures
        res.no_duplicates(),
{
    broadcast use vstd::seq_lib::group_to_multiset_ensures;

    let t = res.drop_first();
    assert forall|i: int, j: int| 0 <= i < res.len() && 0 <= j < res.len() && i != j implies res[i]
        != res[j] by {
        if res[i] == res[j] {
            if i == 0 || j == 0 {
                let k = if i == 0 {
                    j
                } else {
                    i
                };
                assert(t[k - 1] == home);
                assert(t.contains(home));
                assert(cands.count(home) >= t.to_multiset().count(home));
            } else {
                assert(t[i - 1] == t[j - 1]);
                lemma_two_copies(t, i - 1, j - 1);
                assert(cands.count(t[i - 1]) >= t.to_multiset().count(t[i - 1]));
            }
        }
    }
}

proof fn lemma_two_copies(t: Seq<Point>, i: int, j: int)
    requires
        0 <= i < t.len(),
        0 <= j < t.len(),
        i != j,
        t[i] == t[j],
    ensures
        t.to_multiset().count(t[i]) >= 2,
{
    broadcast use vstd::seq_lib::group_to_multiset_ensures;

    let (a, b) = if i < j {
        (i, j)
    } else {
        (j, i)
    };
    let v = t[i];
    let u = t.remove(b);
    assert(u[a] == v);
    assert(u.contains(v));
    assert(t.remove(b).to_multiset() == t.to_multiset().remove(t[b]));
    assert(u.to_multiset().count(v) >= 1);
    assert(t.to_multiset().count(v) >= 1);
    assert(t.to_multiset().remove(v).count(v) == t.to_multiset().count(v) - 1) by {
        broadcast use vstd::multiset::group_multiset_axioms;

    }
}

/// With no candidate within one hop of home, the flood result is home alone.
pub proof fn lemma_lonely_home(home: Point, cands: Multiset<Point>, jump: i64, res: Seq<Point>)
    requires
        jump >= 0,
        res.len() >= 1,
        res[0] == home,
        res.drop_first().to_multiset().subset_of(cands),
        forall|p: Point| res.contains(p) <==> reachable(home, cands, jump, p),
        forall|q: Point| #[trigger] cands.contains(q) ==> !hop(home, jump).contains(q),
    ensures
        res == seq![home],
{
    broadcast use vstd::seq_lib::group_to_multiset_ensures;

    if res.len() > 1 {
        let q = res[1];
        assert(res.contains(q));
        let t = res.drop_first();
        assert(t[0] == q);
        assert(t.contains(q));
        assert(cands.count(q) >= t.to_multiset().count(q));
        assert(cands.contains(q));
        let c = choose|c: Seq<Point>| is_chain(c, home, cands, jump) && c.last() == q;
        if c.len() == 1 {
            assert(hop(home, jump).contains(home));
        } else {
            assert(cands.contains(c[1]));
        }
    }
    assert(res =~= seq![home]);
}

/// Which samples water spreads to from `home`: the candidates of the
/// pre-filter that a chain of hops of at most `JUMP_DISTANCE` reaches, after
/// `home` itself. Fails where one hop finds more than `BUFFER_SIZE` new points.
pub fn query(home: &Point, points: &Vec<Point>, depth: i64) -> (r: Result<Vec<Point>, QTreeError>)
    requires
        abs(home.x as int) + MAX_DISTANCE <= COORD_LIMIT,
        abs(home.y as int) + MAX_DISTANCE <= COORD_LIMIT,
    ensures
        r is Err ==> r == Err::<Vec<Point>, QTreeError>(QTreeError::BufferFull),
        points@.len() <= BUFFER_SIZE ==> r is Ok,
        r is Ok ==> {
            let res = r->Ok_0@;
            let cands = candidate_set(points@, *home, depth).to_multiset();
            &&& res.len() >= 1
            &&& res[0] == *home
            &&& res.drop_first().to_multiset().subset_of(cands)
            &&& forall|p: Point| res.contains(p) <==> reachable(*home, cands, JUMP_DISTANCE, p)
        },
{
    broadcast use vstd::seq_lib::group_to_multiset_ensures;
    broadcast use vstd::multiset::group_multiset_axioms;

    let cands = candidates(home, points, depth);
    proof {
        assert forall|i: int| 0 <= i < cands@.len() implies in_range(#[trigger] cands@[i]) by {
            let s = points@;
            let c = choose|i: int| is_reference(s, *home, i);
            let pred = |p: Point| passes(p, *home, s[c].z as int, depth);
            broadcast use vstd::seq_lib::group_filter_ensures;

            assert(cands@ == s.filter(pred));
            let p = cands@[i];
            assert(near(p, *home));
            let dx = p.x - home.x;
            let dy = p.y - home.y;
            assert(dx * dx <= MAX_DISTANCE * MAX_DISTANCE) by {
                assert(dy * dy >= 0) by (nonlinear_arith);
            }
            assert(dy * dy <= MAX_DISTANCE * MAX_DISTANCE) by {
                assert(dx * dx >= 0) by (nonlinear_arith);
            }
            assert(-MAX_DISTANCE <= dx <= MAX_DISTANCE) by (nonlinear_arith)
                requires
                    dx * dx <= MAX_DISTANCE * MAX_DISTANCE,
                    MAX_DISTANCE > 0,
            ;
            assert(-MAX_DISTANCE <= dy <= MAX_DISTANCE) by (nonlinear_arith)
                requires
                    dy * dy <= MAX_DISTANCE * MAX_DISTANCE,
                    MAX_DISTANCE > 0,
            ;
        }
    }
    let area = area_from_points(cands.as_slice());
    let mut tree = QTree::new(area);
    let mut i: usize = 0;
    proof {
        assert(cands@.subrange(0, 0) =~= Seq::<Point>::empty());
    }
    while i < cands.len()
        invariant
            i <= cands@.len(),
            tree.wf(),
            tree.spec_area() == area,
            forall|k: int| 0 <= k < cands@.len() ==> area.contains(#[trigger] cands@[k]),
            tree@ == cands@.subrange(0, i as int).to_multiset(),
        decreases cands@.len() - i,
    {
        let p = cands[i];
        assert(area.contains(cands@[i as int]));
        let _ = tree.insert(p);
        proof {
            assert(cands@.subrange(0, i + 1) =~= cands@.subrange(0, i as int).push(p));
            vstd::seq_lib::to_multiset_build(cands@.subrange(0, i as int), p);
        }
        i = i + 1;
    }
    assert(cands@.subrange(0, i as int) =~= cands@);
    let mut buffer: Vec<Point> = Vec::new();
    let mut k: usize = 0;
    while k < BUFFER_SIZE
        invariant
            k <= BUFFER_SIZE,
            buffer@.len() == k,
        decreases BUFFER_SIZE - k,
    {
        buffer.push(Point { x: 0, y: 0, z: 0 });
        k = k + 1;
    }
    let ghost before = tree@;
    proof {
        cands@.to_multiset_ensures();
        if exists|i: int| is_reference(points@, *home, i) {
            let c = choose|i: int| is_reference(points@, *home, i);
            points@.lemma_filter_len(|p: Point| passes(p, *home, points@[c].z as int, depth));
        }
        assert(before.len() <= points@.len());
    }
    let res = flood(*home, &mut tree, JUMP_DISTANCE, buffer.as_mut_slice());
    proof {
        if res is Ok {
            let out = res->Ok_0@;
            assert forall|p: Point| out.drop_first().to_multiset().count(p) <= before.count(p) by {}
        }
    }
    res
}

} // verus!
