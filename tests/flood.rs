use flood_fill::qtree::{QTree, QTreeError};
use flood_fill::query::{
    area_from_points, candidates, flood, near_distance_sq, query, JUMP_DISTANCE, MAX_DISTANCE,
};
use flood_fill::{Area, Point};

fn sample(x: i64, y: i64, z: i64) -> Point {
    Point { x, y, z }
}

fn tree_of(points: &[Point]) -> QTree {
    let mut tree = QTree::new(area_from_points(points));
    for p in points {
        tree.insert(*p).unwrap();
    }
    tree
}

#[test]
fn end_to_end_reachable_neighbour() {
    let home = sample(0, 0, 0);
    let got = query(&home, &vec![sample(5000, 0, 0)], 1000).unwrap();
    assert_eq!(got, vec![sample(0, 0, 0), sample(5000, 0, 0)]);
}

#[test]
fn end_to_end_unreachable_neighbour() {
    let home = sample(0, 0, 0);
    let got = query(&home, &vec![sample(7000, 0, 0)], 1000).unwrap();
    assert_eq!(got, vec![sample(0, 0, 0)]);
}

#[test]
fn empty_neighbourhood_gives_home_alone() {
    let home = sample(100, 100, 0);
    let cands = vec![sample(10_000, 0, 0), sample(0, -9000, 0), sample(20_000, 20_000, 0)];
    let mut tree = tree_of(&cands);
    let mut buffer = [sample(0, 0, 0); 8];
    let got = flood(home, &mut tree, JUMP_DISTANCE, &mut buffer).unwrap();
    assert_eq!(got, vec![home]);
    assert_eq!(tree.size(), 3);
}

#[test]
fn no_candidates_gives_home_alone() {
    let home = sample(0, 0, 0);
    assert_eq!(query(&home, &vec![], 1000).unwrap(), vec![home]);
}

#[test]
fn reachability_follows_chains() {
    let home = sample(0, 0, 0);
    // A chain along x with 5 m hops, then a 10 m gap, and a point that is
    // within 6 m only of the unreachable one.
    let cands = vec![
        sample(5000, 0, 0),
        sample(10_000, 1000, 0),
        sample(15_000, -2000, 0),
        sample(25_000, 0, 0),
        sample(30_000, 0, 0),
    ];
    let mut tree = tree_of(&cands);
    let mut buffer = [sample(0, 0, 0); 8];
    let got = flood(home, &mut tree, JUMP_DISTANCE, &mut buffer).unwrap();
    assert_eq!(
        got,
        vec![home, sample(5000, 0, 0), sample(10_000, 1000, 0), sample(15_000, -2000, 0)]
    );
    assert_eq!(tree.size(), 2);
}

#[test]
fn flood_has_no_duplicates_and_drains_the_grid() {
    let home = sample(0, 0, 0);
    let mut cands = Vec::new();
    for i in 0..20i64 {
        for j in 0..20i64 {
            cands.push(sample(i * 4000 + 1, j * 4000 + 1, 0));
        }
    }
    let mut tree = tree_of(&cands);
    let mut buffer = [sample(0, 0, 0); 50];
    let got = flood(home, &mut tree, JUMP_DISTANCE, &mut buffer).unwrap();
    assert_eq!(got.len(), 401);
    assert_eq!(tree.size(), 0);
    let mut sorted = got.clone();
    sorted.sort_by_key(|p| (p.x, p.y));
    sorted.dedup();
    assert_eq!(sorted.len(), 401);
}

#[test]
fn flood_tree_shrinks_after_every_query() {
    let home = sample(0, 0, 0);
    let cands = vec![sample(3000, 0, 0), sample(6000, 0, 0), sample(9000, 0, 0)];
    let mut tree = tree_of(&cands);
    let mut buffer = [sample(0, 0, 0); 8];
    let mut last = tree.size();
    for c in [home, sample(3000, 0, 0), sample(6000, 0, 0), sample(9000, 0, 0)] {
        let area = Area { center: c, radius: JUMP_DISTANCE };
        let n = tree.query(&area, &mut buffer).unwrap();
        assert_eq!(tree.size(), last - n);
        assert!(tree.size() <= last);
        last = tree.size();
    }
    assert_eq!(last, 0);
}

#[test]
fn flood_reports_buffer_overflow() {
    let home = sample(0, 0, 0);
    let cands = vec![sample(1000, 0, 0), sample(2000, 0, 0), sample(3000, 0, 0)];
    let mut tree = tree_of(&cands);
    let mut buffer = [sample(0, 0, 0); 2];
    assert_eq!(
        flood(home, &mut tree, JUMP_DISTANCE, &mut buffer),
        Err(QTreeError::BufferFull)
    );
}

#[test]
fn query_reports_buffer_overflow() {
    let home = sample(0, 0, 0);
    let mut points = Vec::new();
    for i in 0..60i64 {
        points.push(sample(i * 10, 0, 0));
    }
    assert_eq!(query(&home, &points, 1000), Err(QTreeError::BufferFull));
}

#[test]
fn prefilter_drops_far_and_high_points() {
    let home = sample(0, 0, 0);
    let points = vec![
        sample(MAX_DISTANCE + 1, 0, -5000),
        sample(3000, 4000, 2000),
        sample(100, 0, 1000),
        sample(50_000, 0, 2000),
        sample(60_000, 0, 2001),
        sample(0, -MAX_DISTANCE, 0),
    ];
    // The nearest is (100, 0) at elevation 1000; with depth 1000 the limit is 2000.
    assert_eq!(
        candidates(&home, &points, 1000),
        vec![sample(3000, 4000, 2000), sample(100, 0, 1000), sample(50_000, 0, 2000), sample(0, -MAX_DISTANCE, 0)]
    );
}

#[test]
fn prefilter_ties_take_the_first_sample() {
    let home = sample(0, 0, 0);
    let points = vec![sample(10, 0, 500), sample(0, 10, 0), sample(-10, 0, 900)];
    assert_eq!(candidates(&home, &points, 0), vec![sample(10, 0, 500), sample(0, 10, 0)]);
    let points = vec![sample(0, 10, 0), sample(10, 0, 500)];
    assert_eq!(candidates(&home, &points, 0), vec![sample(0, 10, 0)]);
}

#[test]
fn prefilter_without_near_samples_is_empty() {
    let home = sample(0, 0, 0);
    assert_eq!(candidates(&home, &vec![sample(MAX_DISTANCE, 1, 0)], 1000), vec![]);
}

#[test]
fn near_distance() {
    let home = sample(1, 1, 0);
    assert_eq!(near_distance_sq(&sample(4, 5, 9), &home), Some(25));
    assert_eq!(near_distance_sq(&sample(MAX_DISTANCE + 1, 1, 0), &home), Some(MAX_DISTANCE * MAX_DISTANCE));
    assert_eq!(near_distance_sq(&sample(MAX_DISTANCE + 2, 1, 0), &home), None);
    assert_eq!(near_distance_sq(&sample(i64::MIN, i64::MAX, 0), &home), None);
}

#[test]
fn area_from_points_values() {
    let a = area_from_points(&[sample(0, 0, 5), sample(10, 4, 0), sample(3, -2, 0)]);
    assert_eq!(a, Area { center: sample(5, 1, 0), radius: 5 });
    let a = area_from_points(&[sample(0, 0, 0), sample(7, 0, 0)]);
    assert_eq!(a, Area { center: sample(3, 0, 0), radius: 4 });
    assert!(a.is_point_inside(&sample(7, 0, 0)) && a.is_point_inside(&sample(0, 0, 0)));
    let a = area_from_points(&[sample(7, 8, 0)]);
    assert_eq!(a, Area { center: sample(7, 8, 0), radius: 1 });
    let a = area_from_points(&[]);
    assert_eq!(a, Area { center: sample(0, 0, 0), radius: 1 });
}
