use flood_fill::qtree::{QTree, QTreeError};
use flood_fill::{Area, Point};

fn pt(x: i64, y: i64) -> Point {
    Point { x, y, z: 0 }
}

fn area(x: i64, y: i64, radius: i64) -> Area {
    Area { center: pt(x, y), radius }
}

#[test]
fn area_intersection_boundary() {
    // One metre is 1000 mm.
    let a = area(0, 0, 1000);
    assert!(a.intersects(&area(2000, 2000, 1000)));
    assert!(!a.intersects(&area(2000, 2000, 900)));
}

#[test]
fn point_inside_is_inclusive() {
    let a = area(0, 0, 10);
    assert!(a.is_point_inside(&pt(10, -10)));
    assert!(!a.is_point_inside(&pt(11, 0)));
    assert!(!a.is_point_inside(&pt(0, -11)));
}

#[test]
fn insert_outside_fails() {
    let mut tree = QTree::new(area(0, 0, 1000));
    assert_eq!(tree.insert(pt(1001, 0)), Err(QTreeError::OutsideArea));
    assert_eq!(tree.size(), 0);
    assert_eq!(tree.insert(pt(1000, -1000)), Ok(()));
    assert_eq!(tree.size(), 1);
}

/// 1001 points spread over a 1 km square, well spaced from the quadrant borders.
fn grid_1001() -> Vec<Point> {
    let mut points = Vec::new();
    for i in 0..1001i64 {
        points.push(pt(-900_000 + (i % 32) * 56_000, -900_000 + (i / 32) * 56_000));
    }
    points
}

#[test]
fn subdivision_trigger() {
    let mut tree = QTree::new(area(0, 0, 1_000_000));
    let points = grid_1001();
    for p in &points[..1000] {
        tree.insert(*p).unwrap();
    }
    assert_eq!(tree.depth(), 1);
    tree.insert(points[1000]).unwrap();
    assert_eq!(tree.depth(), 2);
    assert_eq!(tree.size(), 1001);
}

#[test]
fn subdivision_keeps_every_point() {
    let mut tree = QTree::new(area(0, 0, 1_000_000));
    let points = grid_1001();
    for p in &points {
        tree.insert(*p).unwrap();
    }
    let mut buffer = vec![pt(0, 0); 2000];
    let n = tree.query(&area(0, 0, 1_000_000), &mut buffer).unwrap();
    assert_eq!(n, 1001);
    let mut got = buffer[..n].to_vec();
    let mut want = points.clone();
    got.sort_by_key(|p| (p.x, p.y));
    want.sort_by_key(|p| (p.x, p.y));
    assert_eq!(got, want);
    assert_eq!(tree.size(), 0);
}

#[test]
fn query_returns_and_removes_contained_points() {
    let mut tree = QTree::new(area(0, 0, 1000));
    for p in [pt(0, 0), pt(5, 5), pt(6, 0), pt(-5, -5), pt(500, 500)] {
        tree.insert(p).unwrap();
    }
    let q = area(0, 0, 5);
    let mut buffer = [pt(0, 0); 10];
    let n = tree.query(&q, &mut buffer).unwrap();
    assert_eq!(n, 3);
    for p in &buffer[..n] {
        assert!(q.is_point_inside(p));
    }
    assert_eq!(tree.size(), 2);
    // Matched points are gone: a second query finds nothing.
    assert_eq!(tree.query(&q, &mut buffer), Ok(0));
    assert_eq!(tree.size(), 2);
}

#[test]
fn query_outside_tree_area_fails() {
    let mut tree = QTree::new(area(0, 0, 1000));
    tree.insert(pt(0, 0)).unwrap();
    let mut buffer = [pt(0, 0); 4];
    assert_eq!(
        tree.query(&area(5000, 0, 10), &mut buffer),
        Err(QTreeError::OutsideArea)
    );
    assert_eq!(tree.size(), 1);
}

#[test]
fn query_buffer_overflow_is_an_error() {
    let mut tree = QTree::new(area(0, 0, 1000));
    for p in [pt(0, 0), pt(1, 1), pt(2, 2)] {
        tree.insert(p).unwrap();
    }
    let mut buffer = [pt(9, 9); 2];
    assert_eq!(
        tree.query(&area(0, 0, 10), &mut buffer),
        Err(QTreeError::BufferFull)
    );
    // The buffer is full of matches and the third match is still held.
    assert!(buffer.iter().all(|p| p.x <= 2));
    assert_eq!(tree.size(), 1);
}

#[test]
fn query_with_empty_buffer_and_no_match() {
    let mut tree = QTree::new(area(0, 0, 1000));
    tree.insert(pt(500, 500)).unwrap();
    let mut buffer: [Point; 0] = [];
    assert_eq!(tree.query(&area(0, 0, 10), &mut buffer), Ok(0));
}

#[test]
fn duplicate_points_beyond_capacity_stay_in_small_leaf() {
    let mut tree = QTree::new(area(0, 0, 1_000_000));
    for _ in 0..1500 {
        tree.insert(pt(7, 7)).unwrap();
    }
    assert_eq!(tree.size(), 1500);
    let mut buffer = vec![pt(0, 0); 1500];
    assert_eq!(tree.query(&area(7, 7, 0), &mut buffer), Ok(1500));
    assert_eq!(tree.size(), 0);
}
