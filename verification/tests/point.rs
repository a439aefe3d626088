use comp_geo::point::Point;

#[test]
fn square_distance() {
    let p1 = Point::default();
    let p2: Point<2, i64> = [4, 3].into();
    let sq_dist = p1.square_distance(&p2);
    assert_eq!(sq_dist, 25);
}

#[test]
fn ordering() {
    let mut points: Vec<Point<3, i64>> =
        vec![[10, 10, 0].into(), [11, 1, -1].into(), [10, 9, 5].into()];
    points.sort_by_key(|p| (p.x(), p.y()));
    assert_eq!(
        points,
        vec![[10, 9, 5].into(), [10, 10, 0].into(), [11, 1, -1].into()]
    );
}

#[test]
fn square_distance_three_dimensions() {
    let p1: Point<3, i64> = [1, 2, 2].into();
    let p2: Point<3, i64> = [0, 0, 0].into();
    assert_eq!(p1.square_distance(&p2), 9);
    assert_eq!(p2.square_distance(&p1), 9);
}

#[test]
fn accessors() {
    let p2: Point<2, i64> = [7, -3].into();
    assert_eq!(p2.x(), 7);
    assert_eq!(p2.y(), -3);
    let p3: Point<3, i64> = [1, 2, 3].into();
    assert_eq!(p3.x(), 1);
    assert_eq!(p3.y(), 2);
    assert_eq!(p3.z(), 3);
}

#[test]
fn point_addition_subtraction() {
    let p1: Point<2, i64> = [3, 4].into();
    let p2: Point<2, i64> = [1, -1].into();
    assert_eq!(p1.add(&p2), [4, 3].into());
    assert_eq!(p1.sub(&p2), [2, 5].into());
    let q1: Point<3, i64> = [1, 2, 3].into();
    let q2: Point<3, i64> = [10, -2, 4].into();
    assert_eq!(q1.add(&q2), [11, 0, 7].into());
    assert_eq!(q1.sub(&q2), [-9, 4, -1].into());
}

#[test]
fn cross_product() {
    let e1: Point<2, i64> = [1, 0].into();
    let e2: Point<2, i64> = [0, 1].into();
    assert_eq!(e1.cross(&e2), 1);
    assert_eq!(e2.cross(&e1), -1);
    let a: Point<2, i64> = [2, 3].into();
    let b: Point<2, i64> = [4, 5].into();
    assert_eq!(a.cross(&b), -2);
}

#[test]
fn checked_add() {
    assert_eq!(comp_geo::segment::add(2, 3), 5);
    assert_eq!(comp_geo::segment::add(0, 0), 0);
}

#[test]
fn segment_copies() {
    let s = comp_geo::segment::LineSegment {
        start: [0, 0].into(),
        end: [2, 2].into(),
    };
    let t = s;
    assert_eq!(s, t);
    assert_eq!(s.end.y(), 2);
}
