use fart::aabb::ToAabb;
use fart::line::{Line, RelativeDirection};
use fart::point::point2;
use fart::polygon::Polygon;
use fart::rng::{rng, FartThreadRng};

#[test]
fn relative_directions() {
    let l: Line = Line::new(point2(0, 0), point2(1, 1));

    assert_eq!(l.relative_direction_of(point2(0, 1)), RelativeDirection::Left);
    assert_eq!(l.relative_direction_of(point2(2, 2)), RelativeDirection::Collinear);
    assert_eq!(l.relative_direction_of(point2(1, 0)), RelativeDirection::Right);

    assert!(l.is_left(point2(0, 1)));
    assert!(!l.is_left(point2(1, 0)));
    // Collinear points are not considered on the left of the line.
    assert!(!l.is_left(point2(2, 2)));

    assert!(l.is_left_or_collinear(point2(0, 1)));
    assert!(l.is_left_or_collinear(point2(2, 2)));
    assert!(!l.is_left_or_collinear(point2(1, 0)));

    assert!(l.is_collinear(point2(2, 2)));
    assert!(!l.is_collinear(point2(0, 1)));
    assert!(!l.is_collinear(point2(1, 0)));

    assert!(l.is_right(point2(1, 0)));
    assert!(!l.is_right(point2(0, 1)));
    assert!(!l.is_right(point2(2, 2)));

    assert!(l.is_right_or_collinear(point2(1, 0)));
    assert!(l.is_right_or_collinear(point2(2, 2)));
    assert!(!l.is_right_or_collinear(point2(0, 1)));
}

#[test]
fn is_on_segment() {
    let l: Line = Line::new(point2(0, 0), point2(2, 2));

    assert!(l.is_on(point2(1, 1)));
    assert!(!l.is_on(point2(0, 1)));
    assert!(!l.is_on(point2(1, 0)));

    // Inclusive of the line segment's boundaries.
    assert!(l.is_on(l.a));
    assert!(l.is_on(l.b));

    // Does not include collinear-but-not-between points.
    assert!(!l.is_on(point2(3, 3)));

    // Vertical segments check the y range.
    let v: Line = Line::new(point2(1, 0), point2(1, 4));
    assert!(v.is_on(point2(1, 2)));
    assert!(!v.is_on(point2(1, 5)));
}

#[test]
fn line_intersections() {
    assert!(Line::new(point2(0, 0), point2(1, 1)).intersects(&Line::new(point2(0, 1), point2(1, 0))));
    assert!(!Line::new(point2(0, 0), point2(1, 1)).intersects(&Line::new(point2(1, 0), point2(2, -1))));

    // If any end points from one line segment land on the other line segment,
    // `false` is returned because that is not proper intersection.
    assert!(!Line::new(point2(0, 0), point2(2, 2)).intersects(&Line::new(point2(1, 1), point2(2, 0))));

    assert!(
        Line::new(point2(0, 0), point2(1, 1)).improperly_intersects(&Line::new(point2(0, 1), point2(1, 0)))
    );
    assert!(
        !Line::new(point2(0, 0), point2(1, 1)).improperly_intersects(&Line::new(point2(1, 0), point2(2, -1)))
    );
    assert!(
        Line::new(point2(0, 0), point2(2, 2)).improperly_intersects(&Line::new(point2(1, 1), point2(2, 0)))
    );
}

#[test]
fn polygon_accessors() {
    let p = Polygon::new(vec![
        point2(0, 0),
        point2(10, 0),
        point2(5, 5),
        point2(10, 10),
        point2(0, 10),
    ]);

    assert_eq!(p.len(), 5);
    assert_eq!(p.get(0), Some(point2(0, 0)));
    assert_eq!(p.get(4), Some(point2(0, 10)));
    assert_eq!(p.get(5), None);
    assert_eq!(p.next(4), 0);
    assert_eq!(p.next(1), 2);
    assert_eq!(p.prev(0), 4);
    assert_eq!(p.prev(3), 2);

    assert_eq!(p.edge(4), Line::new(point2(0, 10), point2(0, 0)));
    let edges = p.edges();
    assert_eq!(edges.len(), 5);
    assert_eq!(edges[0], Line::new(point2(0, 0), point2(10, 0)));
    assert_eq!(edges[4], Line::new(point2(0, 10), point2(0, 0)));
}

#[test]
fn diagonals_and_cones() {
    let p = Polygon::new(vec![
        point2(0, 0),
        point2(10, 0),
        point2(5, 5),
        point2(10, 10),
        point2(0, 10),
    ]);

    assert!(p.is_diagonal(0, 2));
    assert!(!p.is_diagonal(1, 3));

    // For a convex polygon, all non-adjacent points are in cone.
    let c = Polygon::new(vec![
        point2(2, -1),
        point2(1, 2),
        point2(0, -2),
        point2(1, -2),
    ]);
    assert!(c.in_cone(0, 2));
    assert!(c.in_cone(1, 3));
    assert!(c.in_cone(2, 0));
    assert!(c.in_cone(3, 1));

    // For a non-convex polygon, that is not always the case.
    let r = Polygon::new(vec![
        point2(0, 0),
        point2(3, -1),
        point2(1, 0),
        point2(3, 1),
    ]);
    assert!(r.in_cone(0, 2));
    assert!(!r.in_cone(1, 3));
    assert!(r.in_cone(2, 0));
    assert!(!r.in_cone(3, 1));
}

#[test]
fn counter_clockwise_checks() {
    assert!(fart::polygon::is_counter_clockwise(&vec![
        point2(0, 1),
        point2(0, 0),
        point2(1, 0),
        point2(1, 1),
    ]));

    assert!(!fart::polygon::is_counter_clockwise(&vec![
        point2(1, 1),
        point2(1, 0),
        point2(0, 0),
        point2(0, 1),
    ]));
}

#[test]
fn center_of_points() {
    let c = fart::polygon::center(&vec![
        point2(0, 0),
        point2(2, 0),
        point2(0, 2),
        point2(2, 2),
    ]);
    assert_eq!(c, point2(1, 1));

    // Rounding is to the nearest integer, ties away from zero.
    assert_eq!(
        fart::polygon::center(&vec![point2(0, 0), point2(1, -1)]),
        point2(1, -1)
    );
    assert_eq!(
        fart::polygon::center(&vec![point2(0, 0), point2(0, 1), point2(2, 1)]),
        point2(1, 1)
    );
}

#[test]
fn sort_around_a_pivot() {
    let mut points = vec![point2(0, 2), point2(2, 2), point2(0, 0), point2(2, 0)];
    fart::polygon::sort_around(point2(1, 1), &mut points);
    assert_eq!(
        points,
        vec![point2(0, 2), point2(0, 0), point2(2, 0), point2(2, 2)]
    );
}

#[test]
fn bounding_boxes_of_shapes() {
    let l: Line = Line::new(point2(3, -1), point2(0, 4));
    let bl = l.to_aabb();
    assert_eq!(bl.min(), point2(0, -1));
    assert_eq!(bl.max(), point2(3, 4));

    let p = Polygon::new(vec![point2(0, 0), point2(4, 1), point2(2, 5)]);
    let bp = p.to_aabb();
    assert_eq!(bp.min(), point2(0, 0));
    assert_eq!(bp.max(), point2(4, 5));

    let triangles = p.triangulate().unwrap();
    assert_eq!(triangles.len(), 1);
    let bt = triangles[0].to_aabb();
    assert_eq!(bt.min(), point2(0, 0));
    assert_eq!(bt.max(), point2(4, 5));
}

#[test]
fn random_polygons_are_well_formed() {
    let mut r: FartThreadRng = rng();
    for n in 3..10usize {
        let p = Polygon::random(&mut r, -100, 100, -100, 100, n)
            .expect("wide ranges have plenty of fresh points");
        assert_eq!(p.len(), n);
        assert!(fart::polygon::is_counter_clockwise(p.vertices()));
        for v in p.vertices() {
            assert!(-100 <= v.x && v.x < 100);
            assert!(-100 <= v.y && v.y < 100);
        }
    }
}

#[test]
fn random_polygon_needs_enough_distinct_points() {
    // A one-by-one range holds a single point, so three distinct vertices
    // can never be drawn.
    let mut r = FartThreadRng::seeded(3);
    assert!(Polygon::random(&mut r, 0, 1, 0, 1, 3).is_none());
}

#[test]
fn seeded_rng_is_reproducible_and_in_range() {
    let mut a = FartThreadRng::seeded(17);
    let mut b = FartThreadRng::seeded(17);
    let mut distinct = 0;
    let mut last: i64 = -1;
    for _ in 0..100 {
        let x = a.gen_range(0, 50);
        let y = b.gen_range(0, 50);
        assert_eq!(x, y);
        assert!(0 <= x && x < 50);
        if x != last {
            distinct += 1;
        }
        last = x;
    }
    // A real generator gives more than one value.
    assert!(distinct > 1);

    let mut c = FartThreadRng::seeded(17);
    let i = c.gen_index(7);
    assert!(i < 7);
    let _ = c.next_u32();
    let _ = c.next_u64();
}
