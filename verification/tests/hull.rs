use fart::convex_polygon::ConvexPolygon;
use fart::point::{point2, Point2};

fn check_all_vertices_within_convex_hull(vertices: Vec<(i64, i64)>) -> bool {
    let vertices: Vec<Point2> = vertices.into_iter().map(|(a, b)| point2(a, b)).collect();

    let p = match ConvexPolygon::hull(vertices.clone()) {
        None => return true,
        Some(p) => p,
    };

    vertices.into_iter().all(|v| p.improperly_contains_point(v))
}

#[test]
fn all_zeros() {
    assert!(check_all_vertices_within_convex_hull(vec![
        (0, 0),
        (0, 0),
        (0, 0),
        (0, 0),
    ]));
}

#[test]
fn all_collinear() {
    assert!(check_all_vertices_within_convex_hull(vec![
        (1, 1),
        (2, 2),
        (3, 3),
        (4, 4),
    ]));
}

#[test]
fn hull_regression0() {
    assert!(check_all_vertices_within_convex_hull(vec![(0, 0), (0, 1), (1, 0)]));
}

#[test]
fn regression1() {
    assert!(check_all_vertices_within_convex_hull(vec![
        (0, 0),
        (0, 0),
        (0, -1),
        (1, 0),
        (1, 1)
    ]));
}

#[test]
fn regression2() {
    assert!(check_all_vertices_within_convex_hull(vec![
        (0, 0),
        (0, -1),
        (-1, 0),
        (0, 1)
    ]));
}

#[test]
fn regression3() {
    assert!(check_all_vertices_within_convex_hull(vec![(0, 0), (0, 1), (0, 2)]));
}

#[test]
fn regression4() {
    assert!(check_all_vertices_within_convex_hull(vec![
        (9, 5),
        (0, -4),
        (0, 0),
        (-1, 0),
        (8, 4)
    ]));
}

#[test]
fn hull_of_grid_is_the_four_corners() {
    let hull = ConvexPolygon::hull(vec![
        point2(0, 0),
        point2(0, 1),
        point2(0, 2),
        point2(1, 0),
        point2(1, 1),
        point2(1, 2),
        point2(2, 0),
        point2(2, 1),
        point2(2, 2),
    ])
    .expect("should have a convex hull for non-collinear vertex sets");

    let mut actual: Vec<(i64, i64)> = hull.vertices().iter().map(|v| (v.x, v.y)).collect();
    actual.sort();
    actual.dedup();
    assert_eq!(actual, vec![(0, 0), (0, 2), (2, 0), (2, 2)]);
}

#[test]
fn hull_rejects_degenerate_sets() {
    assert!(ConvexPolygon::hull(vec![]).is_none());
    assert!(ConvexPolygon::hull(vec![point2(0, 0)]).is_none());
    assert!(ConvexPolygon::hull(vec![point2(0, 0), point2(1, 1)]).is_none());
    assert!(ConvexPolygon::hull(vec![point2(0, 0), point2(1, 1), point2(2, 2)]).is_none());
}

#[test]
fn hull_contains_points() {
    let p = ConvexPolygon::hull(vec![point2(0, 0), point2(10, 2), point2(5, 10)]).unwrap();

    assert!(p.contains_point(point2(5, 5)));
    assert!(!p.contains_point(point2(-3, -3)));
    // Points exactly on the boundary are not properly contained.
    assert!(!p.contains_point(point2(0, 0)));

    assert!(p.improperly_contains_point(point2(5, 5)));
    assert!(!p.improperly_contains_point(point2(-3, -3)));
    // Points exactly on the boundary are improperly contained.
    assert!(p.improperly_contains_point(point2(0, 0)));

    // The read-only polygon operations are forwarded.
    assert_eq!(p.len(), 3);
    assert_eq!(p.area(), p.as_polygon().area());
    assert_eq!(p.edges().len(), 3);
    assert_eq!(p.get(0).is_some(), true);
    assert_eq!(p.get(3), None);
}
