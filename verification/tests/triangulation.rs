use fart::point::{point2, Point2};
use fart::polygon::Polygon;

fn check_triangulation_uses_every_vertex(polygon: Polygon) -> bool {
    let vertices: Vec<Point2> = polygon.vertices().clone();

    let triangles = polygon
        .triangulate()
        .expect("simple polygons triangulate");

    let mut saw_unknown = false;
    let mut yet_to_see = vertices.clone();
    for t in &triangles {
        for p in [t.a, t.b, t.c] {
            saw_unknown |= !vertices.contains(&p);
            yet_to_see.retain(|v| *v != p);
        }
    }

    yet_to_see.is_empty() && !saw_unknown
}

fn check_triangulation_area_is_polygon_area(polygon: Polygon) -> bool {
    let polygon_area = polygon.area();
    let mut triangulation_area: i128 = 0;
    let mut potential_error: i128 = 0;
    let triangles = polygon
        .triangulate()
        .expect("simple polygons triangulate");
    for t in &triangles {
        potential_error += 1;
        let triangle = Polygon::new(vec![t.a, t.b, t.c]);
        triangulation_area += triangle.area();
    }
    let delta = (polygon_area - triangulation_area).abs();
    // Allow for rounding errors.
    delta < potential_error
}

fn check_all(p: Polygon) -> bool {
    check_triangulation_area_is_polygon_area(p.clone()) && check_triangulation_uses_every_vertex(p)
}

#[test]
fn some_collinear_vertices() {
    assert!(check_all(Polygon::new(vec![
        point2(2, 0),
        point2(1, 0),
        point2(0, 0),
        point2(0, -1),
    ])));
}

#[test]
fn all_collinear_vertices() {
    assert!(check_all(Polygon::new(vec![
        point2(0, 0),
        point2(1, 0),
        point2(2, 0),
        point2(3, 0),
    ])));
}

#[test]
fn rectangle() {
    assert!(check_all(Polygon::new(vec![
        point2(-2, -2),
        point2(1, -2),
        point2(1, 1),
        point2(-2, 1),
    ])));
}

#[test]
fn convex_pentagon() {
    assert!(check_all(Polygon::new(vec![
        point2(-2, -2),
        point2(2, -2),
        point2(3, 1),
        point2(0, 3),
        point2(-3, 1),
    ])));
}

#[test]
fn non_convex_pentagon() {
    assert!(check_all(Polygon::new(vec![
        point2(-2, -2),
        point2(2, -2),
        point2(0, 0),
        point2(2, 2),
        point2(-2, 2),
    ])));
}

#[test]
fn triangulation_regression0() {
    assert!(check_all(Polygon::new(vec![
        point2(2, -1),
        point2(1, 2),
        point2(0, -2),
        point2(1, -2),
    ])));
}

#[test]
fn polygon_areas() {
    let square = Polygon::new(vec![
        point2(0, 0),
        point2(10, 0),
        point2(10, 10),
        point2(0, 10),
    ]);
    assert_eq!(square.area(), 100);

    let triangle = Polygon::new(vec![point2(-6, -6), point2(6, 0), point2(0, 0)]);
    assert_eq!(triangle.area(), 18);
}

#[test]
fn triangulation_count_and_origin() {
    let p = Polygon::new(vec![
        point2(0, 0),
        point2(4, 0),
        point2(4, 4),
        point2(0, 4),
    ]);
    let vertices = p.vertices().clone();
    let triangles = p.triangulate().unwrap();
    assert_eq!(triangles.len(), 2);
    for t in &triangles {
        assert!(vertices.contains(&t.a));
        assert!(vertices.contains(&t.b));
        assert!(vertices.contains(&t.c));
    }
}

#[test]
fn non_simple_polygon_has_no_triangulation() {
    // A counter-clockwise vertex cycle whose edges cross: the segment from
    // (0,0) to (2,2) crosses the one from (2,0) to (0,2).
    let p = Polygon::new(vec![
        point2(0, 0),
        point2(2, 2),
        point2(2, 0),
        point2(0, 2),
    ]);
    assert!(p.triangulate().is_none());
}
