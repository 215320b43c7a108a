use stage_placer::dto::Point2D;
use stage_placer::geometry::{distance2, line_circle_intersection};

fn hundredths(v: f64) -> i64 {
    (v * 100.0).round() as i64
}

fn fixtures() -> Vec<((f64, f64), (f64, f64), (f64, f64), f64, bool)> {
    vec![
        ((0., 0.), (1., 0.), (0.5, 0.), 0.01, true),
        ((0., 0.), (10., 0.), (5., 5.), 3., false),
        ((0., 0.), (10., 0.), (5., 5.), 5.1, true),
        ((0., 0.), (10., 0.), (5., 5.), 4.9, false),
        // circle alongside the line
        ((-2.42, -3.58), (14.76, 6.64), (7.1, 8.44), 5., false),
        ((-2.42, -3.58), (14.76, 6.64), (7.1, 7.44), 5., true),
        // circle slightly behind the line
        ((-2.42, -3.58), (14.76, 6.64), (17.56, 11.7), 5., false),
        ((1100., 800.), (1100., 150.), (1100., 100.), 5., false),
    ]
}

fn point(p: (f64, f64)) -> Point2D {
    Point2D { x: hundredths(p.0), y: hundredths(p.1) }
}

#[test]
fn geometry_test_cases() {
    for (a, b, c, r, int) in fixtures() {
        let res = line_circle_intersection(&point(a), &point(b), &point(c), hundredths(r));
        assert_eq!(
            res, int,
            "intersection of segment from {:?} to {:?} by {:?} r {} should be {}",
            a, b, c, r, int
        );
    }
}

#[test]
fn scorer_test_cases() {
    for (a, b, c, r, int) in fixtures() {
        let res = line_circle_intersection(&point(a), &point(b), &point(c), hundredths(r));
        assert_eq!(
            res, int,
            "intersection of segment from {:?} to {:?} by {:?} r {} should be {}",
            a, b, c, r, int
        );
    }
}

#[test]
fn intersection_does_not_depend_on_direction() {
    for (a, b, c, r, _) in fixtures() {
        assert_eq!(
            line_circle_intersection(&point(a), &point(b), &point(c), hundredths(r)),
            line_circle_intersection(&point(b), &point(a), &point(c), hundredths(r))
        );
    }
}

#[test]
fn tangent_disk_blocks() {
    let a = Point2D { x: 0, y: 0 };
    let b = Point2D { x: 10, y: 0 };
    let c = Point2D { x: 5, y: 5 };
    assert!(line_circle_intersection(&a, &b, &c, 5));
    assert!(!line_circle_intersection(&a, &b, &c, 4));
}

#[test]
fn disk_over_an_end_blocks() {
    let a = Point2D { x: 0, y: 0 };
    let b = Point2D { x: 10, y: 0 };
    assert!(line_circle_intersection(&a, &b, &Point2D { x: 13, y: 0 }, 3));
    assert!(!line_circle_intersection(&a, &b, &Point2D { x: 14, y: 0 }, 3));
    assert!(line_circle_intersection(&a, &b, &Point2D { x: -3, y: 4 }, 5));
    assert!(!line_circle_intersection(&a, &b, &Point2D { x: -3, y: 4 }, 4));
}

#[test]
fn squared_distance() {
    assert_eq!(distance2(&Point2D { x: 1, y: 2 }, &Point2D { x: 4, y: -2 }), 25);
    assert_eq!(distance2(&Point2D { x: -7, y: 3 }, &Point2D { x: -7, y: 3 }), 0);
}
