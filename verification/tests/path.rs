use aircraft_router_planner::oracle::Calc;
use aircraft_router_planner::path::{
    angle_diff_deg, bearing_deg, haversine_m, point_seg_distance_m, Path, PathPoint,
};
use aircraft_router_planner::scalar::Scalar;
use geo::{Distance, Geodesic};

fn s(x: f64) -> Scalar {
    Scalar { bits: x.to_bits() }
}

fn f(x: Scalar) -> f64 {
    f64::from_bits(x.bits)
}

fn calc(q: Calc) -> Scalar {
    s(match q {
        Calc::Sin(x) => f(x).sin(),
        Calc::Cos(x) => f(x).cos(),
        Calc::Tan(x) => f(x).tan(),
        Calc::Asin(x) => f(x).asin(),
        Calc::Acos(x) => f(x).acos(),
        Calc::Atan(x) => f(x).atan(),
        Calc::Atan2(y, x) => f(y).atan2(f(x)),
        Calc::Ln(x) => f(x).ln(),
        Calc::Exp(x) => f(x).exp(),
        Calc::Powi(x, n) => f(x).powi(n),
        Calc::Powf(x, y) => f(x).powf(f(y)),
        Calc::Geodesic(a, b) => Geodesic.distance(
            geo::Point::new(f(a.lon), f(a.lat)),
            geo::Point::new(f(b.lon), f(b.lat)),
        ),
    })
}

fn point(lon: f64, lat: f64, alt_m: f64) -> PathPoint {
    PathPoint::new(s(lon), s(lat), s(alt_m))
}

fn haversine(lon1: f64, lat1: f64, lon2: f64, lat2: f64) -> f64 {
    f(haversine_m(s(lon1), s(lat1), s(lon2), s(lat2), &calc))
}

fn bearing(lon1: f64, lat1: f64, lon2: f64, lat2: f64) -> f64 {
    f(bearing_deg(s(lon1), s(lat1), s(lon2), s(lat2), &calc))
}

fn off_segment(px: f64, py: f64, ax: f64, ay: f64, bx: f64, by: f64) -> f64 {
    f(point_seg_distance_m(s(px), s(py), s(ax), s(ay), s(bx), s(by), &calc))
}

fn turn(a: f64, b: f64) -> f64 {
    f(angle_diff_deg(s(a), s(b)))
}

#[test]
fn haversine_known_distance() {
    let d = haversine(116.4, 39.9, 121.5, 31.2);
    assert!((d - 1_067_000.0).abs() < 30_000.0, "d={d}");
}

#[test]
fn bearing_east_is_90() {
    let b = bearing(0.0, 0.0, 1.0, 0.0);
    assert!((b - 90.0).abs() < 0.01, "b={b}");
    let b2 = bearing(0.0, 0.0, 0.0, 1.0);
    assert!((b2 - 0.0).abs() < 0.01 || (b2 - 360.0).abs() < 0.01, "b2={b2}");
}

#[test]
fn point_seg_distance() {
    assert!(off_segment(0.0, 1.0, 0.0, 0.0, 0.0, 2.0) < 1e-6);
    let d = off_segment(1.0, 1.0, 0.0, 0.0, 0.0, 2.0);
    assert!((d - 111_320.0).abs() < 200.0, "d={d}");
    let d2 = off_segment(3.0, 2.0, 0.0, 0.0, 1.0, 0.0);
    assert!(d2 > 222_000.0, "d2={d2}");
}

#[test]
fn angle_diff() {
    assert!((turn(10.0, 20.0) - (-10.0)).abs() < 1e-9);
    assert!((turn(350.0, 10.0) - (-20.0)).abs() < 1e-9);
    assert!((turn(10.0, 350.0) - 20.0).abs() < 1e-9);
    assert!((turn(0.0, 180.0) - (-180.0)).abs() < 1e-9);
}

#[test]
fn angle_diff_beyond_a_turn() {
    assert_eq!(turn(730.0, 0.0), 10.0);
    assert_eq!(turn(-730.0, 0.0), -10.0);
    assert_eq!(turn(180.0, 0.0), -180.0);
    assert_eq!(turn(179.5, 0.0), 179.5);
}

#[test]
fn path_length() {
    let p = Path::new(vec![
        point(0.0, 0.0, 100.0),
        point(1.0, 0.0, 100.0),
        point(2.0, 0.0, 100.0),
    ]);
    let d = f(p.length_m(&calc));
    assert!((d - 2.0 * 111_320.0).abs() < 500.0, "d={d}");
}

#[test]
fn ends_and_legs_of_a_path() {
    let none = Path::new(vec![]);
    assert!(none.is_empty());
    assert!(none.first().is_none() && none.last().is_none());
    assert_eq!(f(none.length_m(&calc)), 0.0);
    assert!(none.last_segment_heading(&calc).is_none());
    let p = Path::new(vec![point(0.0, 0.0, 1.0), point(1.0, 0.0, 2.0), point(1.0, 1.0, 3.0)]);
    assert_eq!(p.len(), 3);
    assert_eq!(f(p.first().unwrap().alt_m), 1.0);
    assert_eq!(f(p.last().unwrap().alt_m), 3.0);
    assert!((f(p.segment_heading_deg(0, &calc).unwrap()) - 90.0).abs() < 0.01);
    assert!(p.segment_heading_deg(2, &calc).is_none());
    let north = f(p.last_segment_heading(&calc).unwrap());
    assert!(north.abs() < 0.01 || (north - 360.0).abs() < 0.01);
    let off = f(p.chord_error_m(1, 0, 2, &calc).unwrap());
    assert!((off - off_segment(1.0, 0.0, 0.0, 0.0, 1.0, 1.0)).abs() < 1e-9);
    assert!(p.chord_error_m(3, 0, 2, &calc).is_none());
}

#[test]
fn points_keep_what_they_are_given() {
    let p = point(1.0, 2.0, 3.0);
    assert!(p.heading_deg.is_none());
    let q = p.with_heading(s(45.0));
    assert_eq!(f(q.heading_deg.unwrap()), 45.0);
    assert_eq!((f(q.lon), f(q.lat), f(q.alt_m)), (1.0, 2.0, 3.0));
    assert!(p.is_finite());
    assert!(!point(f64::NAN, 2.0, 3.0).is_finite());
    assert!(!point(1.0, f64::INFINITY, 3.0).is_finite());
    assert!(!point(1.0, 2.0, f64::NEG_INFINITY).is_finite());
}
