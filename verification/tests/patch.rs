use aircraft_router_planner::config::{Zone, ZoneShape, ZoneType};
use aircraft_router_planner::convex::{
    convex_hull, inflate_convex, point_in_convex, seg_intersects_convex, seg_poly_dist_deg,
};
use aircraft_router_planner::oracle::Calc;
use aircraft_router_planner::patch::{
    classify_verify_failure, extract_issue_coord, locate_single_cluster, patch_applicable,
    patch_enabled, patch_radius_deg, plan_patch, PatchFailureClass, PatchOutcome, MAX_VIS_VERTICES,
};
use aircraft_router_planner::path::haversine_m;
use aircraft_router_planner::scalar::Scalar;
use geo::{Distance, Geodesic};

const GEOM_EPS_DEG: f64 = 1e-9;

fn s(x: f64) -> Scalar {
    Scalar { bits: x.to_bits() }
}

fn f(x: Scalar) -> f64 {
    f64::from_bits(x.bits)
}

fn calc(q: Calc) -> Scalar {
    s(match q {
        Calc::Sin(x) => f(x).sin(),
        Calc::Cos(x) => f(x).cos(),
        Calc::Tan(x) => f(x).tan(),
        Calc::Asin(x) => f(x).asin(),
        Calc::Acos(x) => f(x).acos(),
        Calc::Atan(x) => f(x).atan(),
        Calc::Atan2(y, x) => f(y).atan2(f(x)),
        Calc::Ln(x) => f(x).ln(),
        Calc::Exp(x) => f(x).exp(),
        Calc::Powi(x, n) => f(x).powi(n),
        Calc::Powf(x, y) => f(x).powf(f(y)),
        Calc::Geodesic(a, b) => Geodesic.distance(
            geo::Point::new(f(a.lon), f(a.lat)),
            geo::Point::new(f(b.lon), f(b.lat)),
        ),
    })
}

fn vertex(p: [f64; 2]) -> [Scalar; 2] {
    [s(p[0]), s(p[1])]
}

fn polygon(points: &[[f64; 2]]) -> Vec<[Scalar; 2]> {
    points.iter().map(|p| vertex(*p)).collect()
}

fn floats(points: &[[Scalar; 2]]) -> Vec<[f64; 2]> {
    points.iter().map(|p| [f(p[0]), f(p[1])]).collect()
}

fn cross(o: [f64; 2], a: [f64; 2], b: [f64; 2]) -> f64 {
    (a[0] - o[0]) * (b[1] - o[1]) - (a[1] - o[1]) * (b[0] - o[0])
}

fn plan(start: [f64; 2], target: [f64; 2], obs: &[[f64; 2]], inflation_m: f64) -> PatchOutcome {
    plan_patch(&vertex(start), &vertex(target), &polygon(obs), s(inflation_m), &calc)
}

fn crosses(a: [f64; 2], b: [f64; 2], poly: &Vec<[Scalar; 2]>) -> bool {
    seg_intersects_convex(&vertex(a), &vertex(b), poly, s(GEOM_EPS_DEG))
}

fn number(text: &Vec<char>) -> f64 {
    text.iter().collect::<String>().parse().unwrap()
}

fn issue_coord(text: &str) -> Option<(f64, f64)> {
    extract_issue_coord(text).map(|(lon, lat)| (number(&lon), number(&lat)))
}

const SQUARE: [[f64; 2]; 4] = [[116.0, 39.0], [117.0, 39.0], [117.0, 40.0], [116.0, 40.0]];
const BLOCK: [[f64; 2]; 4] = [[116.4, 39.3], [116.6, 39.3], [116.6, 39.7], [116.4, 39.7]];

#[test]
fn convex_hull_square() {
    let hull = floats(&convex_hull(&polygon(&SQUARE)));
    assert_eq!(hull.len(), 4);
    for i in 0..hull.len() {
        let a = hull[i];
        let b = hull[(i + 1) % hull.len()];
        let c = hull[(i + 2) % hull.len()];
        assert!(cross(a, b, c) > 0.0, "not ccw at {i}");
    }
}

#[test]
fn convex_hull_dedup_and_collinear() {
    let pts = [
        [116.0, 39.0],
        [116.0, 39.0],
        [116.5, 39.0],
        [117.0, 39.0],
        [117.0, 40.0],
        [116.0, 40.0],
    ];
    let hull = convex_hull(&polygon(&pts));
    assert_eq!(hull.len(), 4);
}

#[test]
fn convex_hull_leaves_inner_points_out() {
    let pts = [[0.0, 0.0], [2.0, 0.0], [1.0, 1.0], [2.0, 2.0], [0.0, 2.0], [0.5, 1.5]];
    let hull = floats(&convex_hull(&polygon(&pts)));
    assert_eq!(hull, vec![[0.0, 0.0], [2.0, 0.0], [2.0, 2.0], [0.0, 2.0]]);
}

#[test]
fn inflate_grows_area() {
    let inf = inflate_convex(&polygon(&SQUARE), s(0.01));
    assert_eq!(inf.len(), 4);
    for p in &SQUARE {
        assert!(point_in_convex(&vertex(*p), &inf, s(1e-9)), "{p:?} should be inside inflated");
    }
}

#[test]
fn inflate_refuses_what_is_no_polygon() {
    assert!(inflate_convex(&polygon(&SQUARE[..2]), s(0.01)).is_empty());
    assert!(inflate_convex(&polygon(&SQUARE), s(0.0)).is_empty());
}

#[test]
fn point_in_convex_basic() {
    let poly = polygon(&SQUARE);
    assert!(point_in_convex(&vertex([116.5, 39.5]), &poly, s(0.0)));
    assert!(!point_in_convex(&vertex([118.0, 39.5]), &poly, s(0.0)));
}

#[test]
fn seg_intersects_convex_crossing() {
    let poly = polygon(&SQUARE);
    assert!(crosses([115.5, 39.5], [117.5, 39.5], &poly));
    assert!(!crosses([115.0, 38.0], [115.5, 38.5], &poly));
    assert!(!crosses([115.5, 39.0], [117.5, 39.0], &poly));
    assert!(crosses([115.5, 39.5], [116.5, 39.0], &poly));
}

#[test]
fn segment_distance_to_a_polygon() {
    let poly = polygon(&SQUARE);
    let d = f(seg_poly_dist_deg(&vertex([115.0, 39.2]), &vertex([115.0, 39.8]), &poly));
    assert!((d - 1.0).abs() < 1e-9, "d={d}");
    let none = f(seg_poly_dist_deg(
        &vertex([115.0, 39.2]),
        &vertex([115.0, 39.8]),
        &polygon(&SQUARE[..2]),
    ));
    assert_eq!(none, f64::INFINITY);
}

#[test]
fn plan_patch_no_obstacle_straight() {
    match plan([116.0, 39.0], [117.0, 40.0], &[], 5_000.0) {
        PatchOutcome::Path(p, d) => {
            assert_eq!(p.len(), 2);
            assert!(f(d) > 100.0 && f(d) < 200.0);
        }
        other => panic!("expected straight, got {other:?}"),
    }
}

#[test]
fn plan_patch_obstacle_detours() {
    match plan([116.0, 39.0], [117.0, 40.0], &BLOCK, 5_000.0) {
        PatchOutcome::Path(p, d) => {
            assert!(p.len() >= 3, "should detour around obstacle: {p:?}");
            let straight = f(haversine_m(s(116.0), s(39.0), s(117.0), s(40.0), &calc)) / 1000.0;
            assert!(f(d) > straight, "detour longer than straight: {} vs {straight}", f(d));
            let hull = convex_hull(&polygon(&BLOCK));
            let inf = inflate_convex(&hull, s(5_000.0 / 111_320.0));
            for w in p.windows(2) {
                assert!(
                    !seg_intersects_convex(&w[0], &w[1], &inf, s(GEOM_EPS_DEG)),
                    "edge crosses inflated"
                );
            }
        }
        other => panic!("expected path, got {other:?}"),
    }
}

#[test]
fn plan_patch_start_inside_inflated_impossible() {
    let out = plan([116.42, 39.3], [117.0, 40.0], &BLOCK, 100_000.0);
    assert!(matches!(out, PatchOutcome::GeometricImpossible));
}

#[test]
fn plan_patch_search_truncated() {
    let mut obs = Vec::new();
    let n = MAX_VIS_VERTICES;
    for i in 0..n {
        let t = i as f64 / n as f64 * std::f64::consts::TAU;
        obs.push([116.5 + 0.1 * t.cos(), 39.5 + 0.1 * t.sin()]);
    }
    let out = plan([116.0, 39.0], [117.0, 40.0], &obs, 5_000.0);
    assert!(matches!(out, PatchOutcome::SearchTruncated));
}

#[test]
fn plan_patch_degenerate_hull_straight() {
    let obs = [[116.4, 39.3], [116.6, 39.3], [116.5, 39.3]];
    match plan([116.0, 39.0], [117.0, 40.0], &obs, 5_000.0) {
        PatchOutcome::Path(p, _) => assert_eq!(p.len(), 2, "collinear obstacle -> straight"),
        other => panic!("expected straight, got {other:?}"),
    }
}

#[test]
fn plan_patch_start_equals_target() {
    match plan([116.0, 39.0], [116.0, 39.0], &BLOCK, 5_000.0) {
        PatchOutcome::Path(p, d) => {
            assert_eq!(p.len(), 2);
            assert_eq!(d.bits, 0.0_f64.to_bits());
        }
        other => panic!("expected zero-length path, got {other:?}"),
    }
}

#[test]
fn tie_break_deterministic() {
    let a = plan([116.0, 39.0], [117.0, 40.0], &BLOCK, 5_000.0);
    let b = plan([116.0, 39.0], [117.0, 40.0], &BLOCK, 5_000.0);
    match (&a, &b) {
        (PatchOutcome::Path(pa, da), PatchOutcome::Path(pb, db)) => {
            assert_eq!(pa, pb);
            assert_eq!(da.bits, db.bits);
        }
        other => panic!("expected two paths, got {other:?}"),
    }
}

#[test]
fn extract_issue_coord_parses() {
    let text = "sample (lon=116.42,lat=39.30) clearance fail";
    assert_eq!(issue_coord(text), Some((116.42, 39.30)));
    assert_eq!(issue_coord("no coord here"), None);
}

#[test]
fn issue_coord_needs_both_numbers() {
    assert_eq!(issue_coord("lon=116.42 only"), None);
    assert_eq!(issue_coord("lat=-1.5e1,lon=+2"), Some((2.0, -15.0)));
}

#[test]
fn classify_fitting_vs_geometric() {
    let path = polygon(&[[116.0, 39.0], [116.6, 39.7], [117.0, 40.0]]);
    let inf = inflate_convex(&convex_hull(&polygon(&BLOCK)), s(5_000.0 / 111_320.0));
    let class = |issue: &str| {
        let (lon, lat) = issue_coord(issue).unwrap();
        classify_verify_failure(&path, &polygon(&[[lon, lat]]), &inf, s(0.01))
    };
    assert_eq!(
        class("sample (lon=116.599,lat=39.701) clearance fail"),
        PatchFailureClass::FittingDefect
    );
    assert_eq!(
        class("sample (lon=116.2,lat=39.1) clearance fail"),
        PatchFailureClass::GeometricImpossible
    );
}

#[test]
fn patch_applicable_excludes() {
    let mk = |t: ZoneType, shape: ZoneShape| {
        vec![Zone {
            id: "z".into(),
            zone_type: t,
            shape,
            alt_min_m: Some(s(0.0)),
            alt_max_m: Some(s(10000.0)),
        }]
    };
    let corners = || ZoneShape::Polygon {
        vertices: polygon(&[[116.0, 39.0], [117.0, 39.0], [117.0, 40.0]]),
    };
    let circle = ZoneShape::Circle { center: vertex([116.5, 39.5]), radius_km: s(10.0) };
    assert!(patch_applicable(&mk(ZoneType::NoFly, corners()), false, false));
    assert!(!patch_applicable(&mk(ZoneType::NoFly, circle), false, false));
    assert!(!patch_applicable(&mk(ZoneType::Restricted, corners()), false, false));
    assert!(!patch_applicable(&mk(ZoneType::NoFly, corners()), true, false));
    assert!(!patch_applicable(&mk(ZoneType::NoFly, corners()), false, true));
}

#[test]
fn patches_are_off_unless_switched_on() {
    assert!(!patch_enabled(None));
    assert!(patch_enabled(Some("1")));
    assert!(!patch_enabled(Some("0")));
    assert!(!patch_enabled(Some("11")));
}

#[test]
fn failures_close_together_are_one() {
    let r = patch_radius_deg();
    assert_eq!(f(r), 30.0 / 111.32);
    let one = polygon(&[[116.0, 39.0], [116.1, 39.0]]);
    let two = polygon(&[[116.0, 39.0], [117.0, 39.0]]);
    assert!(locate_single_cluster(&one, r, &calc).is_some());
    assert!(locate_single_cluster(&two, r, &calc).is_none());
    assert!(locate_single_cluster(&vec![], r, &calc).is_none());
}

#[test]
fn a_hull_holds_its_points() {
    let mut bits: u64 = 0x9e37_79b9_7f4a_7c15;
    let mut next = || {
        bits = bits.wrapping_mul(6364136223846793005).wrapping_add(1442695040888963407);
        (bits >> 57) as f64
    };
    for n in [3, 4, 10, 50] {
        let pts: Vec<[f64; 2]> = (0..n).map(|_| [next(), next() - 64.0]).collect();
        let hull = floats(&convex_hull(&polygon(&pts)));
        for (i, a) in hull.iter().enumerate() {
            let b = hull[(i + 1) % hull.len()];
            for p in &pts {
                assert!(cross(*a, b, *p) >= 0.0, "{a:?} {b:?} {p:?}");
            }
        }
    }
}

#[test]
fn a_hull_holds_scattered_points() {
    let mut bits: u64 = 0x2545_f491_4f6c_dd1d;
    let mut next = || {
        bits = bits.wrapping_mul(6364136223846793005).wrapping_add(1442695040888963407);
        (bits >> 11) as f64 / (1u64 << 53) as f64
    };
    let pts: Vec<[f64; 2]> = (0..200).map(|_| [116.0 + next(), 39.0 + next()]).collect();
    let hull = floats(&convex_hull(&polygon(&pts)));
    assert!(hull.len() >= 3);
    for (i, a) in hull.iter().enumerate() {
        let b = hull[(i + 1) % hull.len()];
        for p in &pts {
            assert!(cross(*a, b, *p) > -1e-12, "{a:?} {b:?} {p:?}");
        }
    }
}

#[test]
fn a_hull_covers_points_close_together() {
    // Two points are so close that rounding leaves a dent in the hull; the points still
    // lie along a side of each way.
    let pts = [
        [-0.1500323839612906, -0.9923692505098178],
        [0.42794747218849066, 0.5733865871175131],
        [0.4279474721884908, 0.5733865871175132],
        [0.9279474721884906, 1.074386587117513],
        [0.3, 4.0],
    ];
    let hull = floats(&convex_hull(&polygon(&pts)));
    assert_eq!(hull.len(), 5);
    for p in &pts {
        let along = |up: bool| {
            (0..hull.len()).any(|i| {
                let (a, b) = (hull[i], hull[(i + 1) % hull.len()]);
                let between = if up { a[0] <= p[0] && p[0] <= b[0] } else { b[0] <= p[0] && p[0] <= a[0] };
                between && cross(a, b, *p) > -1e-12
            })
        };
        assert!(along(true) && along(false), "{p:?}");
    }
    assert!(cross(hull[2], hull[3], pts[0]) < -0.4);
}
