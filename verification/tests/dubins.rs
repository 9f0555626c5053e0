use aircraft_router_planner::dubins::{
    dubins_path, dubins_shortest_len, dubins_success_rate, DubinsPath, PosePair,
};
use aircraft_router_planner::oracle::Calc;
use aircraft_router_planner::scalar::Scalar;
use geo::{Distance, Geodesic};
use std::f64::consts::{FRAC_PI_2, PI};

fn s(x: f64) -> Scalar {
    Scalar { bits: x.to_bits() }
}

fn f(x: Scalar) -> f64 {
    f64::from_bits(x.bits)
}

fn calc(q: Calc) -> Scalar {
    s(match q {
        Calc::Sin(x) => f(x).sin(),
        Calc::Cos(x) => f(x).cos(),
        Calc::Tan(x) => f(x).tan(),
        Calc::Asin(x) => f(x).asin(),
        Calc::Acos(x) => f(x).acos(),
        Calc::Atan(x) => f(x).atan(),
        Calc::Atan2(y, x) => f(y).atan2(f(x)),
        Calc::Ln(x) => f(x).ln(),
        Calc::Exp(x) => f(x).exp(),
        Calc::Powi(x, n) => f(x).powi(n),
        Calc::Powf(x, y) => f(x).powf(f(y)),
        Calc::Geodesic(a, b) => Geodesic.distance(
            geo::Point::new(f(a.lon), f(a.lat)),
            geo::Point::new(f(b.lon), f(b.lat)),
        ),
    })
}

fn spot(p: (f64, f64)) -> (Scalar, Scalar) {
    (s(p.0), s(p.1))
}

fn way(p0: (f64, f64), th0: f64, p1: (f64, f64), th1: f64, r: f64) -> Option<DubinsPath> {
    dubins_path(spot(p0), s(th0), spot(p1), s(th1), s(r), &calc)
}

fn shortest(p0: (f64, f64), th0: f64, p1: (f64, f64), th1: f64, r: f64) -> Option<f64> {
    dubins_shortest_len(spot(p0), s(th0), spot(p1), s(th1), s(r), &calc).map(f)
}

fn sampled(path: &DubinsPath, n: usize) -> Vec<(f64, f64)> {
    path.sample(n, &calc).iter().map(|p| (f(p.0), f(p.1))).collect()
}

#[test]
fn straight_lsl_is_straight() {
    let len = shortest((0.0, 0.0), 0.0, (100.0, 0.0), 0.0, 1.0).unwrap();
    assert!((len - 100.0).abs() < 1e-6, "got {len}");
}

#[test]
fn vertical_lsr_path_valid() {
    let path = way((0.0, 0.0), 0.0, (0.0, 10.0), 0.0, 1.0).unwrap();
    let pts = sampled(&path, 200);
    let (sx, sy) = pts[0];
    let (ex, ey) = *pts.last().unwrap();
    assert!((sx - 0.0).abs() < 1e-6 && (sy - 0.0).abs() < 1e-6, "start {sx},{sy}");
    assert!((ex - 0.0).abs() < 1e-6 && (ey - 10.0).abs() < 1e-6, "end {ex},{ey}");
    let n = pts.len();
    let (x1, y1) = pts[n - 2];
    let (x2, y2) = pts[n - 1];
    let heading = (y2 - y1).atan2(x2 - x1);
    assert!(heading.abs() < 0.02, "final heading {heading}");
    let len = f(path.len());
    assert!(len > 10.0 && len < 15.0, "got {len}");
}

#[test]
fn same_point_zero() {
    let len = shortest((5.0, 5.0), 1.0, (5.0, 5.0), 1.0, 1.0).unwrap();
    assert!(len.abs() < 1e-9, "got {len}");
}

#[test]
fn too_close_ccc_solves() {
    let len = shortest((0.0, 0.0), 0.0, (1.0, 0.0), 0.0, 1.0).unwrap();
    assert!(len > 0.0 && len.is_finite(), "got {len}");
}

#[test]
fn ccc_close_path_valid() {
    let path = way((0.0, 0.0), 0.0, (0.1, 0.0), FRAC_PI_2, 1.0).unwrap();
    assert!(path.ccc.is_some(), "should be CCC path");
    let pts = sampled(&path, 600);
    let (sx, sy) = pts[0];
    let (ex, ey) = *pts.last().unwrap();
    assert!((sx - 0.0).abs() < 1e-6 && (sy - 0.0).abs() < 1e-6, "start {sx},{sy}");
    assert!((ex - 0.1).abs() < 1e-3 && (ey - 0.0).abs() < 1e-3, "end {ex},{ey}");
    let n = pts.len();
    let (x1, y1) = pts[n - 2];
    let (x2, y2) = pts[n - 1];
    let heading = (y2 - y1).atan2(x2 - x1);
    assert!((heading - FRAC_PI_2).abs() < 0.05, "final heading {heading}");
    assert!(f(path.len()) > PI, "got {}", f(path.len()));
}

#[test]
fn ccc_close_vertical_heading() {
    let path = way((0.0, 0.0), 0.0, (0.1, 0.0), FRAC_PI_2, 1.0).unwrap();
    assert!(path.ccc.is_some());
    assert!(f(path.a2) > PI, "mid arc should exceed half a turn, got {}", f(path.a2));
    let pts = sampled(&path, 600);
    let (ex, ey) = *pts.last().unwrap();
    assert!((ex - 0.1).abs() < 1e-3 && (ey - 0.0).abs() < 1e-3, "end {ex},{ey}");
}

#[test]
fn same_point_different_heading_single_arc() {
    let len = shortest((0.0, 0.0), 0.0, (0.0, 0.0), FRAC_PI_2, 1.0).unwrap();
    assert!((len - FRAC_PI_2).abs() < 1e-6, "got {len}");
    let len = shortest((0.0, 0.0), 0.0, (0.0, 0.0), PI, 1.0).unwrap();
    assert!((len - PI).abs() < 1e-6, "got {len}");
    let len = shortest((0.0, 0.0), 0.0, (0.0, 0.0), 1.5 * PI, 1.0).unwrap();
    assert!((len - FRAC_PI_2).abs() < 1e-6, "got {len}");
}

#[test]
fn ccc_boundary_no_panic() {
    let _ = shortest((0.0, 0.0), 0.0, (10.0, 0.0), 0.0, 3.0);
    let _ = shortest((0.0, 0.0), 0.0, (1.0, 0.0), 0.0, 0.0);
    let _ = shortest((f64::NAN, 0.0), 0.0, (1.0, 0.0), 0.0, 1.0);
    let _ = shortest((0.0, 0.0), 0.0, (1.0, 0.0), 0.0, f64::INFINITY);
}

#[test]
fn nothing_to_join_without_a_radius() {
    assert!(shortest((0.0, 0.0), 0.0, (1.0, 0.0), 0.0, 0.0).is_none());
    assert!(shortest((0.0, 0.0), 0.0, (1.0, 0.0), 0.0, -1.0).is_none());
}

#[test]
fn success_rate_counts_and_averages() {
    let pair = |x: f64| PosePair {
        p0: spot((0.0, 0.0)),
        th0: s(0.0),
        p1: spot((x, 0.0)),
        th1: s(0.0),
    };
    let (ok, all, avg) = dubins_success_rate(&vec![pair(100.0), pair(50.0)], s(1.0), &calc);
    assert_eq!((ok, all), (2, 2));
    assert!((f(avg) - 75.0).abs() < 1e-6);
    let (ok, all, avg) = dubins_success_rate(&vec![pair(100.0)], s(0.0), &calc);
    assert_eq!((ok, all, f(avg)), (0, 1, 0.0));
}

#[test]
fn a_path_without_length_stays_at_its_point() {
    for (p, th, r) in [((0.0, 0.0), 0.0, 2.0), ((5.0, -3.0), 1.0, 0.5), ((0.0, 0.0), 4.0, 100.0)] {
        let path = way(p, th, p, th, r).unwrap();
        assert_eq!(f(path.len()), 0.0);
        for n in [0, 2, 7] {
            for q in sampled(&path, n) {
                assert!((q.0 - p.0).abs() < 1e-9 && (q.1 - p.1).abs() < 1e-9, "{q:?}");
            }
        }
    }
}

#[test]
fn a_turn_on_the_spot_starts_at_its_point() {
    for th1 in [0.5, 2.0, 4.0, 6.0] {
        let path = way((1.0, 2.0), 0.0, (1.0, 2.0), th1, 3.0).unwrap();
        let pts = sampled(&path, 40);
        assert!((pts[0].0 - 1.0).abs() < 1e-9 && (pts[0].1 - 2.0).abs() < 1e-9, "{:?}", pts[0]);
        // It sets out east, and ends on its circle with the other heading.
        let out = (pts[1].1 - pts[0].1).atan2(pts[1].0 - pts[0].0);
        assert!(out.abs() < 0.1, "{out}");
        let n1 = f(path.n1.1).atan2(f(path.n1.0));
        let heading = if th1 < PI { n1 + FRAC_PI_2 } else { n1 - FRAC_PI_2 };
        assert!((heading - th1).sin().abs() < 1e-9 && (heading - th1).cos() > 0.0, "{heading}");
        let length: f64 = pts
            .windows(2)
            .map(|w| ((w[1].0 - w[0].0).powi(2) + (w[1].1 - w[0].1).powi(2)).sqrt())
            .sum();
        assert!((length - f(path.len())).abs() < 1e-2, "{length} {}", f(path.len()));
    }
}

/// Poses spread over a square, with a radius.
fn poses() -> Vec<((f64, f64), f64, (f64, f64), f64, f64)> {
    let mut bits: u64 = 0x2545_f491_4f6c_dd1d;
    let mut next = |scale: f64| {
        bits = bits.wrapping_mul(6364136223846793005).wrapping_add(1442695040888963407);
        (bits >> 11) as f64 / (1u64 << 53) as f64 * scale
    };
    (0..500)
        .map(|_| {
            let p0 = (next(20.0), next(20.0));
            let p1 = (next(20.0), next(20.0));
            (p0, next(2.0 * PI), p1, next(2.0 * PI), 0.5 + next(4.0))
        })
        .collect()
}

#[test]
fn samples_run_from_end_to_end() {
    for (p0, th0, p1, th1, r) in poses() {
        let path = way(p0, th0, p1, th1, r).unwrap();
        let pts = sampled(&path, 16);
        let (a, b) = (pts[0], pts[pts.len() - 1]);
        let tol = 1e-6 * (1.0 + r);
        assert!((a.0 - p0.0).abs() < tol && (a.1 - p0.1).abs() < tol, "{a:?} {p0:?}");
        assert!((b.0 - p1.0).abs() < tol && (b.1 - p1.1).abs() < tol, "{b:?} {p1:?}");
    }
}

#[test]
fn the_way_back_turns_on_the_same_circles() {
    let near = |a: (Scalar, Scalar), b: (Scalar, Scalar)| {
        (f(a.0) - f(b.0)).abs() < 1e-9 && (f(a.1) - f(b.1)).abs() < 1e-9
    };
    let mut seen = 0;
    for (p0, th0, p1, th1, r) in poses() {
        let there = way(p0, th0, p1, th1, r).unwrap();
        let back = way(p1, th1 + PI, p0, th0 + PI, r).unwrap();
        if there.ccc.is_some() || back.ccc.is_some() || back.t2 == there.t1 || back.t1 == there.t2 {
            continue;
        }
        assert!(near(there.c1, back.c2) && near(there.c2, back.c1));
        seen += 1;
    }
    assert!(seen > 100, "{seen}");
}

#[test]
fn the_way_back_is_as_long() {
    for (p0, th0, p1, th1, r) in poses() {
        let there = f(way(p0, th0, p1, th1, r).unwrap().len());
        let back = f(way(p1, th1 + PI, p0, th0 + PI, r).unwrap().len());
        assert!((there - back).abs() < 1e-6 * (1.0 + there), "{there} {back}");
    }
}

#[test]
fn the_way_back_over_three_arcs_is_as_long() {
    let there = way((0.0, 0.0), 0.0, (0.1, 0.0), FRAC_PI_2, 1.0).unwrap();
    let back = way((0.1, 0.0), FRAC_PI_2 + PI, (0.0, 0.0), PI, 1.0).unwrap();
    assert!(there.ccc.is_some() && back.ccc.is_some());
    assert!((f(there.len()) - f(back.len())).abs() < 1e-9);
    assert!((f(there.a1) - f(back.ccc.unwrap().a3)).abs() < 1e-9);
    assert!((f(there.a2) - f(back.a2)).abs() < 1e-9);
    assert!((f(there.ccc.unwrap().a3) - f(back.a1)).abs() < 1e-9);
}

#[test]
fn the_way_back_on_the_spot_is_as_long() {
    for (th0, th1) in [(0.0, FRAC_PI_2), (0.3, 0.3 + PI), (6.0, 0.5), (1.0, 1.0), (0.1, 5.9)] {
        for p1 in [(3.0, 4.0), (3.0 + 4e-13, 4.0)] {
            let there = f(way((3.0, 4.0), th0, p1, th1, 2.0).unwrap().len());
            let back = f(way(p1, th1 + PI, (3.0, 4.0), th0 + PI, 2.0).unwrap().len());
            assert!((there - back).abs() < 1e-9, "{there} {back}");
        }
    }
}
