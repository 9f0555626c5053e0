use aircraft_router_planner::arc::{arc_transition, lay_arc, ArcRule, LegFunction};
use aircraft_router_planner::chain::{
    default_chain, smooth_path_chain, CatmullRomSmoother, GreedySimplifySmoother, SmoothResult,
    Smoother, Stage,
};
use aircraft_router_planner::config::{
    AircraftProfile, AircraftType, DefaultParams, Waypoint, Zone, ZoneShape, ZoneType,
};
use aircraft_router_planner::coord::Geo;
use aircraft_router_planner::curves::{catmull_rom_spline, chaikin_smooth, greedy_simplify};
use aircraft_router_planner::fit::{dubins_fit, height_on_polyline};
use aircraft_router_planner::options::{
    circumradius, smooth_options_for, LocalProjection, SmoothOptions,
};
use aircraft_router_planner::oracle::Calc;
use aircraft_router_planner::passage::segment_circle_intersect_t;
use aircraft_router_planner::path::{angle_diff_deg, haversine_m, Path, PathPoint};
use aircraft_router_planner::scalar::Scalar;
use aircraft_router_planner::smooth::{theta_star_smooth, TurnLimits};
use aircraft_router_planner::terrain::Sample;
use aircraft_router_planner::verify::{
    verify_path, Issue, Note, ThreatReading, VerifyContext, VerifyReport,
};
use geo::{Distance, Geodesic};

fn s(x: f64) -> Scalar {
    Scalar { bits: x.to_bits() }
}

fn f(x: Scalar) -> f64 {
    f64::from_bits(x.bits)
}

fn calc(q: Calc) -> Scalar {
    s(match q {
        Calc::Sin(x) => f(x).sin(),
        Calc::Cos(x) => f(x).cos(),
        Calc::Tan(x) => f(x).tan(),
        Calc::Asin(x) => f(x).asin(),
        Calc::Acos(x) => f(x).acos(),
        Calc::Atan(x) => f(x).atan(),
        Calc::Atan2(y, x) => f(y).atan2(f(x)),
        Calc::Ln(x) => f(x).ln(),
        Calc::Exp(x) => f(x).exp(),
        Calc::Powi(x, n) => f(x).powi(n),
        Calc::Powf(x, y) => f(x).powf(f(y)),
        Calc::Geodesic(a, b) => Geodesic.distance(
            geo::Point::new(f(a.lon), f(a.lat)),
            geo::Point::new(f(b.lon), f(b.lat)),
        ),
    })
}

type Terrain = fn((Scalar, Scalar)) -> Sample;
type NoFly = fn((Scalar, Scalar)) -> bool;

fn flat(place: (Scalar, Scalar)) -> Sample {
    if f(place.0).abs() <= 10.0 && f(place.1).abs() <= 10.0 {
        Sample::Land(s(100.0))
    } else {
        Sample::OutOfBounds
    }
}

fn holes(place: (Scalar, Scalar)) -> Sample {
    if f(place.0).abs() <= 10.0 && f(place.1).abs() <= 10.0 {
        Sample::NoData
    } else {
        Sample::OutOfBounds
    }
}

fn circle(place: (Scalar, Scalar)) -> bool {
    let c = Geo { lon: s(0.5), lat: s(0.0) };
    let p = Geo { lon: place.0, lat: place.1 };
    f(calc(Calc::Geodesic(c, p))) <= 5_000.0
}

const FLAT: Terrain = flat;
const HOLES: Terrain = holes;
const CIRCLE: NoFly = circle;

fn over_flat<'a>() -> VerifyContext<'a, Terrain, NoFly> {
    VerifyContext { terrain: Some(&FLAT), nofly: None, zones: None, zone_inflation_m: s(0.0) }
}

fn point(lon: f64, lat: f64, alt_m: f64) -> PathPoint {
    PathPoint::new(s(lon), s(lat), s(alt_m))
}

fn route(points: &[(f64, f64, f64)]) -> Path {
    Path::new(points.iter().map(|p| point(p.0, p.1, p.2)).collect())
}

fn straight_path(n: usize) -> Path {
    Path::new((0..n).map(|i| point(i as f64 * 0.01, 0.0, 100.0)).collect())
}

fn allow_all(_: (Waypoint, Waypoint)) -> bool {
    true
}

fn allow_none(_: (Waypoint, Waypoint)) -> bool {
    false
}

fn no_slant(leg: (Waypoint, Waypoint)) -> bool {
    let (a, b) = leg;
    !((f(b.lon) - f(a.lon)).abs() > 0.025 && (f(b.lat) - f(a.lat)).abs() > 0.01)
}

fn limits(max: Option<f64>, entry: Option<f64>) -> TurnLimits {
    TurnLimits {
        max_turn_deg: max.map(s),
        entry_heading: entry.map(s),
        min_r_m: s(0.0),
        entry_max_deg: s(95.0),
    }
}

fn verified(p: &Path, opts: &SmoothOptions, ctx: &VerifyContext<Terrain, NoFly>) -> VerifyReport {
    verify_path(p, None, opts, ctx, None, &calc)
}

fn chained(
    input: &Path,
    rule: fn((Waypoint, Waypoint)) -> bool,
    opts: &SmoothOptions,
    ctx: &VerifyContext<Terrain, NoFly>,
) -> SmoothResult {
    let check = LegFunction { f: rule };
    let chain = default_chain(opts, &check, None, s(95.0), &calc);
    smooth_path_chain(input, &chain, opts, ctx, None, &calc)
}

fn says(report: &VerifyReport, word: &str) -> bool {
    report.issues.iter().any(|i| i.phrase().contains(word))
}

#[test]
fn theta_star_removes_collinear() {
    let p = straight_path(20);
    let check = LegFunction { f: allow_all };
    let out = theta_star_smooth(&p, &check, &limits(None, None), &calc);
    assert_eq!(out.len(), 2, "got {}", out.len());
}

#[test]
fn theta_star_blocked_mid() {
    let p = straight_path(10);
    let check = LegFunction { f: allow_none };
    let out = theta_star_smooth(&p, &check, &limits(None, None), &calc);
    assert_eq!(out.len(), p.len(), "got {}", out.len());
}

#[test]
fn theta_star_first_jump_respects_entry_heading() {
    let p = route(&[
        (0.0, 0.0, 100.0),
        (0.01, 0.01, 100.0),
        (0.02, 0.02, 100.0),
        (0.03, 0.03, 100.0),
    ]);
    let check = LegFunction { f: allow_all };
    let len = |entry: Option<f64>| {
        theta_star_smooth(&p, &check, &limits(Some(60.0), entry), &calc).len()
    };
    assert_eq!(len(Some(0.0)), 2);
    assert_eq!(len(Some(90.0)), 2);
    assert_eq!(len(Some(180.0)), 3);
    assert_eq!(len(None), 2);
}

#[test]
fn chaikin_endpoints_kept() {
    let p = straight_path(5);
    let out = chaikin_smooth(&p, 1);
    assert_eq!(out.points[0].lon, p.points[0].lon);
    assert_eq!(out.last().unwrap().lon, p.last().unwrap().lon);
    assert!(out.len() > p.len());
    for pt in &out.points {
        assert!(f(pt.lat).abs() < 1e-12);
    }
}

#[test]
fn catmull_endpoints_kept() {
    let p = straight_path(5);
    let out = catmull_rom_spline(&p, 4);
    assert!((f(out.points[0].lon) - f(p.points[0].lon)).abs() < 1e-9);
    assert!((f(out.last().unwrap().lon) - f(p.last().unwrap().lon)).abs() < 1e-9);
    assert!(out.len() > p.len());
    for pt in &out.points {
        assert!(f(pt.lat).abs() < 1e-9, "catmull on line deviates: {}", f(pt.lat));
    }
}

#[test]
fn greedy_simplify_tolerance() {
    let pts: Vec<PathPoint> = (0..10)
        .map(|i| {
            let lat = if i % 2 == 0 { 0.0 } else { 0.001 };
            point(i as f64 * 0.01, lat, 100.0)
        })
        .collect();
    let p = Path::new(pts);
    let out = greedy_simplify(&p, s(200.0), &calc);
    assert_eq!(out.len(), 2, "got {}", out.len());
    let out2 = greedy_simplify(&p, s(50.0), &calc);
    assert!(out2.len() >= 6, "got {}", out2.len());
}

#[test]
fn dubins_fit_horizontal() {
    let p = Path::new(vec![
        point(0.0, 0.0, 100.0).with_heading(s(90.0)),
        point(1.0, 0.0, 100.0).with_heading(s(90.0)),
    ]);
    let out = dubins_fit(&p, s(5_000.0), 32, &calc).unwrap();
    assert!(out.len() >= 4);
    let away = |q: &PathPoint, lon: f64| f(haversine_m(q.lon, q.lat, s(lon), s(0.0), &calc));
    let d0 = away(&out.points[0], 0.0);
    let d1 = away(out.last().unwrap(), 1.0);
    assert!(d0 < 100.0 && d1 < 100.0, "d0={d0} d1={d1}");
    for pt in &out.points {
        assert!((f(pt.alt_m) - 100.0).abs() < 1e-6);
    }
}

#[test]
fn dubins_fit_too_close_none() {
    let p = Path::new(vec![
        point(0.0, 0.0, 100.0).with_heading(s(90.0)),
        point(0.0001, 0.0, 100.0).with_heading(s(0.0)),
    ]);
    assert!(dubins_fit(&p, s(5_000.0), 32, &calc).is_none());
    let bad = Path::new(vec![
        point(f64::NAN, 0.0, 100.0).with_heading(s(90.0)),
        point(1.0, 0.0, 100.0).with_heading(s(90.0)),
    ]);
    assert!(dubins_fit(&bad, s(5_000.0), 32, &calc).is_none());
}

#[test]
fn dubins_fit_same_heading_close_s_shape() {
    let p = Path::new(vec![
        point(0.0, 0.0, 100.0).with_heading(s(90.0)),
        point(0.0001, 0.0, 100.0).with_heading(s(90.0)),
    ]);
    let out = dubins_fit(&p, s(5_000.0), 64, &calc).unwrap();
    let proj = LocalProjection::new(s(0.0), s(0.0), &calc);
    let xy = |lon: Scalar, lat: Scalar| {
        let (x, y) = proj.to_xy(lon, lat);
        (f(x), f(y))
    };
    let (x0, y0) = xy(out.points[0].lon, out.points[0].lat);
    assert!(x0.abs() < 1.0 && y0.abs() < 1.0, "start ({x0},{y0})");
    let (x1, y1) = xy(out.last().unwrap().lon, out.last().unwrap().lat);
    let (ex, ey) = xy(s(0.0001), s(0.0));
    assert!((x1 - ex).abs() < 1.0 && (y1 - ey).abs() < 1.0, "end ({x1},{y1}) vs ({ex},{ey})");
    let n = out.len();
    let (ax, ay) = xy(out.points[n - 2].lon, out.points[n - 2].lat);
    let (bx, by) = xy(out.points[n - 1].lon, out.points[n - 1].lat);
    let hd = ((by - ay).atan2(bx - ax)).to_degrees() + 90.0;
    let dh = f(angle_diff_deg(s(hd), s(90.0)));
    assert!(dh.abs() < 5.0, "final heading {hd} (dh={dh})");
}

#[test]
fn projection_roundtrip() {
    let pr = LocalProjection::new(s(116.4), s(39.9), &calc);
    let (x, y) = pr.to_xy(s(116.4), s(39.9));
    assert!(f(x).abs() < 1e-6 && f(y).abs() < 1e-6);
    let (lon, lat) = pr.to_lonlat(s(f(x) + 1000.0), s(f(y) + 1000.0));
    let d = f(haversine_m(s(116.4), s(39.9), lon, lat, &calc));
    assert!((d - 1414.2).abs() < 2.0, "d={d}");
}

#[test]
fn height_follows_the_nearest_leg() {
    let p = route(&[(0.0, 0.0, 100.0), (1.0, 0.0, 300.0), (1.0, 1.0, 300.0)]);
    let h = f(height_on_polyline(&p, s(0.5), s(0.01), &calc));
    assert!((h - 200.0).abs() < 1e-6, "h={h}");
}

fn circle_span(leg: [f64; 4]) -> Option<(f64, f64)> {
    segment_circle_intersect_t(
        s(leg[0]),
        s(leg[1]),
        s(leg[2]),
        s(leg[3]),
        s(116.27050736818683),
        s(41.08978345198258),
        s(50.0),
        &calc,
    )
    .map(|(a, b)| (f(a), f(b)))
}

#[test]
fn segment_circle_intersect_shallow_graze() {
    let t = circle_span([118.28982699875671, 38.42208802408725, 114.2076, 42.3648]);
    assert!(t.is_some(), "a shallow cut counts");
    if let Some((t1, t2)) = t {
        assert!(t1 > 0.5 && t2 < 0.7, "got {t1:.3}..{t2:.3}");
    }
    assert!(circle_span([118.0, 38.0, 117.0, 38.5]).is_none());
    assert!(circle_span([116.27, 40.5, 116.27, 41.7]).is_some());
}

fn plane(p: (f64, f64)) -> (Scalar, Scalar) {
    (s(p.0), s(p.1))
}

#[test]
fn circumradius_known() {
    let r = f(circumradius(plane((0.0, 0.0)), plane((1.0, 0.0)), plane((0.0, 1.0))).unwrap());
    assert!((r - std::f64::consts::FRAC_1_SQRT_2).abs() < 1e-9);
    assert!(circumradius(plane((0.0, 0.0)), plane((1.0, 0.0)), plane((2.0, 0.0))).is_none());
}

#[test]
fn a_leg_that_touches_a_circle_meets_it() {
    // The leg leaves the circle, widened by a kilometre, at its start.
    let touch = |radius_km: f64| {
        let (at, west) = (s(0.0), s(-0.5));
        segment_circle_intersect_t(at, at, s(0.5), at, west, at, s(radius_km), &calc)
            .map(|(a, b)| (f(a), f(b)))
    };
    assert_eq!(touch(0.5 * 111.32 - 1.0), Some((0.0, 0.0)));
    assert!(touch(0.5 * 111.32 - 1.001).is_none());
}

#[test]
fn verify_flat_ok() {
    let p = route(&[(0.0, 0.0, 500.0), (0.5, 0.0, 500.0), (1.0, 0.0, 500.0)]);
    let rep = verified(&p, &SmoothOptions::default(), &over_flat());
    assert!(rep.ok, "issues: {:?}", rep.issues);
}

#[test]
fn verify_terrain_collision() {
    let p = route(&[(0.0, 0.0, 150.0), (1.0, 0.0, 150.0)]);
    let rep = verified(&p, &SmoothOptions::default(), &over_flat());
    assert!(!rep.ok);
    assert!(says(&rep, "clearance"));
}

#[test]
fn verify_zones_altitude_band() {
    let zones = vec![Zone {
        id: "R1".into(),
        zone_type: ZoneType::Restricted,
        shape: ZoneShape::Circle { center: [s(0.5), s(0.0)], radius_km: s(10.0) },
        alt_min_m: Some(s(0.0)),
        alt_max_m: Some(s(1000.0)),
    }];
    let ctx = VerifyContext { zones: Some(&zones), ..over_flat() };
    let opts = SmoothOptions::default();
    let rep = verified(&route(&[(0.0, 0.0, 500.0), (1.0, 0.0, 500.0)]), &opts, &ctx);
    assert!(!rep.ok);
    assert!(says(&rep, "zone"), "{:?}", rep.issues);
    let rep = verified(&route(&[(0.0, 0.0, 3000.0), (1.0, 0.0, 3000.0)]), &opts, &ctx);
    assert!(rep.ok, "above the band: {:?}", rep.issues);
}

#[test]
fn verify_nofly_violation() {
    let ctx = VerifyContext { nofly: Some(&CIRCLE), ..over_flat() };
    let p = route(&[(0.0, 0.0, 500.0), (1.0, 0.0, 500.0)]);
    let rep = verified(&p, &SmoothOptions::default(), &ctx);
    assert!(!rep.ok);
    assert!(says(&rep, "no-fly"));
}

#[test]
fn verify_turn_radius_violation() {
    let opts = SmoothOptions {
        max_turn_deg: s(180.0),
        turn_radius_m: s(100_000.0),
        ..SmoothOptions::default()
    };
    let p = route(&[(0.0, 0.0, 500.0), (0.5, 0.0, 500.0), (0.5, 0.5, 500.0)]);
    let rep = verified(&p, &opts, &over_flat());
    assert!(!rep.ok);
    assert!(says(&rep, "radius"), "{:?}", rep.issues);
}

#[test]
fn verify_tells_what_is_wrong_with_a_route() {
    let opts = SmoothOptions::default();
    let ctx = over_flat();
    let one = verified(&route(&[(0.0, 0.0, 500.0)]), &opts, &ctx);
    assert!(matches!(one.issues[0], Issue::TooFewPoints));
    let bad = verified(&route(&[(f64::NAN, 0.0, 500.0), (1.0, 0.0, 500.0)]), &opts, &ctx);
    assert!(matches!(bad.issues[0], Issue::NonFinitePoint));
    let steep = verified(&route(&[(0.0, 0.0, 500.0), (0.01, 0.0, 5000.0)]), &opts, &ctx);
    assert!(steep.issues.iter().any(|i| matches!(i, Issue::Climb { .. })));
    let sharp = route(&[(0.0, 0.0, 500.0), (0.5, 0.0, 500.0), (0.1, 0.1, 500.0)]);
    let sharp = verified(&sharp, &opts, &ctx);
    assert!(sharp.issues.iter().any(|i| matches!(i, Issue::Turn { .. })));
    let slow = verify_path(
        &route(&[(0.0, 0.0, 500.0), (1.0, 0.0, 500.0)]),
        None,
        &opts,
        &ctx,
        Some(s(1e9)),
        &calc,
    );
    assert!(slow.issues.iter().any(|i| matches!(i, Issue::SpeedRadius { .. })));
    let out = verified(&route(&[(0.0, 0.0, 500.0), (20.0, 0.0, 500.0)]), &opts, &ctx);
    assert!(out.ok);
    let told = out.warnings.iter().filter(|n| matches!(n, Note::OutOfTerrain { .. })).count();
    assert_eq!(told, 1);
}

#[test]
fn detection_is_noted_but_accepted() {
    let p = route(&[(0.0, 0.0, 500.0), (1.0, 0.0, 500.0)]);
    let mut rep = verified(&p, &SmoothOptions::default(), &over_flat());
    let before = rep.warnings.len();
    rep.note_threat(&ThreatReading {
        cumulative_p: s(0.9),
        peak_p: s(0.5),
        p_cross: s(0.3),
        over_threshold: true,
    });
    assert!(rep.ok);
    assert_eq!(rep.warnings.len(), before + 1);
    assert!(matches!(rep.warnings[before], Note::DetectionOver { .. }));
}

#[test]
fn chain_full_pipeline() {
    let opts = SmoothOptions::default();
    let ctx = over_flat();
    let pts: Vec<PathPoint> = (0..20)
        .map(|i| {
            let lat = if i % 2 == 0 { 0.0 } else { 0.002 };
            point(i as f64 * 0.05, lat, 500.0)
        })
        .collect();
    let input = Path::new(pts);
    let out = chained(&input, allow_all, &opts, &ctx);
    assert!(!out.applied.is_empty(), "applied: {:?}", out.applied);
    assert!(out.warning.is_none(), "warning: {:?}", out.warning);
    assert!(out.path.len() <= input.len());
    let rep = verify_path(&out.path, Some(&input), &opts, &ctx, None, &calc);
    assert!(rep.ok, "issues: {:?}", rep.issues);
}

#[test]
fn chain_nodata_degrades_not_fails() {
    let opts = SmoothOptions::default();
    let ctx = VerifyContext { terrain: Some(&HOLES), ..over_flat() };
    let input = route(&[(0.0, 0.0, 500.0), (0.5, 0.5, 500.0), (1.0, 0.0, 500.0)]);
    let out = chained(&input, allow_all, &opts, &ctx);
    assert!(!out.applied.is_empty(), "applied: {:?}", out.applied);
    assert_eq!(out.warning, None);
    assert!(
        out.verify.warnings.iter().any(|w| w.phrase().contains("NoData terrain")),
        "{:?}",
        out.verify.warnings
    );
}

#[test]
fn chain_nan_input_no_panic() {
    let input = route(&[(f64::NAN, 0.0, 500.0), (1.0, 0.0, 500.0)]);
    let out = chained(&input, allow_all, &SmoothOptions::default(), &over_flat());
    assert!(!out.verify.ok);
}

fn square_wave(teeth: usize, step_deg: f64) -> Path {
    let mut pts = vec![point(0.0, 0.0, 500.0)];
    for t in 0..teeth {
        let (x, y) = (t as f64 * 2.0 * step_deg, t as f64 * step_deg);
        pts.push(point(x + 2.0 * step_deg, y, 500.0));
        pts.push(point(x + 2.0 * step_deg, y + step_deg, 500.0));
    }
    pts.push(point(teeth as f64 * 2.0 * step_deg, teeth as f64 * step_deg, 500.0));
    Path::new(pts)
}

#[test]
fn fixed_wing_square_wave_rejected() {
    let wave = square_wave(4, 0.02);
    let out = chained(&wave, no_slant, &SmoothOptions::default(), &over_flat());
    assert_eq!(
        out.warning.as_deref(),
        Some("smoothing_failed: no smoothed stage passed full verification")
    );
    assert!(!out.verify.ok);
    assert!(says(&out.verify, "turn"));
}

#[test]
fn fixed_wing_clean_square_wave_straightened() {
    let wave = square_wave(4, 0.02);
    let out = chained(&wave, allow_all, &SmoothOptions::default(), &over_flat());
    assert!(out.warning.is_none(), "warning: {:?}", out.warning);
    assert!(out.verify.ok, "issues: {:?}", out.verify.issues);
    assert_eq!(out.path.len(), 2, "got {}", out.path.len());
}

fn rotorcraft() -> SmoothOptions {
    SmoothOptions { aircraft_type: AircraftType::Rotorcraft, ..SmoothOptions::default() }
}

#[test]
fn rotorcraft_square_wave_passes() {
    let wave = square_wave(4, 0.02);
    let rep = verified(&wave, &rotorcraft(), &over_flat());
    assert!(rep.ok, "rotorcraft square wave misjudged: {:?}", rep.issues);
    assert!(rep.issues.is_empty());
}

#[test]
fn rotorcraft_chain_keeps_turns_not_dubins() {
    let wave = square_wave(4, 0.02);
    let out = chained(&wave, no_slant, &rotorcraft(), &over_flat());
    assert!(out.verify.ok, "issues: {:?}", out.verify.issues);
    assert!(out.warning.is_none(), "warning: {:?}", out.warning);
    assert!(out.path.len() >= 6, "turns lost: {}", out.path.len());
}

#[test]
fn m4_profile_smooth_options_derivation() {
    let p = DefaultParams::default();
    let derive = |prof: &AircraftProfile| {
        let (o, a6) = smooth_options_for(prof, &p, &calc);
        (o, f(a6))
    };

    let (o, a6) = derive(&AircraftProfile::default());
    assert!((a6 - 5000.0).abs() < 1e-9, "a6 = {a6}");
    assert_eq!(o.aircraft_type, AircraftType::FixedWing);
    assert!((f(o.turn_radius_m) - 5000.0).abs() < 1e-9, "turn {}", f(o.turn_radius_m));
    assert!((f(o.max_climb_deg) - 15.0).abs() < 1e-9);

    let prof = AircraftProfile { cruise_speed_mps: Some(s(50.0)), ..AircraftProfile::default() };
    let (o, a6) = derive(&prof);
    assert!((a6 - 441.6).abs() < 1.0, "a6 = {a6}");
    assert!((f(o.turn_radius_m) - 5000.0).abs() < 1e-9);

    let prof = AircraftProfile {
        cruise_speed_mps: Some(s(250.0)),
        min_turn_radius_m: Some(s(20_000.0)),
        ..AircraftProfile::default()
    };
    let (o, a6) = derive(&prof);
    assert!((f(o.turn_radius_m) - 20_000.0).abs() < 1e-9);
    assert!((a6 - 11_035.0).abs() < 2.0, "a6 = {a6}");

    let prof = AircraftProfile {
        cruise_speed_mps: Some(s(250.0)),
        min_turn_radius_m: Some(s(442.0)),
        ..AircraftProfile::default()
    };
    let (o, a6) = derive(&prof);
    assert!((f(o.turn_radius_m) - 442.0).abs() < 1e-9, "turn {}", f(o.turn_radius_m));
    assert!((a6 - 442.0).abs() < 1e-9, "a6 = {a6}");
    let v_turn = (442.0 * 9.81 * 30f64.to_radians().tan()).sqrt();
    assert!((v_turn - 50.0).abs() < 1.0, "v_turn = {v_turn}");

    let prof = AircraftProfile {
        aircraft_type: AircraftType::Rotorcraft,
        speed_range_mps: Some([s(40.0), s(80.0)]),
        ..AircraftProfile::default()
    };
    let (o, a6) = derive(&prof);
    assert_eq!(o.aircraft_type, AircraftType::Rotorcraft);
    assert_eq!(f(o.turn_radius_m), 0.0);
    assert_eq!(a6, 0.0);
}

fn not_across(leg: (Waypoint, Waypoint)) -> bool {
    let (a, b) = leg;
    !(f(a.lon) == 0.0 && f(b.lat) == 1.0)
}

#[test]
fn theta_star_keeps_the_end_behind_an_arc() {
    // The leg across the corner is not allowed, so the corner itself is rounded off.
    let p = route(&[(0.0, 0.0, 100.0), (1.0, 0.0, 100.0), (1.0, 1.0, 100.0)]);
    let check = LegFunction { f: not_across };
    let turns = TurnLimits { min_r_m: s(5_000.0), ..limits(Some(60.0), None) };
    let out = theta_star_smooth(&p, &check, &turns, &calc);
    assert!(out.len() > 3, "{} points", out.len());
    assert_eq!(out.points[0], p.points[0]);
    assert_eq!(out.points[out.len() - 1], p.points[2]);
    assert!(!out.points.contains(&p.points[1]));
}

fn not_ahead(leg: (Waypoint, Waypoint)) -> bool {
    let (a, b) = leg;
    let from_start = f(a.lon) == 0.0 && f(b.lat) > 0.005;
    let past_corner = f(a.lon) == 1.0 && f(a.lat) == 0.0 && f(b.lon) == 2.0;
    !from_start && !past_corner
}

#[test]
fn a_jump_arc_leads_on_behind_where_it_rejoins() {
    // The route turns north at its third point; the fourth lies behind the arc there,
    // so the arc leads back to the fifth, which it was laid towards.
    let p = route(&[
        (0.0, 0.0, 100.0),
        (0.5, 0.0, 100.0),
        (1.0, 0.0, 100.0),
        (1.0, 0.01, 100.0),
        (1.0, 1.0, 100.0),
        (2.0, 5.0, 100.0),
    ]);
    let check = LegFunction { f: not_ahead };
    let turns = TurnLimits { min_r_m: s(5_000.0), ..limits(Some(60.0), None) };
    let out = theta_star_smooth(&p, &check, &turns, &calc);
    // The fifth is put behind the arc, and the route goes on from there.
    let n = out.len();
    assert_eq!(out.points[0], p.points[0]);
    assert_eq!(out.points[n - 2], p.points[4]);
    assert_eq!(out.points[n - 1], p.points[5]);
    for k in 1..4 {
        assert!(!out.points.contains(&p.points[k]), "{k}");
    }
    for k in 0..n - 1 {
        let (a, b) = (out.points[k], out.points[k + 1]);
        let of = |q: PathPoint| Waypoint { lon: q.lon, lat: q.lat, alt_m: q.alt_m };
        let raw = p.points.windows(2).any(|w| w[0] == a && w[1] == b);
        assert!(raw || not_ahead((of(a), of(b))), "{k}");
    }

    // Without a sixth point the arc leads back to the end, which is put behind it once.
    let p = route(&[
        (0.0, 0.0, 100.0),
        (0.5, 0.0, 100.0),
        (1.0, 0.0, 100.0),
        (1.0, 0.01, 100.0),
        (1.0, 1.0, 100.0),
    ]);
    let out = theta_star_smooth(&p, &check, &turns, &calc);
    assert_eq!(out.len(), 5);
    assert_eq!(out.points[4], p.points[4]);
    assert_ne!(out.points[3], p.points[4]);
}

#[test]
fn a_jump_arc_goes_on_before_its_target() {
    // The arc leads back to the fourth point, before the one that it was laid towards.
    let p = route(&[
        (0.0, 0.0, 100.0),
        (0.5, 0.0, 100.0),
        (1.0, 0.0, 100.0),
        (1.0, 0.5, 100.0),
        (1.0, 1.0, 100.0),
    ]);
    let check = LegFunction { f: not_ahead };
    let turns = TurnLimits { min_r_m: s(5_000.0), ..limits(Some(60.0), None) };
    let out = theta_star_smooth(&p, &check, &turns, &calc);
    assert_eq!(out.len(), 5);
    assert_eq!(out.points[0], p.points[0]);
    assert_eq!(out.points[4], p.points[4]);
    assert!(!out.points.contains(&p.points[3]));
}

#[test]
fn a_spline_ends_at_the_last_point() {
    let p = route(&[
        (116.123456789, 39.987654321, 1234.5),
        (116.3, 40.1, 777.7),
        (116.777777, 39.5, 1500.3),
        (117.314159, 39.271828, 333.3),
    ]);
    for m in [1, 3, 16, 100] {
        let out = catmull_rom_spline(&p, m);
        let (a, b) = (out.points[out.len() - 1], p.points[3]);
        assert!((f(a.lon) - f(b.lon)).abs() < 1e-10 && (f(a.lat) - f(b.lat)).abs() < 1e-10);
        assert!((f(a.alt_m) - f(b.alt_m)).abs() < 1e-9);
        assert_eq!(out.points[0], p.points[0]);
    }
}

#[test]
fn an_arc_is_not_laid_below_the_smallest_radius() {
    let check = LegFunction { f: allow_all };
    let rule =
        ArcRule { max_turn_deg: s(60.0), min_r_m: s(5_000.0), keep_b: false, min_steps: 0 };
    let (a, b) = (point(0.0, 0.0, 100.0), point(0.5, 0.0, 100.0));
    // The leg behind the corner is too short for the arc.
    let near = point(0.5, 0.01, 100.0);
    assert!(lay_arc(&a, &b, &near, &rule, &check, &calc).is_none());
    let kept = ArcRule { keep_b: true, ..rule };
    assert!(lay_arc(&a, &b, &near, &kept, &check, &calc).is_some());
    for min_r in [100.0, 1_000.0, 5_000.0, 7_777.7, 20_000.0] {
        let rule = ArcRule { min_r_m: s(min_r), ..rule };
        let far = point(0.5, 1.0, 100.0);
        let pts = lay_arc(&a, &b, &far, &rule, &check, &calc).unwrap();
        assert_eq!(pts.len(), 3);
        let plane = LocalProjection::new(b.lon, b.lat, &calc);
        let at = |k: usize| plane.to_xy(pts[k].lon, pts[k].lat);
        let r = f(circumradius(at(0), at(1), at(2)).unwrap());
        assert!(r > min_r * 0.999, "{r} {min_r}");
        let path = vec![a, b, far];
        let (_, k) = arc_transition(&a, &b, &far, &rule, &check, &path, 1, &calc).unwrap();
        assert_eq!(k, 2);
        // Nothing is left to rejoin.
        assert!(arc_transition(&a, &b, &far, &rule, &check, &path, 2, &calc).is_none());
        assert!(arc_transition(&a, &b, &far, &rule, &check, &path, usize::MAX, &calc).is_none());
    }
}

#[test]
fn the_last_stage_that_passes_is_delivered() {
    let opts = SmoothOptions::default();
    let ctx = over_flat();
    // A slight bend in the middle.
    let bend = |i: i32| point(i as f64 * 0.1, (i - 2).max(0) as f64 * 0.005, 500.0);
    let input = Path::new((0..5).map(bend).collect());
    let turn: fn(Calc) -> Scalar = calc;
    let thin = || GreedySimplifySmoother { tol_m: s(100.0), calc: &turn };
    let run = |chain: Vec<Stage<fn(Calc) -> Scalar, LegFunction<fn((Waypoint, Waypoint)) -> bool>>>| {
        smooth_path_chain(&input, &chain, &opts, &ctx, None, &calc)
    };
    let out = run(vec![
        Stage::Thin(thin()),
        Stage::Curve(CatmullRomSmoother { samples_per_seg: 16 }),
    ]);
    // More points than the stage before it, which passes as well.
    assert_eq!(out.applied, vec!["greedy_simplify", "catmull_rom"]);
    assert!(out.warning.is_none() && out.path.len() > 5, "{} points", out.path.len());
    let out = run(vec![Stage::Thin(thin())]);
    assert_eq!(out.applied, vec!["greedy_simplify"]);
    assert_eq!(out.path.len(), 3);
}

#[test]
fn every_stage_ends_where_the_route_does() {
    let opts = SmoothOptions { turn_radius_m: s(2_000.0), ..SmoothOptions::default() };
    assert_eq!(opts.aircraft_type, AircraftType::FixedWing);
    let check = LegFunction { f: allow_all };
    let chain = default_chain(&opts, &check, None, s(95.0), &calc);
    assert_eq!(chain.len(), 4);
    let mut path = route(&[
        (116.123456789, 39.987654321, 1234.5),
        (116.3, 40.1, 777.7),
        (116.777777, 39.5, 1500.3),
        (117.314159, 39.271828, 333.3),
    ]);
    let end = path.points[3];
    let mut laid = 0;
    for stage in &chain {
        if let Some(out) = stage.smooth(&path) {
            laid += 1;
            let last = out.points[out.len() - 1];
            let tol = 1e-9 * 2_001.0 + 1e-10;
            assert!((f(last.lon) - f(end.lon)).abs() < tol, "{} {:?}", stage.name(), last);
            assert!((f(last.lat) - f(end.lat)).abs() < tol, "{} {:?}", stage.name(), last);
            path = out;
        }
    }
    assert!(laid >= 3, "{laid}");
}

#[test]
fn a_fit_keeps_the_headings_of_the_ends() {
    // Straight north the curve is a straight line.
    let north = route(&[(10.0, 20.0, 100.0), (10.0, 21.0, 100.0)]);
    let out = dubins_fit(&north, s(5_000.0), 32, &calc).unwrap();
    let first = &out.points[0];
    let last = out.last().unwrap();
    let straight = f(haversine_m(first.lon, first.lat, last.lon, last.lat, &calc));
    assert!((f(out.length_m(&calc)) - straight).abs() < 10.0, "{}", f(out.length_m(&calc)));
    // Set out north-east, arrive going south.
    let bent = Path::new(vec![
        point(10.0, 20.0, 100.0).with_heading(s(45.0)),
        point(11.0, 20.5, 100.0).with_heading(s(180.0)),
    ]);
    let out = dubins_fit(&bent, s(5_000.0), 400, &calc).unwrap();
    let n = out.len();
    let (a, b) = (out.points[0], out.points[1]);
    let east = (f(b.lon) - f(a.lon)) * f(a.lat).to_radians().cos();
    assert!((east.atan2(f(b.lat) - f(a.lat)).to_degrees() - 45.0).abs() < 3.0);
    let (a, b) = (out.points[n - 2], out.points[n - 1]);
    let east = (f(b.lon) - f(a.lon)) * f(a.lat).to_radians().cos();
    let arrival = east.atan2(f(b.lat) - f(a.lat)).to_degrees();
    assert!(arrival.abs() > 177.0, "{arrival}");
}
