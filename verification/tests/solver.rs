use aircraft_router_planner::answer::{answer_aircraft, answer_planned};
use aircraft_router_planner::arc::LegCheck;
use aircraft_router_planner::config::{
    AircraftInput, AircraftProfile, AircraftType, Output, ParamsOverride, Waypoint, Zone,
    ZoneShape, ZoneType,
};
use aircraft_router_planner::coord::Geo;
use aircraft_router_planner::error::AppError;
use aircraft_router_planner::fleet::{solve, Solution, SolveParams, World};
use aircraft_router_planner::mission::collect_zones;
use aircraft_router_planner::options::smooth_options_for;
use aircraft_router_planner::oracle::Calc;
use aircraft_router_planner::passage::{dist_km, restricted_pass_alt, Performance};
use aircraft_router_planner::path::{Path, PathPoint};
use aircraft_router_planner::plan::VehiclePlan;
use aircraft_router_planner::profile::build_restricted_profiles;
use aircraft_router_planner::scalar::Scalar;
use aircraft_router_planner::segment::SegmentCheck;
use aircraft_router_planner::target::{read_target_ref, resolve_target_ref, TargetText};
use aircraft_router_planner::task::{Cells, Search, Warning};
use aircraft_router_planner::terrain::Sample;
use aircraft_router_planner::verify::{verify_path, Note, ThreatReading, VerifyContext};
use aircraft_router_planner::zone::restricted_blocks_alt;
use geo::{Distance, Geodesic};
use serde_json::Value;

fn s(x: f64) -> Scalar {
    Scalar { bits: x.to_bits() }
}

fn f(x: Scalar) -> f64 {
    f64::from_bits(x.bits)
}

fn calc(q: Calc) -> Scalar {
    s(match q {
        Calc::Sin(x) => f(x).sin(),
        Calc::Cos(x) => f(x).cos(),
        Calc::Tan(x) => f(x).tan(),
        Calc::Asin(x) => f(x).asin(),
        Calc::Acos(x) => f(x).acos(),
        Calc::Atan(x) => f(x).atan(),
        Calc::Atan2(y, x) => f(y).atan2(f(x)),
        Calc::Ln(x) => f(x).ln(),
        Calc::Exp(x) => f(x).exp(),
        Calc::Powi(x, n) => f(x).powi(n),
        Calc::Powf(x, y) => f(x).powf(f(y)),
        Calc::Geodesic(a, b) => Geodesic.distance(
            geo::Point::new(f(a.lon), f(a.lat)),
            geo::Point::new(f(b.lon), f(b.lat)),
        ),
    })
}

type Terrain = fn((Scalar, Scalar)) -> Sample;
type NoFly = fn((Scalar, Scalar)) -> bool;
type Depth = fn((Scalar, Scalar, Scalar)) -> Scalar;

fn number(v: &Value) -> Option<Scalar> {
    v.as_f64().map(s)
}

fn pair(v: &Value) -> [Scalar; 2] {
    [number(&v[0]).unwrap(), number(&v[1]).unwrap()]
}

fn list(v: &Value) -> Vec<Value> {
    v.as_array().cloned().unwrap_or_default()
}

fn waypoint(v: &Value) -> Waypoint {
    Waypoint {
        lon: number(&v["lon"]).unwrap(),
        lat: number(&v["lat"]).unwrap(),
        alt_m: number(&v["alt_m"]).unwrap(),
    }
}

fn profile(v: &Value) -> AircraftProfile {
    AircraftProfile {
        aircraft_type: if v["aircraft_type"] == "ROTORCRAFT" {
            AircraftType::Rotorcraft
        } else {
            AircraftType::FixedWing
        },
        cruise_speed_mps: number(&v["cruise_speed_mps"]),
        min_turn_radius_m: number(&v["min_turn_radius_m"]),
        max_climb_angle_deg: number(&v["max_climb_angle_deg"]),
        ..AircraftProfile::default()
    }
}

fn zones(v: &Value, zone_type: ZoneType) -> Vec<Zone> {
    list(v)
        .iter()
        .map(|z| {
            let g = &z["geometry"];
            Zone {
                id: z["id"].as_str().unwrap().to_string(),
                zone_type,
                shape: if z["shape"] == "circle" {
                    ZoneShape::Circle {
                        center: pair(&g["center"]),
                        radius_km: number(&g["radius_km"]).unwrap(),
                    }
                } else {
                    ZoneShape::Polygon {
                        vertices: list(&g["vertices"]).iter().map(pair).collect(),
                    }
                },
                alt_min_m: number(&z["alt_min_m"]),
                alt_max_m: number(&z["alt_max_m"]),
            }
        })
        .collect()
}

fn parsed(text: &[char]) -> Option<Scalar> {
    text.iter().collect::<String>().parse::<f64>().ok().map(s)
}

/// The place an aircraft is sent to, at the height of the target of the mission.
fn target(text: Option<&str>, mission: &Waypoint) -> Result<Waypoint, AppError> {
    let read = read_target_ref(text);
    let (lon, lat) = match &read {
        TargetText::Place(lon, lat) => (parsed(lon), parsed(lat)),
        _ => (None, None),
    };
    let place = resolve_target_ref(&read, lon, lat, &mission.to_geo()?)?;
    Ok(Waypoint { lon: place.lon, lat: place.lat, alt_m: mission.alt_m })
}

fn aircraft(mission: &Value) -> Result<Vec<AircraftInput>, AppError> {
    let goal = waypoint(&mission["target"]);
    let vehicles = list(&mission["vehicles"]);
    if vehicles.is_empty() {
        return Ok(vec![AircraftInput {
            id: "v1".to_string(),
            profile: AircraftProfile::default(),
            start: waypoint(&mission["start"]),
            target: goal,
            mid_waypoints: vec![],
            weapon: None,
        }]);
    }
    vehicles
        .iter()
        .map(|v| {
            Ok(AircraftInput {
                id: v["id"].as_str().unwrap().to_string(),
                profile: profile(&v["profile"]),
                start: waypoint(&v["start_pose"]),
                target: target(v["target_ref"].as_str(), &goal)?,
                mid_waypoints: list(&v["mid_waypoints"]).iter().map(waypoint).collect(),
                weapon: None,
            })
        })
        .collect()
}

/// The cheapest way over a grid of costs, by moves to the eight neighbours; among
/// ways that cost the same, one that stays close to the straight line.
fn cheapest(cost: &[f64], grid: usize, from: (usize, usize), to: (usize, usize)) -> Option<Cells> {
    let n = grid * grid;
    let start = from.0 * grid + from.1;
    let goal = to.0 * grid + to.1;
    let mut best = vec![f64::INFINITY; n];
    let mut back = vec![usize::MAX; n];
    let mut heap = std::collections::BinaryHeap::new();
    best[start] = 0.0;
    let (ur, uc) = (to.0 as f64 - from.0 as f64, to.1 as f64 - from.1 as f64);
    let length = (ur * ur + uc * uc).sqrt().max(1.0);
    heap.push((std::cmp::Reverse(0u64), start));
    while let Some((std::cmp::Reverse(bits), i)) = heap.pop() {
        if f64::from_bits(bits) > best[i] {
            continue;
        }
        if i == goal {
            break;
        }
        let (r, c) = ((i / grid) as i64, (i % grid) as i64);
        for (dr, dc) in [(0, 1), (0, -1), (1, 0), (-1, 0), (1, 1), (1, -1), (-1, 1), (-1, -1)] {
            let (nr, nc) = (r + dr, c + dc);
            if nr < 0 || nc < 0 || nr >= grid as i64 || nc >= grid as i64 {
                continue;
            }
            let j = nr as usize * grid + nc as usize;
            let step = if dr != 0 && dc != 0 { 2f64.sqrt() } else { 1.0 };
            let (vr, vc) = (nr as f64 - from.0 as f64, nc as f64 - from.1 as f64);
            let off = (ur * vc - uc * vr).abs() / length / grid as f64;
            let d = best[i] + step * cost[j] * (1.0 + 1e-3 * off);
            if d < best[j] {
                best[j] = d;
                back[j] = i;
                heap.push((std::cmp::Reverse(d.to_bits()), j));
            }
        }
    }
    if !best[goal].is_finite() {
        return None;
    }
    let mut cells = vec![to];
    let mut i = goal;
    while i != start {
        i = back[i];
        cells.push((i / grid, i % grid));
    }
    Some(cells)
}

/// Nothing detects anything.
fn unseen(_: Path) -> ThreatReading {
    ThreatReading { cumulative_p: s(0.0), peak_p: s(0.0), p_cross: s(0.1), over_threshold: false }
}

fn unseen_at(_: (Scalar, Scalar)) -> Scalar {
    s(0.0)
}

fn out_of_reach(_: (Scalar, Scalar, Scalar)) -> Scalar {
    s(f64::INFINITY)
}

fn all_zones(mission: &Value) -> Vec<Zone> {
    collect_zones(
        zones(&mission["no_fly_zones"], ZoneType::NoFly),
        zones(&mission["restricted_zones"], ZoneType::Restricted),
        zones(&mission["obstacles"], ZoneType::Obstacle),
    )
}

fn solved(text: &str, terrain: Option<Terrain>) -> Result<Solution, AppError> {
    let v: Value = serde_json::from_str(text).unwrap();
    let mission = &v["mission"];
    let aircraft = aircraft(mission)?;
    let all = all_zones(mission);
    let overrides = ParamsOverride {
        radar_inflation: None,
        detection_curve: None,
        p_cross: None,
        suppression_delta: None,
        radar_cost_coef: None,
        los_mask_coef: None,
    };
    let search = |q: Search| {
        let cost: Vec<f64> = q.cost.iter().map(|c| f(*c)).collect();
        cheapest(&cost, q.grid, q.from, q.to)
    };
    let world = World {
        calc: &calc,
        terrain: terrain.as_ref(),
        nofly: None::<&NoFly>,
        chance: &unseen_at,
        depth: &out_of_reach,
        judge: &unseen,
    };
    let solution = solve(&aircraft, &all, &overrides, &SolveParams::default(), &world, &search)?;
    assert!(solution.faults.is_empty());
    assert_eq!(solution.survey.vehicles.len(), solution.plans.len());
    Ok(solution)
}

fn plan(text: &str, terrain: Option<Terrain>) -> Result<(Vec<VehiclePlan>, Vec<Warning>), AppError> {
    solved(text, terrain).map(|s| (s.plans, s.degradations))
}

/// The answer to a request, its warnings left out.
fn answered(text: &str, elapsed_ms: u64) -> Output {
    let solution = solved(text, None).ok().unwrap();
    let aircraft = solution
        .survey
        .vehicles
        .iter()
        .zip(&solution.plans)
        .map(|(v, p)| answer_aircraft(&v.id, p, vec![]))
        .collect();
    answer_planned(aircraft, s(0.0), vec![], elapsed_ms)
}

fn planned(text: &str) -> Vec<VehiclePlan> {
    plan(text, None).ok().unwrap().0
}

fn distance(v: &VehiclePlan) -> f64 {
    f(v.distance_m)
}

fn close_to(p: &PathPoint, lon: f64, lat: f64, tol: f64) -> bool {
    (f(p.lon) - lon).abs() < tol && (f(p.lat) - lat).abs() < tol
}

fn passes(v: &VehiclePlan, lon: f64, lat: f64) -> Option<usize> {
    v.path.iter().position(|p| close_to(p, lon, lat, 0.05))
}

fn smoothing_failed(v: &VehiclePlan) -> bool {
    v.warnings.iter().any(|w| matches!(w, Warning::SmoothingFailed))
}

const BASE: &str = r#"{
    "mission":{
        "start":{"lon":115.0,"lat":39.0,"alt_m":3000},
        "target":{"lon":116.5,"lat":39.9,"alt_m":3000},
        "terrain":{"source":"none"}
    }
}"#;

#[test]
fn m1_end_to_end_plain() {
    let out = answered(BASE, 42);
    assert_eq!(out.status, "success");
    assert_eq!(out.aircraft.len(), 1);
    assert_eq!(out.aircraft[0].status, "planned");
    assert_eq!(out.elapsed_ms, Some(42));
    let vehicles = planned(BASE);
    assert_eq!(vehicles.len(), 1);
    let v = &vehicles[0];
    assert!(v.planned);
    assert!(v.path.len() >= 2, "{} points", v.path.len());
    assert!(distance(v) > 100_000.0, "distance {}", distance(v));
    assert!(close_to(v.path.first().unwrap(), 115.0, 39.0, 0.02));
    assert!(close_to(v.path.last().unwrap(), 116.5, 39.9, 0.02));
}

#[test]
fn m1_no_solution_when_target_blocked() {
    let text = r#"{
        "mission":{
            "start":{"lon":115.0,"lat":39.0,"alt_m":3000},
            "target":{"lon":116.5,"lat":39.9,"alt_m":3000},
            "terrain":{"source":"none"},
            "no_fly_zones":[{"id":"wall","zone_type":"no_fly","shape":"circle",
                "geometry":{"center":[116.5,39.9],"radius_km":30},
                "alt_min_m":0,"alt_max_m":10000}]
        }
    }"#;
    let v = &planned(text)[0];
    assert!(!v.planned);
    assert!(v.path.is_empty());
    assert_eq!(distance(v), 0.0);
    assert!(matches!(v.warnings[..], [Warning::NoPath]));
}

#[test]
fn twin_zone_smooth_after_band_penalty() {
    let text = r#"{
        "mission":{
            "start":{"lon":116.7188493150615,"lat":40.20313810412108,"alt_m":3000},
            "target":{"lon":115.44547741980215,"lat":38.63800678240428,"alt_m":3000},
            "terrain":{"source":"none"},
            "no_fly_zones":[
                {"id":"c1","zone_type":"no_fly","shape":"circle",
                 "geometry":{"center":[115.90510756361434,39.1546051011457],"radius_km":20},
                 "alt_min_m":0,"alt_max_m":20000},
                {"id":"p1","zone_type":"no_fly","shape":"polygon",
                 "geometry":{"vertices":[
                     [116.10919779988855,39.40629934778061],
                     [116.66748158411933,39.2812425371292],
                     [116.63856029155627,39.72638339128002],
                     [116.21277919960414,39.78606996932337],
                     [115.82845032806537,39.89839427431206],
                     [115.56298632103817,39.63798773661437]]},
                 "alt_min_m":0,"alt_max_m":20000}
            ]
        }
    }"#;
    let v = &planned(text)[0];
    assert!(v.planned);
    assert!(v.path.len() <= 10, "{} points", v.path.len());
    assert!(!smoothing_failed(v), "{:?}", v.warnings);
}

fn corner_mountain(place: (Scalar, Scalar)) -> Sample {
    let (lon, lat) = (f(place.0), f(place.1));
    if !(115.55..116.75).contains(&lon) || !(39.30..40.30).contains(&lat) {
        Sample::OutOfBounds
    } else if lon < 115.95 {
        Sample::Land(s(700.0))
    } else {
        Sample::Land(s(50.0))
    }
}

fn plateau(place: (Scalar, Scalar)) -> Sample {
    let (lon, lat) = (f(place.0), f(place.1));
    if (115.9..116.4).contains(&lon) && (39.3..39.8).contains(&lat) {
        Sample::Land(s(1450.0))
    } else {
        Sample::OutOfBounds
    }
}

const CORNER_MOUNTAIN: Terrain = corner_mountain;
const PLATEAU: Terrain = plateau;

fn place(lon: f64, lat: f64) -> Geo {
    Geo::new(s(lon), s(lat)).unwrap()
}

fn restricted(center: [f64; 2], radius_km: f64, lo: f64, hi: f64) -> Zone {
    Zone {
        id: "rz".into(),
        zone_type: ZoneType::Restricted,
        shape: ZoneShape::Circle { center: [s(center[0]), s(center[1])], radius_km: s(radius_km) },
        alt_min_m: Some(s(lo)),
        alt_max_m: Some(s(hi)),
    }
}

fn pass_alt(
    z: &Zone,
    alt: f64,
    ceiling: Option<f64>,
    ground: Option<&Terrain>,
    start: &Geo,
    target: &Geo,
) -> Option<f64> {
    let limits = Performance {
        alt_m: s(alt),
        max_climb_deg: s(15.0),
        ceiling_m: ceiling.map(s),
    };
    restricted_pass_alt(z, &limits, ground, start, target, &vec![], None, &calc).map(f)
}

const RZ: [f64; 2] = [116.14959340327005, 39.597263409766285];

#[test]
fn bottom_pass_band_ignores_corner_mountain() {
    let z = restricted(RZ, 20.0, 2000.0, 5000.0);
    let start = place(116.82168446499925, 40.23810827713887);
    let target = place(115.28680713092322, 39.04668499383146);
    let pass = pass_alt(&z, 3000.0, None, Some(&CORNER_MOUNTAIN), &start, &target);
    assert_eq!(pass, Some(1500.0));
}

#[test]
fn restricted_pass_alt_top_flyover_vs_bottom_descent() {
    let z = restricted(RZ, 20.0, 2000.0, 5000.0);
    let start = place(116.82168446499925, 40.23810827713887);
    let target = place(115.28680713092322, 39.04668499383146);
    assert_eq!(pass_alt(&z, 3000.0, None, None, &start, &target), Some(1500.0));
    assert_eq!(pass_alt(&z, 3000.0, None, Some(&PLATEAU), &start, &target), Some(5500.0));
    assert_eq!(pass_alt(&z, 3000.0, Some(5000.0), Some(&PLATEAU), &start, &target), None);
    assert!(!restricted_blocks_alt(&z, s(1500.0)));
}

#[test]
fn restricted_pass_alt_zero_alt_min_forces_top() {
    let z = restricted([115.1103270025858, 39.570299948815645], 20.0, 0.0, 5000.0);
    let start = place(116.82168446499925, 40.23810827713887);
    let target = place(113.93832638409175, 38.5937625849369);
    assert_eq!(pass_alt(&z, 3000.0, None, None, &start, &target), Some(5500.0));
}

#[test]
fn build_restricted_profiles_top_flyover_profile() {
    let z = restricted(RZ, 20.0, 2000.0, 5000.0);
    let (slon, slat) = (116.82168446499925, 40.23810827713887);
    let (tlon, tlat) = (115.28680713092322, 39.04668499383146);
    let pts: Vec<PathPoint> = (0..=20)
        .map(|i| {
            let t = i as f64 / 20.0;
            let (lon, lat) = (slon + (tlon - slon) * t, slat + (tlat - slat) * t);
            PathPoint::new(s(lon), s(lat), s(3000.0))
        })
        .collect();
    let limits = Performance { alt_m: s(3000.0), max_climb_deg: s(15.0), ceiling_m: None };
    let (segs, mask, _) = build_restricted_profiles(
        &Path::new(pts),
        &vec![z],
        &limits,
        Some(&PLATEAU),
        &place(slon, slat),
        &place(tlon, tlat),
        s(0.0),
        &calc,
    );
    assert_eq!(segs.len(), 5);
    assert_eq!(mask, vec![false, true, false, true, false]);
    let heights = |k: usize| -> Vec<f64> { segs[k].points.iter().map(|p| f(p.alt_m)).collect() };
    assert!(heights(2).iter().any(|a| (a - 5500.0).abs() < 1.0), "{:?}", heights(2));
    assert!(heights(2).iter().all(|a| (a - 5500.0).abs() < 1.0), "{:?}", heights(2));
    assert_eq!(segs[1].points.len(), 2);
    assert_eq!(segs[3].points.len(), 2);
    assert!(
        heights(1).iter().all(|a| *a == 3000.0 || (a - 5500.0).abs() < 1.0),
        "{:?}",
        heights(1)
    );
}

#[test]
fn changes_of_height_keep_the_ground_they_need() {
    let z = restricted(RZ, 20.0, 2000.0, 5000.0);
    let (slon, slat) = (116.82168446499925, 40.23810827713887);
    let (tlon, tlat) = (115.28680713092322, 39.04668499383146);
    let pts: Vec<PathPoint> = (0..=60)
        .map(|i| {
            let t = i as f64 / 60.0;
            let (lon, lat) = (slon + (tlon - slon) * t, slat + (tlat - slat) * t);
            PathPoint::new(s(lon), s(lat), s(3000.0))
        })
        .collect();
    let limits = Performance { alt_m: s(3000.0), max_climb_deg: s(15.0), ceiling_m: None };
    let (segs, mask, _) = build_restricted_profiles(
        &Path::new(pts),
        &vec![z],
        &limits,
        Some(&PLATEAU),
        &place(slon, slat),
        &place(tlon, tlat),
        s(0.0),
        &calc,
    );
    let steepest = 15f64.to_radians().tan();
    let mut changes = 0;
    for (seg, straight) in segs.iter().zip(&mask) {
        if *straight {
            let (a, b) = (seg.points[0], seg.points[1]);
            let km = f(dist_km(a.lon, a.lat, b.lon, b.lat, &calc));
            let high = (f(a.alt_m) - f(b.alt_m)).abs();
            assert!(high > 2000.0 && high * 1.1 <= km * 1000.0 * steepest * (1.0 + 1e-12), "{high} {km}");
            changes += 1;
        }
    }
    assert_eq!(changes, 2);
}

#[test]
fn a_route_without_a_leg_is_delivered_with_a_warning() {
    let v: Value = serde_json::from_str(BASE).unwrap();
    let aircraft = aircraft(&v["mission"]).ok().unwrap();
    let overrides = ParamsOverride {
        radar_inflation: None,
        detection_curve: None,
        p_cross: None,
        suppression_delta: None,
        radar_cost_coef: None,
        los_mask_coef: None,
    };
    // A search that never leaves its first cell.
    let search = |q: Search| -> Option<Cells> { Some(vec![q.from]) };
    let world = World {
        calc: &calc,
        terrain: None::<&Terrain>,
        nofly: None::<&NoFly>,
        chance: &unseen_at,
        depth: &out_of_reach,
        judge: &unseen,
    };
    let params = SolveParams::default();
    let solution = solve(&aircraft, &vec![], &overrides, &params, &world, &search).ok().unwrap();
    let plan = &solution.plans[0];
    assert!(plan.planned);
    assert_eq!(plan.path.len(), 1);
    assert!(smoothing_failed(plan), "{:?}", plan.warnings);
}

#[test]
fn restricted_zone_height_layer_blocks_or_passes() {
    let mk = |alt: f64| {
        format!(
            r#"{{
                "mission":{{
                    "start":{{"lon":116.82168446499925,"lat":40.23810827713887,"alt_m":{alt}}},
                    "target":{{"lon":115.28680713092322,"lat":39.04668499383146,"alt_m":{alt}}},
                    "terrain":{{"source":"none"}},
                    "restricted_zones":[{{"id":"rz","zone_type":"restricted","shape":"circle",
                        "geometry":{{"center":[116.14959340327005,39.597263409766285],"radius_km":20}},
                        "alt_min_m":2000,"alt_max_m":5000}}]
                }}
            }}"#
        )
    };
    let v = &planned(&mk(3000.0))[0];
    assert!(v.planned);
    assert!(v.path.len() <= 10, "{} points", v.path.len());
    assert!(distance(v) < 190_000.0, "{} km", distance(v) / 1000.0);
    assert!(v.path.iter().any(|p| f(p.alt_m) < 2000.0), "{:?}", v.path);
    assert!(!smoothing_failed(v), "{:?}", v.warnings);
    let v = &planned(&mk(1500.0))[0];
    assert!(v.planned);
    assert!(v.path.len() <= 3, "{} points", v.path.len());
    assert!(distance(v) < 192_000.0, "{} km", distance(v) / 1000.0);
}

fn leg(zones: &Vec<Zone>, inflation_km: f64, a: [f64; 3], b: [f64; 3]) -> bool {
    let check = SegmentCheck {
        zones,
        threat: None::<&Depth>,
        inflation_km: s(inflation_km),
        terrain: None::<&Terrain>,
        clearance_m: s(0.0),
        calc: &calc,
    };
    let end = |p: [f64; 3]| Waypoint { lon: s(p[0]), lat: s(p[1]), alt_m: s(p[2]) };
    check.check(&end(a), &end(b))
}

#[test]
fn segment_check_geometry_catches_diagonal_polygon_crossing() {
    let corners = [[116.2, 39.9], [116.5, 39.9], [116.5, 40.2], [116.35, 40.2]];
    let zones = vec![Zone {
        id: "trap".into(),
        zone_type: ZoneType::NoFly,
        shape: ZoneShape::Polygon {
            vertices: corners.iter().map(|p| [s(p[0]), s(p[1])]).collect(),
        },
        alt_min_m: Some(s(0.0)),
        alt_max_m: Some(s(12000.0)),
    }];
    assert!(!leg(&zones, 0.0, [115.9, 39.8, 3000.0], [116.48, 40.3, 3000.0]));
    assert!(leg(&zones, 0.0, [115.9, 39.8, 3000.0], [116.55, 39.85, 3000.0]));
    assert!(leg(&zones, 0.0, [116.55, 39.85, 3000.0], [116.8, 40.3, 3000.0]));
    assert!(!leg(&zones, 6.0, [115.9, 39.8, 3000.0], [116.55, 39.85, 3000.0]));
    assert!(leg(&zones, 6.0, [115.0, 39.0, 3000.0], [117.0, 39.5, 3000.0]));
}

#[test]
fn segment_check_restricted_shallow_graze_rejected() {
    let zones = vec![restricted([116.27050736818683, 41.08978345198258], 50.0, 0.0, 5000.0)];
    let (a, b) = ([118.28982699875671, 38.42208802408725], [114.2076, 42.3648]);
    assert!(!leg(&zones, 0.0, [a[0], a[1], 3000.0], [b[0], b[1], 3000.0]));
    assert!(leg(&zones, 0.0, [a[0], a[1], 6000.0], [b[0], b[1], 6000.0]));
}

#[test]
fn m1_detours_around_zone() {
    let text = r#"{
        "mission":{
            "start":{"lon":115.0,"lat":39.0,"alt_m":3000},
            "target":{"lon":116.5,"lat":39.9,"alt_m":3000},
            "terrain":{"source":"none"},
            "no_fly_zones":[{"id":"mid","zone_type":"no_fly","shape":"circle",
                "geometry":{"center":[115.75,39.45],"radius_km":25},
                "alt_min_m":0,"alt_max_m":10000}]
        }
    }"#;
    let v = &planned(text)[0];
    assert!(v.planned);
    assert!(distance(v) > 155_000.0, "distance {}", distance(v));
}

#[test]
fn m2_restricted_band_does_not_wall() {
    let text = r#"{
        "mission":{
            "start":{"lon":115.0,"lat":39.0,"alt_m":3000},
            "target":{"lon":116.5,"lat":39.9,"alt_m":3000},
            "terrain":{"source":"none"},
            "restricted_zones":[{"id":"band","zone_type":"restricted","shape":"circle",
                "geometry":{"center":[115.75,39.45],"radius_km":25},
                "alt_min_m":0,"alt_max_m":2000}]
        }
    }"#;
    let v = &planned(text)[0];
    assert!(v.planned);
    assert!(distance(v) < 167_000.0, "distance {}", distance(v));
}

#[test]
fn m2_nofly_wall_blocks_regardless_of_altitude() {
    let text = r#"{
        "mission":{
            "start":{"lon":115.0,"lat":39.0,"alt_m":3000},
            "target":{"lon":116.5,"lat":39.9,"alt_m":3000},
            "terrain":{"source":"none"},
            "no_fly_zones":[{"id":"wall","zone_type":"no_fly","shape":"circle",
                "geometry":{"center":[115.75,39.45],"radius_km":25},
                "alt_min_m":0,"alt_max_m":2000}]
        }
    }"#;
    let v = &planned(text)[0];
    assert!(v.planned);
    assert!(distance(v) > 160_000.0, "distance {}", distance(v));
}

#[test]
fn heights_given_for_walls_do_not_matter() {
    let text = |wall: &str, band: &str| {
        format!(
            r#"{{
        "mission":{{
            "start":{{"lon":115.0,"lat":39.0,"alt_m":3000}},
            "target":{{"lon":116.5,"lat":39.9,"alt_m":3000}},
            "terrain":{{"source":"none"}},
            "no_fly_zones":[{{"id":"wall","zone_type":"no_fly","shape":"circle",
                "geometry":{{"center":[115.5,39.3],"radius_km":12}}{wall}}}],
            "restricted_zones":[{{"id":"band","zone_type":"restricted","shape":"circle",
                "geometry":{{"center":[116.0,39.6],"radius_km":12}}{band}}}]
        }}
    }}"#
        )
    };
    let low = r#","alt_min_m":0,"alt_max_m":2000"#;
    let here = r#","alt_min_m":1000,"alt_max_m":5000"#;
    let first = planned(&text("", here));
    assert!(first[0].planned);
    for wall in [low, here, r#","alt_min_m":9000"#] {
        let v = planned(&text(wall, here));
        assert_eq!(v[0].path, first[0].path);
        assert_eq!(v[0].distance_m, first[0].distance_m);
        assert_eq!(v[0].warnings, first[0].warnings);
    }
    // Those given for a band do.
    assert_ne!(planned(&text("", low))[0].path, first[0].path);
}

#[test]
fn m5_mid_waypoint_passes_through() {
    let text = r#"{
        "mission":{
            "start":{"lon":115.0,"lat":39.0,"alt_m":3000},
            "target":{"lon":116.5,"lat":39.9,"alt_m":3000},
            "terrain":{"source":"none"},
            "vehicles":[
                {"id":"uav1","profile":{"aircraft_type":"FIXED_WING","cruise_speed_mps":250},
                 "start_pose":{"lon":115.0,"lat":39.0,"alt_m":3000,"heading_deg":45},
                 "mid_waypoints":[{"lon":115.3,"lat":39.8,"alt_m":3000}]}
            ]
        }
    }"#;
    let v = &planned(text)[0];
    assert!(v.planned);
    assert!(passes(v, 115.3, 39.8).is_some(), "{:?}", v.path);
    assert!(distance(v) > 180_000.0, "dist {}", distance(v));
}

#[test]
fn m5_per_vehicle_independent_waypoints() {
    let text = r#"{
        "mission":{
            "start":{"lon":115.0,"lat":39.0,"alt_m":3000},
            "target":{"lon":116.5,"lat":39.9,"alt_m":3000},
            "terrain":{"source":"none"},
            "vehicles":[
                {"id":"uav1","profile":{"aircraft_type":"FIXED_WING","cruise_speed_mps":250},
                 "start_pose":{"lon":115.0,"lat":39.0,"alt_m":3000,"heading_deg":45},
                 "mid_waypoints":[{"lon":115.3,"lat":39.8,"alt_m":3000}]},
                {"id":"uav2","profile":{"aircraft_type":"ROTORCRAFT","cruise_speed_mps":60},
                 "start_pose":{"lon":115.2,"lat":39.1,"alt_m":2000,"heading_deg":90},
                 "mid_waypoints":[{"lon":116.1,"lat":39.2,"alt_m":2000}]}
            ]
        }
    }"#;
    let vehicles = planned(text);
    assert_eq!(vehicles.len(), 2);
    assert!(vehicles.iter().all(|v| v.planned));
    assert!(passes(&vehicles[0], 115.3, 39.8).is_some());
    assert!(passes(&vehicles[1], 116.1, 39.2).is_some());
    assert!(vehicles[1].warnings.is_empty(), "{:?}", vehicles[1].warnings);
}

#[test]
fn m5_multiple_mid_waypoints_sequence() {
    let text = r#"{
        "mission":{
            "start":{"lon":115.0,"lat":39.0,"alt_m":3000},
            "target":{"lon":116.5,"lat":39.9,"alt_m":3000},
            "terrain":{"source":"none"},
            "vehicles":[
                {"id":"uav1","profile":{"aircraft_type":"FIXED_WING","cruise_speed_mps":250},
                 "start_pose":{"lon":115.0,"lat":39.0,"alt_m":3000,"heading_deg":45},
                 "mid_waypoints":[
                    {"lon":115.3,"lat":39.8,"alt_m":3000},
                    {"lon":116.0,"lat":39.7,"alt_m":3000}
                 ]}
            ]
        }
    }"#;
    let v = &planned(text)[0];
    assert!(v.planned);
    let m1 = passes(v, 115.3, 39.8);
    let m2 = passes(v, 116.0, 39.7);
    assert!(m1.is_some() && m2.is_some(), "m1={m1:?} m2={m2:?}");
    assert!(m1.unwrap() < m2.unwrap());
}

#[test]
fn m1_multi_vehicle() {
    let text = r#"{
        "mission":{
            "start":{"lon":115.0,"lat":39.0,"alt_m":3000},
            "target":{"lon":116.5,"lat":39.9,"alt_m":3000},
            "terrain":{"source":"none"},
            "vehicles":[
                {"id":"uav1","profile":{"aircraft_type":"FIXED_WING","cruise_speed_mps":100},
                 "start_pose":{"lon":115.0,"lat":39.0,"alt_m":3000,"heading_deg":45}},
                {"id":"uav2","profile":{"aircraft_type":"ROTORCRAFT","cruise_speed_mps":50},
                 "start_pose":{"lon":115.5,"lat":39.2,"alt_m":2000,"heading_deg":90}}
            ]
        }
    }"#;
    let out = answered(text, 0);
    assert_eq!(out.aircraft.len(), 2);
    assert_eq!(out.aircraft[0].id, "uav1");
    assert_eq!(out.aircraft[1].id, "uav2");
    assert!(out.aircraft.iter().all(|a| a.status == "planned"));
    let vehicles = planned(text);
    assert_eq!(vehicles.len(), 2);
    for v in &vehicles {
        assert!(v.planned);
        assert!(v.path.len() >= 2);
    }
    assert!(close_to(&vehicles[0].path[0], 115.0, 39.0, 0.02));
    assert!(close_to(&vehicles[1].path[0], 115.5, 39.2, 0.02));
    assert!(vehicles[1].warnings.is_empty(), "{:?}", vehicles[1].warnings);
}

#[test]
fn m1_vehicle_per_target_ref() {
    let text = r#"{
        "mission":{
            "start":{"lon":115.0,"lat":39.0,"alt_m":3000},
            "target":{"lon":116.5,"lat":39.9,"alt_m":3000},
            "terrain":{"source":"none"},
            "vehicles":[
                {"id":"v1","profile":{"aircraft_type":"FIXED_WING","cruise_speed_mps":100},
                 "start_pose":{"lon":115.0,"lat":39.0,"alt_m":3000,"heading_deg":45},
                 "target_ref":"117.0,40.2,3000"},
                {"id":"v2","profile":{"aircraft_type":"FIXED_WING","cruise_speed_mps":100},
                 "start_pose":{"lon":115.5,"lat":39.5,"alt_m":3000,"heading_deg":45},
                 "target_ref":"mission.target"}
            ]
        }
    }"#;
    let vehicles = planned(text);
    assert_eq!(vehicles.len(), 2);
    assert!(vehicles.iter().all(|v| v.planned));
    assert!(close_to(vehicles[0].path.last().unwrap(), 117.0, 40.2, 0.05));
    assert!(close_to(vehicles[1].path.last().unwrap(), 116.5, 39.9, 0.05));
    let bad = text.replace("117.0,40.2,3000", "not-a-ref");
    assert!(plan(&bad, None).is_err());
}

fn ridge(place: (Scalar, Scalar)) -> Sample {
    let (lon, lat) = (f(place.0), f(place.1));
    if !(114.0..117.5).contains(&lon) || !(38.0..41.0).contains(&lat) {
        Sample::OutOfBounds
    } else if (115.6..115.9).contains(&lon) {
        Sample::Land(s(3200.0))
    } else {
        Sample::Land(s(50.0))
    }
}

#[test]
fn a_ridge_across_the_way_is_flown_over() {
    let (vehicles, _) = plan(BASE, Some(ridge)).ok().unwrap();
    let v = &vehicles[0];
    assert!(v.planned);
    let raised = v.warnings.iter().find_map(|w| match w {
        Warning::AltitudeRaised { from_m, to_m, .. } => Some((f(*from_m), f(*to_m))),
        _ => None,
    });
    let (from, to) = raised.unwrap();
    assert_eq!(from, 3000.0);
    assert!(to >= 3300.0, "raised to {to}");
    assert!(!smoothing_failed(v), "{:?}", v.warnings);
}

fn coast(place: (Scalar, Scalar)) -> Sample {
    if f(place.0) < 115.6 {
        Sample::OutOfBounds
    } else {
        Sample::Land(s(50.0))
    }
}

#[test]
fn places_beyond_the_terrain_are_planned_with_a_note() {
    let (vehicles, _) = plan(BASE, Some(coast)).ok().unwrap();
    let v = &vehicles[0];
    assert!(v.planned);
    assert!(!v.path.is_empty());
    assert!(v
        .warnings
        .iter()
        .any(|w| matches!(w, Warning::Noted(Note::OutOfTerrain { .. }))), "{:?}", v.warnings);
}

const CIRCLED: &str = r#"{
    "mission":{
        "start":{"lon":115.0,"lat":39.0,"alt_m":3000},
        "target":{"lon":116.5,"lat":39.9,"alt_m":3000},
        "no_fly_zones":[{"id":"mid","shape":"circle",
            "geometry":{"center":[115.75,39.45],"radius_km":25}}]
    }
}"#;

#[test]
fn planning_twice_gives_the_same_routes() {
    let (one, other) = (solved(CIRCLED, None).ok().unwrap(), solved(CIRCLED, None).ok().unwrap());
    assert_eq!(one.degradations, other.degradations);
    assert_eq!(one.plans.len(), other.plans.len());
    for (p, q) in one.plans.iter().zip(&other.plans) {
        assert_eq!(p.planned, q.planned);
        assert_eq!(p.path, q.path);
        assert_eq!(p.distance_m, q.distance_m);
        assert_eq!(p.warnings, q.warnings);
    }
}

#[test]
fn a_route_without_a_warning_passes_verification() {
    let solution = solved(CIRCLED, None).ok().unwrap();
    let mission: Value = serde_json::from_str(CIRCLED).unwrap();
    let zones = all_zones(&mission["mission"]);
    let survey = &solution.survey;
    let (opts, phys_m) = smooth_options_for(&survey.vehicles[0].profile, &survey.params, &calc);
    let plan = &solution.plans[0];
    assert!(plan.planned && !smoothing_failed(plan));
    let context = VerifyContext {
        terrain: None::<&Terrain>,
        nofly: None::<&NoFly>,
        zones: Some(&zones),
        zone_inflation_m: survey.inflation_m,
    };
    let route = Path { points: plan.path.clone() };
    let report = verify_path(&route, None, &opts, &context, Some(phys_m), &calc);
    assert!(report.ok);
    // The straight line crosses the zone and does not pass.
    let straight = Path { points: vec![plan.path[0], plan.path[plan.path.len() - 1]] };
    assert!(!verify_path(&straight, None, &opts, &context, Some(phys_m), &calc).ok);
}
