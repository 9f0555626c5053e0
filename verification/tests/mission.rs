use aircraft_router_planner::arc::LegFunction;
use aircraft_router_planner::boundary::{insert_arc, plan_joint, JointPlan};
use aircraft_router_planner::config::{
    AircraftInput, AircraftProfile, DefaultParams, DetectionCurve, ParamsOverride,
    TerrainSourceType, Waypoint, Zone, ZoneShape, ZoneType,
};
use aircraft_router_planner::error::{AppError, InputInvalidReason};
use aircraft_router_planner::fleet::{survey, SolveParams};
use aircraft_router_planner::mission::{
    circle_index, collect_zones, join_paths, radar_param_degradations, radar_threat_params,
    vehicles_of, ParamFault,
};
use aircraft_router_planner::options::SmoothOptions;
use aircraft_router_planner::oracle::Calc;
use aircraft_router_planner::path::{Path, PathPoint};
use aircraft_router_planner::plan::note_once;
use aircraft_router_planner::scalar::Scalar;
use aircraft_router_planner::source::{
    choose_mask, choose_terrain, source_kind, MaskFile, SourceKind, SourceRef, TerrainFile,
    TerrainHandle,
};
use aircraft_router_planner::task::{raise_over, Warning};
use geo::{Distance, Geodesic};

fn s(x: f64) -> Scalar {
    Scalar { bits: x.to_bits() }
}

fn f(x: Scalar) -> f64 {
    f64::from_bits(x.bits)
}

fn calc(q: Calc) -> Scalar {
    s(match q {
        Calc::Sin(x) => f(x).sin(),
        Calc::Cos(x) => f(x).cos(),
        Calc::Tan(x) => f(x).tan(),
        Calc::Asin(x) => f(x).asin(),
        Calc::Acos(x) => f(x).acos(),
        Calc::Atan(x) => f(x).atan(),
        Calc::Atan2(y, x) => f(y).atan2(f(x)),
        Calc::Ln(x) => f(x).ln(),
        Calc::Exp(x) => f(x).exp(),
        Calc::Powi(x, n) => f(x).powi(n),
        Calc::Powf(x, y) => f(x).powf(f(y)),
        Calc::Geodesic(a, b) => Geodesic.distance(
            geo::Point::new(f(a.lon), f(a.lat)),
            geo::Point::new(f(b.lon), f(b.lat)),
        ),
    })
}

fn at(lon: f64, lat: f64) -> Waypoint {
    Waypoint { lon: s(lon), lat: s(lat), alt_m: s(3000.0) }
}

fn aircraft(id: &str, start: Waypoint, target: Waypoint) -> AircraftInput {
    AircraftInput {
        id: id.to_string(),
        profile: AircraftProfile::default(),
        start,
        target,
        mid_waypoints: vec![at(115.5, 39.5)],
        weapon: None,
    }
}

fn round(id: &str, zone_type: ZoneType, radius_km: f64) -> Zone {
    Zone {
        id: id.to_string(),
        zone_type,
        shape: ZoneShape::Circle { center: [s(115.0), s(39.0)], radius_km: s(radius_km) },
        alt_min_m: None,
        alt_max_m: None,
    }
}

fn no_override() -> ParamsOverride {
    ParamsOverride {
        radar_inflation: None,
        detection_curve: None,
        p_cross: None,
        suppression_delta: None,
        radar_cost_coef: None,
        los_mask_coef: None,
    }
}

#[test]
fn vehicles_fly_what_is_asked() {
    let all = vec![aircraft("a1", at(115.0, 39.0), at(116.0, 40.0))];
    let v = &vehicles_of(&all).ok().unwrap()[0];
    assert_eq!(v.id, "a1");
    assert_eq!((f(v.start.lon), f(v.target.lat), f(v.alt_m)), (115.0, 40.0, 3000.0));
    assert_eq!(v.mid_waypoints.len(), 1);
    let mut bad = aircraft("a2", at(115.0, 39.0), at(116.0, 40.0));
    bad.mid_waypoints = vec![at(115.0, 99.0)];
    assert!(matches!(
        vehicles_of(&vec![bad]),
        Err(AppError::InputInvalid(InputInvalidReason::IllegalCoordinate))
    ));
}

#[test]
fn zones_are_collected_in_order() {
    let all = collect_zones(
        vec![round("n", ZoneType::NoFly, 1.0)],
        vec![round("r1", ZoneType::Restricted, 2.0), round("r2", ZoneType::Restricted, 3.0)],
        vec![round("o", ZoneType::Obstacle, 4.0)],
    );
    let ids: Vec<&str> = all.iter().map(|z| z.id.as_str()).collect();
    assert_eq!(ids, ["n", "r1", "r2", "o"]);
}

#[test]
fn circles_are_indexed_in_metres() {
    let mut zones = vec![round("n", ZoneType::NoFly, 2.5)];
    zones.push(Zone {
        shape: ZoneShape::Polygon { vertices: vec![] },
        ..round("p", ZoneType::NoFly, 1.0)
    });
    let index = circle_index(&zones);
    assert_eq!(index.len(), 1);
    assert_eq!(index[0].id, "n");
    assert_eq!((f(index[0].lon), f(index[0].lat)), (115.0, 39.0));
    assert_eq!(f(index[0].radius_m), 2500.0);
}

#[test]
fn threats_take_the_merged_parameters() {
    let table = DefaultParams::default();
    let p = radar_threat_params(&table);
    assert_eq!(p.radar_inflation, table.radar_inflation);
    assert_eq!(p.detection_curve, DetectionCurve::Swerling1);
    assert_eq!(p.p_cross, table.p_cross);
    assert_eq!(p.suppression_delta, table.suppression_delta);
    assert_eq!(f(p.base_p), 0.1);
}

#[test]
fn faulty_parameters_are_told() {
    assert!(radar_param_degradations(&no_override()).is_empty());
    let all = radar_param_degradations(&ParamsOverride {
        radar_inflation: Some(s(1.0)),
        detection_curve: Some("weird".into()),
        p_cross: Some(s(1.5)),
        suppression_delta: Some(s(1.0)),
        radar_cost_coef: Some(s(-1.0)),
        los_mask_coef: Some(s(f64::NAN)),
    });
    assert!(matches!(
        all[..],
        [
            ParamFault::RadarInflation(_),
            ParamFault::PCross(_),
            ParamFault::SuppressionDelta(_),
            ParamFault::RadarCostCoef(_),
            ParamFault::LosMaskCoef(_),
            ParamFault::DetectionCurve,
        ]
    ));
    let good = ParamsOverride { detection_curve: Some("swerling1".into()), ..no_override() };
    assert!(radar_param_degradations(&good).is_empty());
}

fn point(lon: f64, lat: f64) -> PathPoint {
    PathPoint::new(s(lon), s(lat), s(1000.0))
}

#[test]
fn joined_parts_share_their_ends() {
    let one = Path::new(vec![point(0.0, 0.0), point(1.0, 0.0)]);
    let two = Path::new(vec![point(1.0, 5e-13), point(1.0, 1.0)]);
    let joined = join_paths(&vec![one, two]);
    let lats: Vec<f64> = joined.points.iter().map(|p| f(p.lat)).collect();
    assert_eq!(lats, [0.0, 0.0, 1.0]);
    assert!(join_paths(&vec![]).is_empty());
}

#[test]
fn a_survey_refuses_what_cannot_be_flown() {
    let zones = vec![];
    let none = survey(&vec![], &zones, &no_override(), 256, &calc);
    assert!(matches!(
        none,
        Err(AppError::InputInvalid(InputInvalidReason::MissingAircraft))
    ));
    let bad = vec![aircraft("a", at(215.0, 39.0), at(116.0, 40.0))];
    assert!(matches!(
        survey(&bad, &zones, &no_override(), 256, &calc),
        Err(AppError::InputInvalid(InputInvalidReason::IllegalCoordinate))
    ));
    let good = vec![aircraft("a", at(115.0, 39.0), at(116.5, 39.9))];
    let asked = SolveParams::default().grid;
    assert_eq!(asked, 256);
    let s1 = survey(&good, &zones, &no_override(), asked, &calc).ok().unwrap();
    assert_eq!(s1.grid, 256);
    assert_eq!(f(s1.region.min_lon), 115.0 - 0.15);
    // Half the usual turning radius of 5000 metres.
    assert_eq!(f(s1.inflation_m), 2500.0);
}

#[test]
fn terrain_is_chosen_by_who_names_it() {
    let name = |t: &str| Some(t.to_string());
    assert!(matches!(
        choose_terrain(TerrainSourceType::Flat, &name("a"), &name("b")),
        TerrainFile::Flat
    ));
    match choose_terrain(TerrainSourceType::Path, &name("a"), &name("b")) {
        TerrainFile::Named(p) => assert_eq!(p, "a"),
        _ => panic!("the file given counts first"),
    }
    match choose_terrain(TerrainSourceType::Builtin, &None, &name("b")) {
        TerrainFile::Named(p) => assert_eq!(p, "b"),
        _ => panic!("the file of the request counts next"),
    }
    let usual = choose_terrain(TerrainSourceType::Builtin, &None, &None);
    assert!(matches!(usual, TerrainFile::Usual));
    assert!(matches!(choose_mask(&None, &None, &usual), MaskFile::Usual));
    let named = TerrainFile::Named("a".to_string());
    assert!(matches!(choose_mask(&None, &None, &named), MaskFile::Bare));
    assert!(matches!(choose_mask(&name("m"), &None, &named), MaskFile::Named(_)));
    assert!(matches!(choose_mask(&None, &name("m"), &usual), MaskFile::Named(_)));
    assert!(matches!(source_kind("ARPACK"), SourceKind::Builtin));
    assert!(matches!(source_kind("zstd"), SourceKind::Builtin));
    assert!(matches!(source_kind("tif"), SourceKind::External));
}

#[test]
fn terrain_handles_lend_their_source() {
    let plain: TerrainHandle<u8, u16> = TerrainHandle::Plain(7);
    assert!(matches!(plain.as_source(), Some(SourceRef::Bulk(7))));
    assert_eq!(plain.as_bulk(), Some(&7));
    let external: TerrainHandle<u8, u16> = TerrainHandle::MaskedExternal(9);
    assert!(matches!(external.as_source(), Some(SourceRef::Single(9))));
    assert_eq!(external.as_bulk(), None);
    let flat: TerrainHandle<u8, u16> = TerrainHandle::Flat;
    assert!(flat.as_source().is_none());
}

#[test]
fn flights_are_raised_over_ground_within_the_ceiling() {
    let raise = |highest: f64, alt: f64, ceiling: Option<f64>| {
        raise_over(s(highest), s(100.0), s(3000.0), s(alt), ceiling.map(s)).map(f)
    };
    assert_eq!(raise(3200.0, 3000.0, None), Some(3400.0));
    assert_eq!(raise(3200.0, 3000.0, Some(3300.0)), None);
    assert_eq!(raise(3200.0, 3400.0, None), None);
    assert_eq!(raise(100.0, 2000.0, None), Some(3000.0));
}

#[test]
fn warnings_are_noted_once() {
    let mut list = vec![];
    note_once(&mut list, Warning::GridArtifact);
    note_once(&mut list, Warning::SmoothingFailed);
    note_once(&mut list, Warning::GridArtifact);
    assert_eq!(list.len(), 2);
}

fn allow_all(_: (Waypoint, Waypoint)) -> bool {
    true
}

#[test]
fn sharp_joints_are_rounded_and_soft_ones_kept() {
    let check = LegFunction { f: allow_all };
    let opts = SmoothOptions { turn_radius_m: s(500.0), ..SmoothOptions::default() };
    let joint = |c: PathPoint| {
        plan_joint(
            &point(0.0, 0.0), &point(0.5, 0.0), &c, &opts, &vec![], s(0.0), false, &check, &calc,
        )
    };
    assert!(matches!(joint(point(1.0, 0.1)), JointPlan::Keep));
    let arc = match joint(point(0.5, 0.5)) {
        JointPlan::Arc(arc) => arc,
        _ => panic!("a right angle is rounded"),
    };
    assert!(arc.len() >= 2);
    let mut before = vec![point(0.0, 0.0), point(0.5, 0.0)];
    let mut after = vec![point(0.5, 0.0), point(0.5, 0.5)];
    let end = *arc.last().unwrap();
    insert_arc(&mut before, &mut after, arc);
    assert_eq!(before.last().unwrap().lon, end.lon);
    assert_eq!(after[0].lat, end.lat);
}

#[test]
fn a_hard_joint_keeps_its_point() {
    let check = LegFunction { f: allow_all };
    let opts = SmoothOptions { turn_radius_m: s(500.0), ..SmoothOptions::default() };
    let b = point(0.5, 0.0);
    let plan = plan_joint(
        &point(0.0, 0.0), &b, &point(0.5, 0.5), &opts, &vec![], s(0.0), true, &check, &calc,
    );
    let arc = match plan {
        JointPlan::Arc(arc) => arc,
        _ => panic!("a right angle is rounded"),
    };
    assert_eq!((arc[0].lon, arc[0].lat, arc[0].alt_m), (b.lon, b.lat, b.alt_m));
    let mut before = vec![point(0.0, 0.0), b];
    let mut after = vec![b, point(0.5, 0.5)];
    insert_arc(&mut before, &mut after, arc);
    let parts = vec![Path::new(before), Path::new(after)];
    let route = join_paths(&parts);
    assert!(route.points.iter().any(|p| p.lon == b.lon && p.lat == b.lat && p.alt_m == b.alt_m));
}
