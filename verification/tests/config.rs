use aircraft_router_planner::config::{
    default_antenna_m, AircraftInput, AircraftProfile, AircraftType, DefaultParams, DetectionCurve,
    Input, LaunchEnvelope, Output, ParamsOverride, Radar, RedForces, TerrainConfig,
    TerrainSourceType, Waypoint, Weapon, WeaponType, Zone, ZoneShape, ZoneType,
};
use aircraft_router_planner::coord::Geo;
use aircraft_router_planner::error::{AppError, ErrorBody, InputInvalidReason};
use aircraft_router_planner::oracle::Calc;
use aircraft_router_planner::scalar::Scalar;
use aircraft_router_planner::validate::validate;
use aircraft_router_planner::zone::{
    point_in_polygon, restricted_blocks_alt, zone_contains_at, zone_segment_clearance_km,
};
use geo::{Distance, Geodesic};
use serde_json::Value;

fn s(x: f64) -> Scalar {
    Scalar { bits: x.to_bits() }
}

fn f(x: Scalar) -> f64 {
    f64::from_bits(x.bits)
}

fn calc(q: Calc) -> Scalar {
    s(match q {
        Calc::Sin(x) => f(x).sin(),
        Calc::Cos(x) => f(x).cos(),
        Calc::Tan(x) => f(x).tan(),
        Calc::Asin(x) => f(x).asin(),
        Calc::Acos(x) => f(x).acos(),
        Calc::Atan(x) => f(x).atan(),
        Calc::Atan2(y, x) => f(y).atan2(f(x)),
        Calc::Ln(x) => f(x).ln(),
        Calc::Exp(x) => f(x).exp(),
        Calc::Powi(x, n) => f(x).powi(n),
        Calc::Powf(x, y) => f(x).powf(f(y)),
        Calc::Geodesic(a, b) => Geodesic.distance(
            geo::Point::new(f(a.lon), f(a.lat)),
            geo::Point::new(f(b.lon), f(b.lat)),
        ),
    })
}

fn number(v: &Value) -> Option<Scalar> {
    v.as_f64().map(s)
}

fn pair(v: &Value) -> Option<[Scalar; 2]> {
    if v.is_array() {
        Some([number(&v[0]).unwrap(), number(&v[1]).unwrap()])
    } else {
        None
    }
}

fn list(v: &Value) -> Vec<Value> {
    v.as_array().cloned().unwrap_or_default()
}

fn word(v: &Value) -> String {
    v.as_str().unwrap_or_default().to_string()
}

fn waypoint(v: &Value) -> Waypoint {
    Waypoint {
        lon: number(&v["lon"]).unwrap(),
        lat: number(&v["lat"]).unwrap(),
        alt_m: number(&v["alt_m"]).unwrap_or(s(0.0)),
    }
}

fn profile(v: &Value) -> AircraftProfile {
    AircraftProfile {
        aircraft_type: if v["aircraft_type"] == "ROTORCRAFT" {
            AircraftType::Rotorcraft
        } else {
            AircraftType::FixedWing
        },
        cruise_speed_mps: number(&v["cruise_speed_mps"]),
        speed_range_mps: pair(&v["speed_range_mps"]),
        min_turn_radius_m: number(&v["min_turn_radius_m"]),
        max_climb_angle_deg: number(&v["max_climb_angle_deg"]),
        max_bank_deg: number(&v["max_bank_deg"]),
        ceiling_m: number(&v["ceiling_m"]),
    }
}

fn weapon(v: &Value) -> Option<Weapon> {
    if !v.is_object() {
        return None;
    }
    let e = &v["envelope"];
    Some(Weapon {
        weapon_type: match v["weapon_type"].as_str() {
            Some("aam") => WeaponType::Aam,
            Some("agm") => WeaponType::Agm,
            _ => WeaponType::Bomb,
        },
        range_km: pair(&v["range_km"]),
        envelope: if e.is_object() {
            Some(LaunchEnvelope {
                heading_deg: pair(&e["heading_deg"]),
                alt_m: pair(&e["alt_m"]),
                speed_mps: pair(&e["speed_mps"]),
            })
        } else {
            None
        },
    })
}

fn zone(v: &Value) -> Zone {
    let g = &v["geometry"];
    Zone {
        id: word(&v["id"]),
        zone_type: ZoneType::default(),
        shape: if v["shape"] == "circle" {
            ZoneShape::Circle {
                center: pair(&g["center"]).unwrap(),
                radius_km: number(&g["radius_km"]).unwrap(),
            }
        } else {
            ZoneShape::Polygon {
                vertices: list(&g["vertices"]).iter().map(|p| pair(p).unwrap()).collect(),
            }
        },
        alt_min_m: number(&v["alt_min_m"]),
        alt_max_m: number(&v["alt_max_m"]),
    }
}

fn zones(v: &Value) -> Vec<Zone> {
    list(v).iter().map(zone).collect()
}

fn radar(v: &Value) -> Radar {
    Radar {
        id: word(&v["id"]),
        lon: number(&v["lon"]).unwrap(),
        lat: number(&v["lat"]).unwrap(),
        radius_km: number(&v["radius_km"]).unwrap(),
        alt_m: number(&v["alt_m"]).unwrap_or(default_antenna_m()),
        suppression_post_range_km: number(&v["suppression_post_range_km"]),
        suppression_factor: number(&v["suppression_factor"]),
    }
}

fn no_override() -> ParamsOverride {
    ParamsOverride {
        radar_inflation: None,
        detection_curve: None,
        p_cross: None,
        suppression_delta: None,
        radar_cost_coef: None,
        los_mask_coef: None,
    }
}

fn num(x: f64) -> Scalar {
    s(x)
}

fn read(text: &str) -> Input {
    let v: Value = serde_json::from_str(text).unwrap();
    let mut input = Input {
        aircraft: list(&v["aircraft"])
            .iter()
            .map(|a| AircraftInput {
                id: word(&a["id"]),
                profile: profile(&a["profile"]),
                start: waypoint(&a["start"]),
                target: waypoint(&a["target"]),
                mid_waypoints: list(&a["mid_waypoints"]).iter().map(waypoint).collect(),
                weapon: weapon(&a["weapon"]),
            })
            .collect(),
        red_forces: RedForces {
            radars: list(&v["red_forces"]["radars"]).iter().map(radar).collect(),
        },
        no_fly_zones: zones(&v["no_fly_zones"]),
        restricted_zones: zones(&v["restricted_zones"]),
        obstacles: zones(&v["obstacles"]),
        terrain: TerrainConfig::default(),
        parameters: no_override(),
    };
    input.assign_zone_types();
    input
}

fn refused(input: &Input, reason: InputInvalidReason) -> bool {
    match validate(input, &calc) {
        Err(AppError::InputInvalid(r)) => r == reason,
        _ => false,
    }
}

fn accepted(input: &Input) -> bool {
    validate(input, &calc).is_ok()
}

const MIN_JSON: &str = r#"{
    "aircraft": [
        {"id": "a1",
         "start": {"lon": 116.30, "lat": 39.90, "alt_m": 500},
         "target": {"lon": 117.10, "lat": 40.20, "alt_m": 1000}}
    ]
}"#;

#[test]
fn parse_minimal_input() {
    let input = read(MIN_JSON);
    assert_eq!(input.aircraft.len(), 1);
    assert_eq!(f(input.aircraft[0].start.lon), 116.30);
    assert!(accepted(&input));
}

#[test]
fn aircraft_empty_missing() {
    let s = r#"{"aircraft":[]}"#;
    let input = read(s);
    assert!(refused(&input, InputInvalidReason::MissingAircraft));
}

#[test]
fn degenerate_a_equals_b_rejected() {
    let s = r#"{"aircraft":[{"id":"a1","start":{"lon":116.0,"lat":39.0,"alt_m":0},"target":{"lon":116.0,"lat":39.0,"alt_m":0}}]}"#;
    let input = read(s);
    assert!(refused(&input, InputInvalidReason::DegenerateStartEqualsTarget));
}

#[test]
fn target_in_no_fly_rejected() {
    let s = r#"{
        "aircraft":[
            {"id":"a1",
             "start":{"lon":115.0,"lat":39.0,"alt_m":0},
             "target":{"lon":116.5,"lat":39.9,"alt_m":0}}
        ],
        "no_fly_zones":[{"id":"nf1",
            "shape":"circle","geometry":{"center":[116.5,39.9],"radius_km":10},
            "alt_min_m":0,"alt_max_m":10000}]
    }"#;
    let input = read(s);
    assert!(refused(&input, InputInvalidReason::TargetInNoFly));
}

#[test]
fn radar_overlap_no_fly_rejected() {
    let s = r#"{
        "aircraft":[
            {"id":"a1",
             "start":{"lon":115.0,"lat":39.0,"alt_m":0},
             "target":{"lon":117.0,"lat":40.0,"alt_m":0}}
        ],
        "no_fly_zones":[{"id":"nf1",
            "shape":"polygon","geometry":{"vertices":[[116.0,39.5],[116.5,39.5],[116.5,40.0],[116.0,40.0]]},
            "alt_min_m":0,"alt_max_m":10000}],
        "red_forces":{"radars":[{"id":"r1","lon":116.25,"lat":39.75,"radius_km":100}]}
    }"#;
    let input = read(s);
    assert!(refused(&input, InputInvalidReason::RadarOverlapNoFly));
}

#[test]
fn aircraft_target_outside_no_fly_ok() {
    let s = r#"{
        "aircraft":[
            {"id":"a1",
             "start":{"lon":115.9,"lat":39.8,"alt_m":3000},
             "target":{"lon":114.26335909078654,"lat":41.99101176729852,"alt_m":3000}}
        ],
        "no_fly_zones":[{"id":"nf1",
            "shape":"circle","geometry":{"center":[116.54581607527983,39.90085583451849],"radius_km":50},
            "alt_min_m":0,"alt_max_m":12000}]
    }"#;
    let input = read(s);
    assert!(accepted(&input));
    let s2 = r#"{
        "aircraft":[
            {"id":"a1",
             "start":{"lon":115.9,"lat":39.8,"alt_m":3000},
             "target":{"lon":116.8,"lat":40.3,"alt_m":3000}}
        ],
        "no_fly_zones":[{"id":"nf1",
            "shape":"circle","geometry":{"center":[116.54581607527983,39.90085583451849],"radius_km":50},
            "alt_min_m":0,"alt_max_m":12000}]
    }"#;
    let input2 = read(s2);
    assert!(refused(&input2, InputInvalidReason::TargetInNoFly));
}

#[test]
fn mid_waypoint_in_no_fly_rejected() {
    let s = r#"{
        "aircraft":[
            {"id":"a1",
             "start":{"lon":115.0,"lat":39.0,"alt_m":0},
             "target":{"lon":117.0,"lat":40.0,"alt_m":0},
             "mid_waypoints":[{"lon":116.5,"lat":39.9,"alt_m":0}]}
        ],
        "no_fly_zones":[{"id":"nf1",
            "shape":"circle","geometry":{"center":[116.5,39.9],"radius_km":10},
            "alt_min_m":0,"alt_max_m":10000}]
    }"#;
    let input = read(s);
    assert!(refused(&input, InputInvalidReason::MidWaypointInNoFly));
    let s2 = s.replace("lon\":116.5,\"lat\":39.9", "lon\":116.0,\"lat\":39.0");
    let input2 = read(&s2);
    assert!(accepted(&input2));
}

#[test]
fn no_fly_zone_without_alt_range_ok() {
    let s = r#"{
        "aircraft":[
            {"id":"a1",
             "start":{"lon":115.0,"lat":39.0,"alt_m":0},
             "target":{"lon":117.0,"lat":40.0,"alt_m":0}}
        ],
        "no_fly_zones":[{"id":"nf1",
            "shape":"circle","geometry":{"center":[116.5,39.9],"radius_km":10}}]
    }"#;
    let input = read(s);
    assert_eq!(input.no_fly_zones[0].zone_type, ZoneType::NoFly);
    assert!(input.no_fly_zones[0].alt_min_m.is_none());
    assert!(input.no_fly_zones[0].alt_max_m.is_none());
    assert!(accepted(&input));
}

#[test]
fn restricted_zone_requires_alt_range() {
    let s = r#"{
        "aircraft":[
            {"id":"a1",
             "start":{"lon":115.0,"lat":39.0,"alt_m":0},
             "target":{"lon":117.0,"lat":40.0,"alt_m":0}}
        ],
        "restricted_zones":[{"id":"rz1",
            "shape":"circle","geometry":{"center":[116.5,39.9],"radius_km":10}}]
    }"#;
    let input = read(s);
    assert!(refused(&input, InputInvalidReason::OutOfBounds));
}

#[test]
fn zone_injection_by_array() {
    let s = r#"{
        "aircraft":[
            {"id":"a1",
             "start":{"lon":115.0,"lat":39.0,"alt_m":0},
             "target":{"lon":117.0,"lat":40.0,"alt_m":0}}
        ],
        "no_fly_zones":[{"id":"nf1",
            "shape":"circle","geometry":{"center":[116.5,39.9],"radius_km":10}}],
        "restricted_zones":[{"id":"rz1",
            "shape":"circle","geometry":{"center":[116.5,39.9],"radius_km":10},
            "alt_min_m":0,"alt_max_m":5000}],
        "obstacles":[{"id":"ob1",
            "shape":"circle","geometry":{"center":[116.5,39.9],"radius_km":10}}]
    }"#;
    let input = read(s);
    assert_eq!(input.no_fly_zones[0].zone_type, ZoneType::NoFly);
    assert_eq!(input.restricted_zones[0].zone_type, ZoneType::Restricted);
    assert_eq!(input.obstacles[0].zone_type, ZoneType::Obstacle);
}

#[test]
fn profile_omitted_defaults() {
    let input = read(MIN_JSON);
    assert_eq!(input.aircraft[0].profile.aircraft_type, AircraftType::FixedWing);
    assert!(input.aircraft[0].profile.cruise_speed_mps.is_none());
    assert!(input.aircraft[0].mid_waypoints.is_empty());
    assert!(input.aircraft[0].weapon.is_none());
}

#[test]
fn weapon_in_aircraft_parsed() {
    let s = r#"{
        "aircraft":[
            {"id":"a1",
             "start":{"lon":116.30,"lat":39.90,"alt_m":500},
             "target":{"lon":117.10,"lat":40.20,"alt_m":1000},
             "weapon":{"weapon_type":"agm","range_km":[2.0,80.0],
                       "envelope":{"heading_deg":[0,360],"alt_m":[0,5000],"speed_mps":[50,300]}}}
        ]
    }"#;
    let input = read(s);
    let w = input.aircraft[0].weapon.as_ref().unwrap();
    assert_eq!(w.weapon_type, WeaponType::Agm);
    assert_eq!(w.effective_range_km(), Some([num(2.0), num(80.0)]));
    assert!(w.envelope.is_some());
    assert!(accepted(&input));
}

#[test]
fn weapon_semantics_type_and_default_range() {
    let s = r#"{
        "aircraft":[
            {"id":"a_aam",
             "start":{"lon":115.0,"lat":39.0,"alt_m":0},
             "target":{"lon":117.0,"lat":40.0,"alt_m":0},
             "weapon":{"weapon_type":"aam"}},
            {"id":"a_agm",
             "start":{"lon":115.0,"lat":39.0,"alt_m":0},
             "target":{"lon":117.0,"lat":40.0,"alt_m":0},
             "weapon":{"weapon_type":"agm","range_km":[2.0,80.0]}},
            {"id":"a_bomb",
             "start":{"lon":115.0,"lat":39.0,"alt_m":0},
             "target":{"lon":117.0,"lat":40.0,"alt_m":0},
             "weapon":{"weapon_type":"bomb"}}
        ]
    }"#;
    let input = read(s);
    let ws: Vec<&Weapon> = input
        .aircraft
        .iter()
        .filter_map(|a| a.weapon.as_ref())
        .collect();
    assert_eq!(ws.len(), 3);
    assert_eq!(ws[0].effective_range_km(), Some([num(5.0), num(40.0)]));
    assert_eq!(ws[1].effective_range_km(), Some([num(2.0), num(80.0)]));
    assert_eq!(ws[2].effective_range_km(), Some([num(1.0), num(15.0)]));
    assert!(accepted(&input));
    let bad = s.replace("[2.0,80.0]", "[80.0,2.0]");
    let input2 = read(&bad);
    assert!(refused(&input2, InputInvalidReason::OutOfBounds));
}

#[test]
fn aircraft_multi_input() {
    let s = r#"{
        "aircraft":[
            {"id":"a1",
             "profile":{"aircraft_type":"FIXED_WING","cruise_speed_mps":250,
                        "min_turn_radius_m":12000,"max_bank_deg":30},
             "start":{"lon":116.30,"lat":39.90,"alt_m":500},
             "target":{"lon":117.10,"lat":40.20,"alt_m":1000}},
            {"id":"a2",
             "profile":{"aircraft_type":"ROTORCRAFT","cruise_speed_mps":100},
             "start":{"lon":116.40,"lat":39.80,"alt_m":300},
             "target":{"lon":117.10,"lat":40.20,"alt_m":1000}}
        ]
    }"#;
    let input = read(s);
    assert_eq!(input.aircraft.len(), 2);
    assert!(accepted(&input));
}

#[test]
fn duplicate_aircraft_id_rejected() {
    let s = r#"{
        "aircraft":[
            {"id":"a1","profile":{"aircraft_type":"FIXED_WING"},
             "start":{"lon":116.3,"lat":39.9,"alt_m":500},
             "target":{"lon":117.1,"lat":40.2,"alt_m":1000}},
            {"id":"a1","profile":{"aircraft_type":"FIXED_WING"},
             "start":{"lon":116.4,"lat":39.8,"alt_m":500},
             "target":{"lon":117.1,"lat":40.2,"alt_m":1000}}
        ]
    }"#;
    let input = read(s);
    assert!(refused(&input, InputInvalidReason::VehicleParamsInconsistent));
}

#[test]
fn a6_physical_self_consistency_relaxed() {
    let r_min = f(DefaultParams::physical_turn_radius_m(num(250.0), num(30.0), &calc));
    assert!((r_min - 11_045.0).abs() < 10.0, "r_min={r_min}");
    let s = r#"{
        "aircraft":[
            {"id":"a1","profile":{"aircraft_type":"FIXED_WING","cruise_speed_mps":250,
                        "max_bank_deg":30,"min_turn_radius_m":5000},
             "start":{"lon":116.3,"lat":39.9,"alt_m":500},
             "target":{"lon":117.1,"lat":40.2,"alt_m":1000}}
        ]
    }"#;
    let input = read(s);
    assert!(accepted(&input));

    let bad = r#"{
        "aircraft":[
            {"id":"a1","profile":{"aircraft_type":"FIXED_WING","cruise_speed_mps":250,
                        "max_bank_deg":30,"min_turn_radius_m":0},
             "start":{"lon":116.3,"lat":39.9,"alt_m":500},
             "target":{"lon":117.1,"lat":40.2,"alt_m":1000}}
        ]
    }"#;
    let bad_input = read(bad);
    assert!(refused(&bad_input, InputInvalidReason::VehicleParamsInconsistent));
    let ok_rotor = r#"{
        "aircraft":[
            {"id":"a1","profile":{"aircraft_type":"ROTORCRAFT","cruise_speed_mps":60,
                        "max_bank_deg":30,"min_turn_radius_m":0},
             "start":{"lon":116.3,"lat":39.9,"alt_m":500},
             "target":{"lon":117.1,"lat":40.2,"alt_m":1000}}
        ]
    }"#;
    let rotor_input = read(ok_rotor);
    assert!(accepted(&rotor_input));
}

fn polygon(points: &[[f64; 2]]) -> Vec<[Scalar; 2]> {
    points.iter().map(|p| [s(p[0]), s(p[1])]).collect()
}

fn clearance(lon1: f64, lat1: f64, lon2: f64, lat2: f64, z: &Zone) -> f64 {
    f(zone_segment_clearance_km(s(lon1), s(lat1), s(lon2), s(lat2), z, &calc))
}

#[test]
fn zone_segment_clearance_km_basic() {
    let poly = Zone {
        id: "p".into(),
        zone_type: ZoneType::NoFly,
        shape: ZoneShape::Polygon {
            vertices: polygon(&[[116.0, 39.5], [116.5, 39.5], [116.5, 40.0], [116.0, 40.0]]),
        },
        alt_min_m: Some(s(0.0)),
        alt_max_m: Some(s(10000.0)),
    };
    let c = clearance(116.2, 39.6, 116.3, 39.9, &poly);
    assert_eq!(c, 0.0, "through the inside, got {c}");
    let c = clearance(116.1, 40.1, 116.4, 40.1, &poly);
    assert!((c - 11.1).abs() < 1.0, "beside an edge, got {c}");
    let circ = Zone {
        id: "c".into(),
        zone_type: ZoneType::NoFly,
        shape: ZoneShape::Circle { center: [s(116.25), s(39.75)], radius_km: s(10.0) },
        alt_min_m: Some(s(0.0)),
        alt_max_m: Some(s(10000.0)),
    };
    let c = clearance(116.25, 39.70, 116.25, 39.80, &circ);
    assert!(c < 0.01, "through the centre, got {c}");
    let c = clearance(116.25, 39.30, 116.25, 39.40, &circ);
    assert!((c - 28.85).abs() < 1.5, "beside the circle, got {c}");
}

#[test]
fn zone_contains_at_msl_band() {
    let z = Zone {
        id: "z1".into(),
        zone_type: ZoneType::Restricted,
        shape: ZoneShape::Circle { center: [s(115.0), s(39.0)], radius_km: s(10.0) },
        alt_min_m: Some(s(0.0)),
        alt_max_m: Some(s(2000.0)),
    };
    let p = Geo::new(s(115.0), s(39.0)).unwrap();
    assert!(zone_contains_at(&z, &p, s(500.0), &calc));
    assert!(zone_contains_at(&z, &p, s(2000.0), &calc));
    assert!(!zone_contains_at(&z, &p, s(3000.0), &calc));
    let q = Geo::new(s(116.5), s(39.0)).unwrap();
    assert!(!zone_contains_at(&z, &q, s(500.0), &calc));
}

#[test]
fn walls_forbid_every_height() {
    for (zone_type, above) in
        [(ZoneType::NoFly, true), (ZoneType::Obstacle, true), (ZoneType::Restricted, false)]
    {
        let z = Zone {
            id: "z".to_string(),
            zone_type,
            shape: ZoneShape::Circle { center: [s(115.0), s(39.0)], radius_km: s(10.0) },
            alt_min_m: Some(s(0.0)),
            alt_max_m: Some(s(2000.0)),
        };
        let p = Geo { lon: s(115.0), lat: s(39.0) };
        assert!(zone_contains_at(&z, &p, s(1000.0), &calc));
        assert_eq!(zone_contains_at(&z, &p, s(3000.0), &calc), above);
    }
}

#[test]
fn point_in_polygon_basic() {
    let poly = polygon(&[[116.0, 39.5], [116.5, 39.5], [116.5, 40.0], [116.0, 40.0]]);
    let inside = Geo::new(s(116.25), s(39.75)).unwrap();
    let outside = Geo::new(s(117.0), s(41.0)).unwrap();
    assert!(point_in_polygon(&inside, &poly));
    assert!(!point_in_polygon(&outside, &poly));
}

#[test]
fn default_params_merge() {
    let d = DefaultParams::default();
    let o = ParamsOverride { radar_inflation: Some(s(1.5)), ..no_override() };
    let m = d.merge(&o);
    assert_eq!(f(m.radar_inflation), 1.5);
    assert_eq!(f(m.los_mask_coef), 0.08);
}

#[test]
fn invalid_params_fall_back_to_defaults() {
    let d = DefaultParams::default();
    let o = ParamsOverride {
        radar_inflation: Some(s(-3.0)),
        p_cross: Some(s(5.0)),
        suppression_delta: Some(s(2.0)),
        detection_curve: Some("weird".into()),
        los_mask_coef: Some(s(-0.5)),
        ..no_override()
    };
    let m = d.merge(&o);
    assert_eq!(m.radar_inflation, d.radar_inflation);
    assert_eq!(m.p_cross, d.p_cross);
    assert_eq!(m.suppression_delta, d.suppression_delta);
    assert_eq!(m.detection_curve, DetectionCurve::Swerling1);
    assert_eq!(m.los_mask_coef, d.los_mask_coef);
}

#[test]
fn invalid_detection_curve_parsed_case_insensitive() {
    let d = DefaultParams::default();
    let o = ParamsOverride { detection_curve: Some("LINEAR".into()), ..no_override() };
    assert_eq!(d.merge(&o).detection_curve, DetectionCurve::Linear);
    let o2 = ParamsOverride { detection_curve: Some("linear".into()), ..no_override() };
    assert_eq!(d.merge(&o2).detection_curve, DetectionCurve::Linear);
}

#[test]
fn valid_overrides_are_taken() {
    let d = DefaultParams::default();
    let o = ParamsOverride {
        radar_inflation: Some(s(1.25)),
        detection_curve: Some("Exponential".into()),
        p_cross: Some(s(0.4)),
        suppression_delta: Some(s(0.5)),
        radar_cost_coef: Some(s(7.0)),
        los_mask_coef: Some(s(0.2)),
    };
    let m = d.merge(&o);
    assert_eq!(f(m.radar_inflation), 1.25);
    assert_eq!(m.detection_curve, DetectionCurve::Exponential);
    assert_eq!(f(m.p_cross), 0.4);
    assert_eq!(f(m.suppression_delta), 0.5);
    assert_eq!(f(m.radar_cost_coef), 7.0);
    assert_eq!(f(m.los_mask_coef), 0.2);
    // What no override names stays.
    assert_eq!(m.base_p, d.base_p);
    assert_eq!(m.default_max_bank_deg, d.default_max_bank_deg);
}

#[test]
fn weapons_have_their_usual_range() {
    let range = |t: WeaponType| {
        let r = t.default_range_km();
        (f(r[0]), f(r[1]))
    };
    assert_eq!(range(WeaponType::Aam), (5.0, 40.0));
    assert_eq!(range(WeaponType::Agm), (3.0, 120.0));
    assert_eq!(range(WeaponType::Bomb), (1.0, 15.0));
}

#[test]
fn defaults_of_a_request() {
    assert_eq!(f(default_antenna_m()), 10.0);
    assert_eq!(ZoneType::default(), ZoneType::NoFly);
    assert_eq!(TerrainConfig::default().source, TerrainSourceType::Flat);
    assert!(TerrainConfig::default().path.is_none());
    assert_eq!(DetectionCurve::default(), DetectionCurve::Swerling1);
}

#[test]
fn only_restricted_zones_are_no_walls() {
    let make = |t: ZoneType| Zone {
        id: "z".into(),
        zone_type: t,
        shape: ZoneShape::Circle { center: [s(115.0), s(39.0)], radius_km: s(10.0) },
        alt_min_m: Some(s(1000.0)),
        alt_max_m: Some(s(2000.0)),
    };
    assert!(make(ZoneType::NoFly).is_wall());
    assert!(make(ZoneType::Obstacle).is_wall());
    let r = make(ZoneType::Restricted);
    assert!(!r.is_wall());
    assert!(restricted_blocks_alt(&r, s(1000.0)));
    assert!(restricted_blocks_alt(&r, s(2000.0)));
    assert!(!restricted_blocks_alt(&r, s(999.9)));
    assert!(!restricted_blocks_alt(&r, s(2000.1)));
    assert!(!restricted_blocks_alt(&make(ZoneType::NoFly), s(1500.0)));
}

#[test]
fn illegal_coordinates_are_refused() {
    let text = r#"{"aircraft":[{"id":"a1","start":{"lon":216.0,"lat":39.0,"alt_m":0},"target":{"lon":117.0,"lat":39.0,"alt_m":0}}]}"#;
    assert!(refused(&read(text), InputInvalidReason::IllegalCoordinate));
}

#[test]
fn answers_start_blank() {
    let ok = Output::success(12);
    assert_eq!(ok.status, "success");
    assert!(ok.error.is_none());
    assert_eq!(ok.elapsed_ms, Some(12));
    assert!(ok.aircraft.is_empty() && ok.stats.degradations.is_empty());
    let body = ErrorBody::input_invalid(InputInvalidReason::OutOfBounds, "too fast");
    let bad = Output::failure("input_invalid", body, 3);
    assert_eq!(bad.status, "input_invalid");
    assert_eq!(bad.error.unwrap().code, "out_of_bounds");
    assert_eq!(bad.elapsed_ms, Some(3));
    assert_eq!(f(bad.stats.fmm_ms), 0.0);
}
