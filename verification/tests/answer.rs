use aircraft_router_planner::answer::{
    answer_aircraft, answer_failed, answer_malformed, answer_planned,
};
use aircraft_router_planner::coord::Geo;
use aircraft_router_planner::error::{AppError, InputInvalidReason};
use aircraft_router_planner::help::{
    build_request_body, build_return_body, col_width, help_text, render_tree, ParamNode,
};
use aircraft_router_planner::path::PathPoint;
use aircraft_router_planner::plan::VehiclePlan;
use aircraft_router_planner::scalar::Scalar;
use aircraft_router_planner::target::{read_target_ref, resolve_target_ref, TargetText};

fn s(x: f64) -> Scalar {
    Scalar { bits: x.to_bits() }
}

fn f(x: Scalar) -> f64 {
    f64::from_bits(x.bits)
}

#[test]
fn unreadable_requests_are_answered() {
    let out = answer_malformed(7);
    assert_eq!(out.status, "input_invalid");
    let error = out.error.unwrap();
    assert_eq!(error.code, "malformed_json");
    assert_eq!(error.message, "malformed JSON input");
    assert_eq!(out.elapsed_ms, Some(7));
}

#[test]
fn failures_are_answered_by_their_state() {
    let status = |e: AppError| answer_failed(&e, 1).map(|o| o.status);
    let told = |t: &str| Some(t.to_string());
    assert_eq!(status(AppError::NoSolution("x".into())), told("no_solution"));
    assert_eq!(status(AppError::DegradedTimeout("x".into())), told("degraded_timeout"));
    let bounds = AppError::InputInvalid(InputInvalidReason::OutOfBounds);
    assert_eq!(status(bounds), told("input_invalid"));
    assert_eq!(status(AppError::Json("x".into())), told("input_invalid"));
    assert_eq!(status(AppError::Io("x".into())), None);
    assert_eq!(status(AppError::Data("x".into())), None);
    assert_eq!(status(AppError::Internal("x".into())), None);
    let out = answer_failed(&AppError::NoSolution("walled in".into()), 5).unwrap();
    let error = out.error.unwrap();
    assert_eq!(error.code, "no_solution");
    assert_eq!(error.message, "no solution: walled in");
    assert_eq!(out.elapsed_ms, Some(5));
    assert!(out.aircraft.is_empty());
}

#[test]
fn plans_are_answered_point_by_point() {
    let plan = VehiclePlan {
        planned: true,
        path: vec![
            PathPoint::new(s(115.0), s(39.0), s(3000.0)),
            PathPoint::new(s(116.5), s(39.9), s(3100.0)),
        ],
        distance_m: s(164_000.0),
        warnings: vec![],
    };
    let one = answer_aircraft("a1", &plan, vec!["slow".to_string()]);
    assert_eq!(one.id, "a1");
    assert_eq!(one.status, "planned");
    assert_eq!(one.path.len(), 2);
    let p = one.path[1];
    assert_eq!((f(p.x), f(p.y), f(p.alt_m)), (116.5, 39.9, 3100.0));
    assert_eq!(f(one.distance_m), 164_000.0);
    assert_eq!(one.warnings, vec!["slow"]);
    let none = VehiclePlan { planned: false, path: vec![], distance_m: s(0.0), warnings: vec![] };
    assert_eq!(answer_aircraft("a2", &none, vec![]).status, "no_solution");
    let out = answer_planned(vec![one], s(12.5), vec!["degraded".to_string()], 40);
    assert_eq!(out.status, "success");
    assert!(out.error.is_none());
    assert_eq!(out.elapsed_ms, Some(40));
    assert_eq!(out.aircraft.len(), 1);
    assert_eq!(f(out.stats.fmm_ms), 12.5);
    assert_eq!(out.stats.los_checks, 0);
    assert_eq!(out.stats.degradations, vec!["degraded"]);
}

fn place(text: &str) -> Option<(String, String)> {
    match read_target_ref(Some(text)) {
        TargetText::Place(lon, lat) => Some((lon.iter().collect(), lat.iter().collect())),
        _ => None,
    }
}

#[test]
fn targets_are_read_from_their_text() {
    assert!(matches!(read_target_ref(None), TargetText::Mission));
    assert!(matches!(read_target_ref(Some("")), TargetText::Mission));
    assert!(matches!(read_target_ref(Some(" \u{3000}\t")), TargetText::Mission));
    assert!(matches!(read_target_ref(Some(" mission.target\n")), TargetText::Mission));
    assert_eq!(place(" 117.0 , 40.2 "), Some(("117.0".into(), "40.2".into())));
    assert_eq!(place("117.0,40.2,3000"), Some(("117.0".into(), "40.2".into())));
    assert_eq!(place(","), Some((String::new(), String::new())));
    assert!(matches!(read_target_ref(Some("not-a-ref")), TargetText::Unknown));
    assert!(matches!(read_target_ref(Some("1,2,3,4")), TargetText::Unknown));
}

#[test]
fn white_space_is_that_of_the_standard_library() {
    for code in 0..=0x10ffff_u32 {
        if let Some(c) = char::from_u32(code) {
            let text: String = [c, '1', ',', '2'].iter().collect();
            if c == ',' {
                continue;
            }
            let (lon, _) = place(&text).unwrap();
            let wanted = if c.is_whitespace() { "1".to_string() } else { format!("{c}1") };
            assert_eq!(lon, wanted, "U+{code:04X}");
        }
    }
}

#[test]
fn targets_that_are_no_places_are_refused() {
    let home = Geo::new(s(116.5), s(39.9)).unwrap();
    let read = read_target_ref(Some("117.0,40.2"));
    let there = resolve_target_ref(&read, Some(s(117.0)), Some(s(40.2)), &home).ok().unwrap();
    assert_eq!((f(there.lon), f(there.lat)), (117.0, 40.2));
    let refused = |lon: Option<Scalar>, lat: Option<Scalar>| {
        matches!(
            resolve_target_ref(&read, lon, lat, &home),
            Err(AppError::InputInvalid(InputInvalidReason::IllegalCoordinate))
        )
    };
    assert!(refused(None, Some(s(40.2))));
    assert!(refused(Some(s(117.0)), None));
    assert!(refused(Some(s(217.0)), Some(s(40.2))));
    assert!(resolve_target_ref(&TargetText::Unknown, None, None, &home).is_err());
    let same = resolve_target_ref(&TargetText::Mission, None, None, &home).ok().unwrap();
    assert_eq!(same, home);
}

fn leaf(name: &'static str, required: bool) -> ParamNode {
    ParamNode { name, type_label: "f64", required, description: "number", children: vec![] }
}

#[test]
fn fields_are_rendered_in_columns() {
    let tree = vec![
        ParamNode {
            name: "start",
            type_label: "object",
            required: true,
            description: "where",
            children: vec![leaf("lon", true), leaf("altitude", false)],
        },
        leaf("id", false),
    ];
    assert_eq!(col_width(&tree), 5);
    assert_eq!(
        render_tree(&tree, "  "),
        format!(
            "  * start : {:<24} where\n    * lon      : {:<24} number\n      altitude : {:<24} number\n    id    : {:<24} number\n",
            "object", "f64", "f64", "f64"
        )
    );
}

#[test]
fn help_names_the_program_and_its_fields() {
    let page = help_text("arpcli", "1.2.3");
    assert!(page.starts_with("arpcli v1.2.3 - Aircraft Route Planner\n\nUsage: arpcli <command>\n"));
    assert!(page.contains("Usage: arpcli plan --file <file> --out <path>\n"));
    assert!(page.contains(&format!("Request Body:\n{}\n\nReturn:\n", build_request_body())));
    assert!(page.contains(&build_return_body()));
    assert!(page.ends_with("arpcli plan --file task.json --out result.json\n"));
    let request = build_request_body();
    assert!(request.lines().next().unwrap().starts_with("  * aircraft"));
    for field in ["mid_waypoints", "no_fly_zones", "radius_km", "detection_curve", "mask_path"] {
        assert!(request.contains(field), "{field}");
    }
    for field in ["status", "distance_m", "degradations", "elapsed_ms"] {
        assert!(build_return_body().contains(field), "{field}");
    }
}
