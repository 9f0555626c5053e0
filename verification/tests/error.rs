use aircraft_router_planner::error::{AppError, ErrorBody, InputInvalidReason};

#[test]
fn reason_display_snake_case() {
    assert_eq!(
        InputInvalidReason::DegenerateStartEqualsTarget.to_string(),
        "degenerate_start_equals_target"
    );
}

#[test]
fn error_body_input_invalid_code() {
    let b = ErrorBody::input_invalid(InputInvalidReason::TargetInNoFly, "B in no-fly");
    assert_eq!(b.code, "target_in_no_fly");
    assert_eq!(b.message, "B in no-fly");
}

#[test]
fn error_code_can_be_replaced() {
    let b = ErrorBody::input_invalid(InputInvalidReason::OutOfBounds, "speed").code("other");
    assert_eq!(b.code, "other");
    assert_eq!(b.message, "speed");
}

#[test]
fn every_error_has_its_code_and_words() {
    let cases = vec![
        (AppError::Io("gone".to_string()), "internal_error", "io error: gone"),
        (AppError::Json("eof".to_string()), "internal_error", "json error: eof"),
        (
            AppError::InputInvalid(InputInvalidReason::MissingAircraft),
            "missing_aircraft",
            "input invalid: missing_aircraft",
        ),
        (AppError::NoSolution("walled in".to_string()), "no_solution", "no solution: walled in"),
        (
            AppError::DegradedTimeout("3000 ms".to_string()),
            "degraded_timeout",
            "degraded timeout: 3000 ms",
        ),
        (AppError::Data("hole".to_string()), "data_error", "data error: hole"),
        (AppError::Internal("bug".to_string()), "internal_error", "internal error: bug"),
    ];
    for (error, code, message) in cases {
        let body = ErrorBody::from_error(&error);
        assert_eq!(body.code, code);
        assert_eq!(body.message, message);
    }
}
