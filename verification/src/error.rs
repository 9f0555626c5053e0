//! Reasons for refusing an input, and the error part of an answer.

use vstd::prelude::*;

verus! {

/// Why an input was refused; an answer with status `input_invalid` carries one.
#[derive(Clone, Copy, Debug, PartialEq, Eq, Structural)]
pub enum InputInvalidReason {
    /// Text that cannot be read: bad syntax, a wrong type, a missing or an unknown field.
    MalformedJson,
    /// A longitude or latitude that is out of range or not finite.
    IllegalCoordinate,
    /// A number outside the range its field allows.
    OutOfBounds,
    /// Start and target are the same place, or too close together.
    DegenerateStartEqualsTarget,
    /// An end of the flight lies in a forbidden zone.
    TargetInNoFly,
    /// A waypoint on the way lies in a forbidden zone.
    MidWaypointInNoFly,
    /// A radar stands inside a forbidden zone.
    RadarOverlapNoFly,
    /// The terrain still has holes after loading.
    TerrainHolesRemain,
    /// The parameters of an aircraft contradict each other.
    VehicleParamsInconsistent,
    /// There is no aircraft to plan for.
    MissingAircraft,
}

impl InputInvalidReason {
    /// The code that answers carry.
    pub open spec fn code(self) -> Seq<char> {
        match self {
            InputInvalidReason::MalformedJson => "malformed_json"@,
            InputInvalidReason::IllegalCoordinate => "illegal_coordinate"@,
            InputInvalidReason::OutOfBounds => "out_of_bounds"@,
            InputInvalidReason::DegenerateStartEqualsTarget => "degenerate_start_equals_target"@,
            InputInvalidReason::TargetInNoFly => "target_in_no_fly"@,
            InputInvalidReason::MidWaypointInNoFly => "mid_waypoint_in_no_fly"@,
            InputInvalidReason::RadarOverlapNoFly => "radar_overlap_no_fly"@,
            InputInvalidReason::TerrainHolesRemain => "terrain_holes_remain"@,
            InputInvalidReason::VehicleParamsInconsistent => "vehicle_params_inconsistent"@,
            InputInvalidReason::MissingAircraft => "missing_aircraft"@,
        }
    }

    pub fn as_str(&self) -> (s: &'static str)
        ensures
            s@ == self.code(),
    {
        match self {
            InputInvalidReason::MalformedJson => "malformed_json",
            InputInvalidReason::IllegalCoordinate => "illegal_coordinate",
            InputInvalidReason::OutOfBounds => "out_of_bounds",
            InputInvalidReason::DegenerateStartEqualsTarget => "degenerate_start_equals_target",
            InputInvalidReason::TargetInNoFly => "target_in_no_fly",
            InputInvalidReason::MidWaypointInNoFly => "mid_waypoint_in_no_fly",
            InputInvalidReason::RadarOverlapNoFly => "radar_overlap_no_fly",
            InputInvalidReason::TerrainHolesRemain => "terrain_holes_remain",
            InputInvalidReason::VehicleParamsInconsistent => "vehicle_params_inconsistent",
            InputInvalidReason::MissingAircraft => "missing_aircraft",
        }
    }

    pub fn to_string(&self) -> (s: String)
        ensures
            s@ == self.code(),
    {
        self.as_str().to_owned()
    }
}

/// Two reasons never share a code, so the code tells the reason.
pub proof fn law_reason_codes_distinct(a: InputInvalidReason, b: InputInvalidReason)
    requires
        a.code() == b.code(),
    ensures
        a == b,
{
    reveal_strlit("malformed_json");
    reveal_strlit("illegal_coordinate");
    reveal_strlit("out_of_bounds");
    reveal_strlit("degenerate_start_equals_target");
    reveal_strlit("target_in_no_fly");
    reveal_strlit("mid_waypoint_in_no_fly");
    reveal_strlit("radar_overlap_no_fly");
    reveal_strlit("terrain_holes_remain");
    reveal_strlit("vehicle_params_inconsistent");
    reveal_strlit("missing_aircraft");
    assert("radar_overlap_no_fly"@[0] == 'r' && "terrain_holes_remain"@[0] == 't');
    assert("target_in_no_fly"@[0] == 't' && "missing_aircraft"@[0] == 'm');
    assert("malformed_json"@.len() == 14);
    assert("illegal_coordinate"@.len() == 18);
    assert("out_of_bounds"@.len() == 13);
    assert("degenerate_start_equals_target"@.len() == 30);
    assert("target_in_no_fly"@.len() == 16);
    assert("mid_waypoint_in_no_fly"@.len() == 22);
    assert("radar_overlap_no_fly"@.len() == 20);
    assert("terrain_holes_remain"@.len() == 20);
    assert("vehicle_params_inconsistent"@.len() == 27);
    assert("missing_aircraft"@.len() == 16);
    assert(a.code().len() == b.code().len());
    assert(a.code()[0] == b.code()[0]);
}

/// What can go wrong between reading an input and answering it.
pub enum AppError {
    /// Reading or writing failed; holds the message of the system.
    Io(String),
    /// The text could not be parsed; holds the message of the parser.
    Json(String),
    InputInvalid(InputInvalidReason),
    NoSolution(String),
    DegradedTimeout(String),
    Data(String),
    Internal(String),
}

impl AppError {
    /// The words put before the detail of an error.
    pub open spec fn prefix(self) -> Seq<char> {
        match self {
            AppError::Io(_) => "io error: "@,
            AppError::Json(_) => "json error: "@,
            AppError::InputInvalid(_) => "input invalid: "@,
            AppError::NoSolution(_) => "no solution: "@,
            AppError::DegradedTimeout(_) => "degraded timeout: "@,
            AppError::Data(_) => "data error: "@,
            AppError::Internal(_) => "internal error: "@,
        }
    }

    /// The detail of an error: its own words, or the code of the reason.
    pub open spec fn detail(self) -> Seq<char> {
        match self {
            AppError::Io(s) => s@,
            AppError::Json(s) => s@,
            AppError::InputInvalid(r) => r.code(),
            AppError::NoSolution(s) => s@,
            AppError::DegradedTimeout(s) => s@,
            AppError::Data(s) => s@,
            AppError::Internal(s) => s@,
        }
    }

    /// The code an answer carries for this error.
    pub open spec fn answer_code(self) -> Seq<char> {
        match self {
            AppError::InputInvalid(r) => r.code(),
            AppError::NoSolution(_) => "no_solution"@,
            AppError::DegradedTimeout(_) => "degraded_timeout"@,
            AppError::Data(_) => "data_error"@,
            AppError::Io(_) | AppError::Json(_) | AppError::Internal(_) => "internal_error"@,
        }
    }

    /// The error in words.
    pub fn to_string(&self) -> (s: String)
        ensures
            s@ == self.prefix() + self.detail(),
    {
        let (prefix, detail): (&str, &str) = match self {
            AppError::Io(s) => ("io error: ", s.as_str()),
            AppError::Json(s) => ("json error: ", s.as_str()),
            AppError::InputInvalid(r) => ("input invalid: ", r.as_str()),
            AppError::NoSolution(s) => ("no solution: ", s.as_str()),
            AppError::DegradedTimeout(s) => ("degraded timeout: ", s.as_str()),
            AppError::Data(s) => ("data error: ", s.as_str()),
            AppError::Internal(s) => ("internal error: ", s.as_str()),
        };
        let mut out: String = prefix.to_owned();
        out.append(detail);
        out
    }
}

/// The error part of an answer.
#[derive(Debug)]
pub struct ErrorBody {
    pub code: String,
    pub message: String,
}

impl ErrorBody {
    pub fn input_invalid(reason: InputInvalidReason, message: &str) -> (r: ErrorBody)
        ensures
            r.code@ == reason.code(),
            r.message@ == message@,
    {
        ErrorBody { code: reason.to_string(), message: message.to_owned() }
    }

    /// The same message under another code.
    pub fn code(self, code: &str) -> (r: ErrorBody)
        ensures
            r.code@ == code@,
            r.message == self.message,
    {
        ErrorBody { code: code.to_owned(), message: self.message }
    }

    /// The error part that answers `error`.
    pub fn from_error(error: &AppError) -> (r: ErrorBody)
        ensures
            r.code@ == error.answer_code(),
            r.message@ == error.prefix() + error.detail(),
    {
        let message: String = error.to_string();
        match error {
            AppError::InputInvalid(r) => ErrorBody::input_invalid(*r, message.as_str()),
            AppError::NoSolution(_) => ErrorBody { code: "no_solution".to_owned(), message },
            AppError::DegradedTimeout(_) => ErrorBody {
                code: "degraded_timeout".to_owned(),
                message,
            },
            AppError::Data(_) => ErrorBody { code: "data_error".to_owned(), message },
            AppError::Io(_) | AppError::Json(_) | AppError::Internal(_) => ErrorBody {
                code: "internal_error".to_owned(),
                message,
            },
        }
    }
}

} // verus!
