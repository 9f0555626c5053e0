//! Answering a request.

use crate::config::{AircraftOutput, Output, PathPoint, Stats};
use crate::error::{AppError, ErrorBody, InputInvalidReason};
use crate::path;
use crate::plan::VehiclePlan;
use crate::scalar::Scalar;
use vstd::prelude::*;

verus! {

impl AppError {
    /// The status under which an error is answered; none where there is no answer
    /// at all and the program fails.
    pub open spec fn status(self) -> Option<Seq<char>> {
        match self {
            AppError::NoSolution(_) => Some("no_solution"@),
            AppError::DegradedTimeout(_) => Some("degraded_timeout"@),
            AppError::InputInvalid(_) | AppError::Json(_) => Some("input_invalid"@),
            AppError::Io(_) | AppError::Data(_) | AppError::Internal(_) => None,
        }
    }

    pub fn answer_status(&self) -> (r: Option<&'static str>)
        ensures
            r is Some <==> self.status() is Some,
            r is Some ==> r->0@ == self.status()->0,
    {
        match self {
            AppError::NoSolution(_) => Some("no_solution"),
            AppError::DegradedTimeout(_) => Some("degraded_timeout"),
            AppError::InputInvalid(_) | AppError::Json(_) => Some("input_invalid"),
            AppError::Io(_) | AppError::Data(_) | AppError::Internal(_) => None,
        }
    }
}

/// Answers a request that cannot be read.
pub fn answer_malformed(elapsed_ms: u64) -> (r: Output)
    ensures
        r.status@ == "input_invalid"@,
        r.error is Some,
        r.error->0.code@ == InputInvalidReason::MalformedJson.code(),
        r.error->0.message@ == "malformed JSON input"@,
        r.elapsed_ms == Some(elapsed_ms),
        r.blank(),
{
    Output::failure(
        "input_invalid",
        ErrorBody::input_invalid(InputInvalidReason::MalformedJson, "malformed JSON input"),
        elapsed_ms,
    )
}

/// Answers a request that failed; nothing where the program itself fails.
pub fn answer_failed(error: &AppError, elapsed_ms: u64) -> (r: Option<Output>)
    ensures
        r is Some <==> error.status() is Some,
        r is Some ==> {
            &&& r->0.status@ == error.status()->0
            &&& r->0.error is Some
            &&& r->0.error->0.code@ == error.answer_code()
            &&& r->0.error->0.message@ == error.prefix() + error.detail()
            &&& r->0.elapsed_ms == Some(elapsed_ms)
            &&& r->0.blank()
        },
{
    match error.answer_status() {
        Some(status) => Some(Output::failure(status, ErrorBody::from_error(error), elapsed_ms)),
        None => None,
    }
}

/// A point of a route as it is answered: longitude, latitude and height.
pub open spec fn point_of(p: path::PathPoint) -> PathPoint {
    PathPoint { x: p.lon, y: p.lat, alt_m: p.alt_m }
}

/// The part of an answer on one aircraft, with its warnings in words.
pub fn answer_aircraft(id: &str, plan: &VehiclePlan, warnings: Vec<String>) -> (r: AircraftOutput)
    ensures
        r.id@ == id@,
        r.status@ == if plan.planned {
            "planned"@
        } else {
            "no_solution"@
        },
        r.path@ == plan.path@.map_values(|p: path::PathPoint| point_of(p)),
        r.distance_m == plan.distance_m,
        r.warnings == warnings,
{
    let mut points: Vec<PathPoint> = Vec::new();
    let mut k: usize = 0;
    while k < plan.path.len()
        invariant
            k <= plan.path@.len(),
            points@.len() == k,
            forall|i: int| 0 <= i < k ==> #[trigger] points@[i] == point_of(plan.path@[i]),
        decreases plan.path.len() - k,
    {
        let p: &path::PathPoint = &plan.path[k];
        points.push(PathPoint { x: p.lon, y: p.lat, alt_m: p.alt_m });
        k = k + 1;
    }
    assert(points@ =~= plan.path@.map_values(|p: path::PathPoint| point_of(p)));
    AircraftOutput {
        id: id.to_owned(),
        status: (if plan.planned { "planned" } else { "no_solution" }).to_owned(),
        path: points,
        distance_m: plan.distance_m,
        warnings,
    }
}

/// Answers a request that was planned, with the degradations in words.
pub fn answer_planned(
    aircraft: Vec<AircraftOutput>,
    fmm_ms: Scalar,
    degradations: Vec<String>,
    elapsed_ms: u64,
) -> (r: Output)
    ensures
        r.status@ == "success"@,
        r.error is None,
        r.elapsed_ms == Some(elapsed_ms),
        r.aircraft == aircraft,
        r.stats.fmm_ms == fmm_ms,
        r.stats.los_checks == 0,
        r.stats.degradations == degradations,
{
    Output {
        status: "success".to_owned(),
        error: None,
        elapsed_ms: Some(elapsed_ms),
        aircraft,
        stats: Stats { fmm_ms, los_checks: 0, degradations },
    }
}

/// Every answer tells one of the four states, and tells an error unless it is a
/// success: a failure that is answered is never told as a success.
pub proof fn law_failures_are_told(error: AppError)
    ensures
        error.status() is Some ==> error.status()->0 != "success"@ && (error.status()->0
            == "no_solution"@ || error.status()->0 == "degraded_timeout"@ || error.status()->0
            == "input_invalid"@),
{
    reveal_strlit("success");
    reveal_strlit("no_solution");
    reveal_strlit("degraded_timeout");
    reveal_strlit("input_invalid");
    assert("success"@.len() == 7);
    assert("no_solution"@.len() == 11);
    assert("degraded_timeout"@.len() == 16);
    assert("input_invalid"@.len() == 13);
}

} // verus!
