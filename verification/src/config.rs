//! The input and the answer of the planner, and the checks made before planning.

use crate::coord::{legal_coordinate, Geo};
use crate::error::{AppError, ErrorBody, InputInvalidReason};
use crate::geometry::Vertex;
use crate::numeric::{frac, number, ratio, whole};
use crate::scalar::Scalar;
use crate::text::{eq_ignoring_case, same_ignoring_case};
use vstd::prelude::*;

verus! {

/// A planning request.
pub struct Input {
    /// The aircraft to plan for; at least one.
    pub aircraft: Vec<AircraftInput>,
    pub red_forces: RedForces,
    pub no_fly_zones: Vec<Zone>,
    pub restricted_zones: Vec<Zone>,
    pub obstacles: Vec<Zone>,
    pub terrain: TerrainConfig,
    pub parameters: ParamsOverride,
}

/// One aircraft with its flight.
pub struct AircraftInput {
    pub id: String,
    pub profile: AircraftProfile,
    pub start: Waypoint,
    pub target: Waypoint,
    /// Points to pass on the way, in order.
    pub mid_waypoints: Vec<Waypoint>,
    /// Given if the aircraft is armed.
    pub weapon: Option<Weapon>,
}

/// Longitude and latitude in degrees, height in metres.
#[derive(Clone, Copy, Debug, PartialEq, Eq, Structural)]
pub struct Waypoint {
    pub lon: Scalar,
    pub lat: Scalar,
    pub alt_m: Scalar,
}

impl Waypoint {
    pub open spec fn legal(self) -> bool {
        legal_coordinate(self.lon, self.lat)
    }

    pub open spec fn place(self) -> Geo {
        Geo { lon: self.lon, lat: self.lat }
    }

    /// The ground position; an illegal coordinate is refused.
    pub fn to_geo(&self) -> (r: Result<Geo, AppError>)
        ensures
            self.legal() ==> r == Ok::<Geo, AppError>(self.place()),
            !self.legal() ==> r == Err::<Geo, AppError>(
                AppError::InputInvalid(InputInvalidReason::IllegalCoordinate),
            ),
    {
        match Geo::new(self.lon, self.lat) {
            Ok(g) => Ok(g),
            Err(_) => Err(AppError::InputInvalid(InputInvalidReason::IllegalCoordinate)),
        }
    }
}

#[derive(Clone, Copy, Debug, PartialEq, Eq, Structural)]
pub enum AircraftType {
    FixedWing,
    Rotorcraft,
}

/// What an aircraft can do; whatever is not given falls back to a default.
#[derive(Clone, Copy, Debug)]
pub struct AircraftProfile {
    pub aircraft_type: AircraftType,
    pub cruise_speed_mps: Option<Scalar>,
    /// Slowest and fastest speed in metres per second.
    pub speed_range_mps: Option<[Scalar; 2]>,
    pub min_turn_radius_m: Option<Scalar>,
    pub max_climb_angle_deg: Option<Scalar>,
    pub max_bank_deg: Option<Scalar>,
    pub ceiling_m: Option<Scalar>,
}

impl Default for AircraftProfile {
    fn default() -> (r: AircraftProfile)
        ensures
            r == (AircraftProfile {
                aircraft_type: AircraftType::FixedWing,
                cruise_speed_mps: None,
                speed_range_mps: None,
                min_turn_radius_m: None,
                max_climb_angle_deg: None,
                max_bank_deg: None,
                ceiling_m: None,
            }),
    {
        AircraftProfile {
            aircraft_type: AircraftType::FixedWing,
            cruise_speed_mps: None,
            speed_range_mps: None,
            min_turn_radius_m: None,
            max_climb_angle_deg: None,
            max_bank_deg: None,
            ceiling_m: None,
        }
    }
}

/// The opposing side.
pub struct RedForces {
    pub radars: Vec<Radar>,
}

pub struct Radar {
    pub id: String,
    pub lon: Scalar,
    pub lat: Scalar,
    /// Detection range in kilometres.
    pub radius_km: Scalar,
    /// Antenna height in metres.
    pub alt_m: Scalar,
    /// Range that is left under suppression, in kilometres.
    pub suppression_post_range_km: Option<Scalar>,
    /// Share of the range lost to suppression.
    pub suppression_factor: Option<Scalar>,
}

/// The antenna height of a radar that gives none, in metres.
pub fn default_antenna_m() -> (r: Scalar)
    ensures
        r == whole(10),
{
    number(10)
}

#[derive(Clone, Copy, Debug, PartialEq, Eq, Structural)]
pub enum ZoneType {
    NoFly,
    Restricted,
    Obstacle,
}

impl Default for ZoneType {
    fn default() -> (r: ZoneType)
        ensures
            r == ZoneType::NoFly,
    {
        ZoneType::NoFly
    }
}

/// Outline of a zone on the ground.
pub enum ZoneShape {
    Circle { center: Vertex, radius_km: Scalar },
    Polygon { vertices: Vec<Vertex> },
}

/// A part of the airspace to keep out of.
pub struct Zone {
    pub id: String,
    /// Set from the list that the zone stands in.
    pub zone_type: ZoneType,
    pub shape: ZoneShape,
    /// Lower and upper end of the heights that a restricted zone forbids.
    pub alt_min_m: Option<Scalar>,
    pub alt_max_m: Option<Scalar>,
}

impl Zone {
    /// Whether the zone forbids every height.
    pub open spec fn wall(self) -> bool {
        self.zone_type == ZoneType::NoFly || self.zone_type == ZoneType::Obstacle
    }

    pub fn is_wall(&self) -> (r: bool)
        ensures
            r == self.wall(),
    {
        match self.zone_type {
            ZoneType::NoFly => true,
            ZoneType::Restricted => false,
            ZoneType::Obstacle => true,
        }
    }
}

#[derive(Clone, Copy, Debug, PartialEq, Eq, Structural)]
pub enum TerrainSourceType {
    /// No data: the ground is a plane at sea level.
    Flat,
    Builtin,
    Path,
}

impl Default for TerrainSourceType {
    fn default() -> (r: TerrainSourceType)
        ensures
            r == TerrainSourceType::Flat,
    {
        TerrainSourceType::Flat
    }
}

/// Where heights of the ground come from.
pub struct TerrainConfig {
    pub source: TerrainSourceType,
    pub path: Option<String>,
    /// Coast mask; a default one is looked for if none is named.
    pub mask_path: Option<String>,
}

impl Default for TerrainConfig {
    fn default() -> (r: TerrainConfig)
        ensures
            r.source == TerrainSourceType::Flat,
            r.path is None,
            r.mask_path is None,
    {
        TerrainConfig { source: TerrainSourceType::Flat, path: None, mask_path: None }
    }
}

#[derive(Clone, Copy, Debug, PartialEq, Eq, Structural)]
pub enum WeaponType {
    /// Air-to-air missile.
    Aam,
    /// Air-to-ground missile.
    Agm,
    /// Guided bomb.
    Bomb,
}

impl WeaponType {
    /// Nearest and farthest range in kilometres of a weapon that gives none.
    pub open spec fn usual_range(self) -> (Scalar, Scalar) {
        match self {
            WeaponType::Aam => (whole(5), whole(40)),
            WeaponType::Agm => (whole(3), whole(120)),
            WeaponType::Bomb => (whole(1), whole(15)),
        }
    }

    pub fn default_range_km(self) -> (r: [Scalar; 2])
        ensures
            (r[0], r[1]) == self.usual_range(),
    {
        match self {
            WeaponType::Aam => [number(5), number(40)],
            WeaponType::Agm => [number(3), number(120)],
            WeaponType::Bomb => [number(1), number(15)],
        }
    }
}

/// A weapon; its presence arms the aircraft.
pub struct Weapon {
    pub weapon_type: WeaponType,
    pub range_km: Option<[Scalar; 2]>,
    pub envelope: Option<LaunchEnvelope>,
}

impl Weapon {
    /// The range given, else the usual one of the type.
    pub fn effective_range_km(&self) -> (r: Option<[Scalar; 2]>)
        ensures
            r is Some,
            self.range_km is Some ==> r == self.range_km,
            self.range_km is None ==> (r->0[0], r->0[1]) == self.weapon_type.usual_range(),
    {
        match self.range_km {
            Some(range) => Some(range),
            None => Some(self.weapon_type.default_range_km()),
        }
    }
}

/// Heading, height and speed windows for a launch.
#[derive(Clone, Copy, Debug)]
pub struct LaunchEnvelope {
    pub heading_deg: Option<[Scalar; 2]>,
    pub alt_m: Option<[Scalar; 2]>,
    pub speed_mps: Option<[Scalar; 2]>,
}

/// Parameters that replace defaults.
pub struct ParamsOverride {
    pub radar_inflation: Option<Scalar>,
    /// Name of a detection curve, in any case of letters.
    pub detection_curve: Option<String>,
    pub p_cross: Option<Scalar>,
    pub suppression_delta: Option<Scalar>,
    pub radar_cost_coef: Option<Scalar>,
    pub los_mask_coef: Option<Scalar>,
}

#[derive(Clone, Copy, Debug, PartialEq, Eq, Structural)]
pub enum DetectionCurve {
    Swerling1,
    Exponential,
    Linear,
}

impl Default for DetectionCurve {
    fn default() -> (r: DetectionCurve)
        ensures
            r == DetectionCurve::Swerling1,
    {
        DetectionCurve::Swerling1
    }
}

/// The parameter table.
#[derive(Clone, Copy, Debug)]
pub struct DefaultParams {
    pub radar_inflation: Scalar,
    pub detection_curve: DetectionCurve,
    pub p_cross: Scalar,
    pub base_p: Scalar,
    pub suppression_delta: Scalar,
    pub radar_cost_coef: Scalar,
    pub los_mask_coef: Scalar,
    pub default_weapon_range_km: [Scalar; 2],
    pub default_max_climb_angle_deg: Scalar,
    pub default_max_bank_deg: Scalar,
    pub default_fixed_wing_turn_radius_m: Scalar,
    pub default_rotorcraft_turn_radius_m: Scalar,
    pub default_fixed_wing_speed_mps: Scalar,
    pub default_rotorcraft_speed_mps: Scalar,
}

impl DefaultParams {
    /// Whether this is the table that holds without overrides.
    pub open spec fn usual(self) -> bool {
        &&& self.radar_inflation == frac(12, 10)
        &&& self.detection_curve == DetectionCurve::Swerling1
        &&& self.p_cross == frac(1, 10)
        &&& self.base_p == frac(9, 10)
        &&& self.suppression_delta == frac(5, 10)
        &&& self.radar_cost_coef == whole(200)
        &&& self.los_mask_coef == frac(8, 100)
        &&& self.default_weapon_range_km[0] == whole(5)
        &&& self.default_weapon_range_km[1] == whole(40)
        &&& self.default_max_climb_angle_deg == whole(15)
        &&& self.default_max_bank_deg == whole(30)
        &&& self.default_fixed_wing_turn_radius_m == whole(5000)
        &&& self.default_rotorcraft_turn_radius_m == whole(0)
        &&& self.default_fixed_wing_speed_mps == whole(250)
        &&& self.default_rotorcraft_speed_mps == whole(100)
    }
}

impl Default for DefaultParams {
    fn default() -> (r: DefaultParams)
        ensures
            r.usual(),
    {
        DefaultParams {
            radar_inflation: ratio(12, 10),
            detection_curve: DetectionCurve::Swerling1,
            p_cross: ratio(1, 10),
            base_p: ratio(9, 10),
            suppression_delta: ratio(5, 10),
            radar_cost_coef: number(200),
            los_mask_coef: ratio(8, 100),
            default_weapon_range_km: [number(5), number(40)],
            default_max_climb_angle_deg: number(15),
            default_max_bank_deg: number(30),
            default_fixed_wing_turn_radius_m: number(5000),
            default_rotorcraft_turn_radius_m: number(0),
            default_fixed_wing_speed_mps: number(250),
            default_rotorcraft_speed_mps: number(100),
        }
    }
}

/// The detection curve of a name, if the name is one.
pub open spec fn named_curve(name: Seq<char>) -> Option<DetectionCurve> {
    if same_ignoring_case(name, "swerling1"@) {
        Some(DetectionCurve::Swerling1)
    } else if same_ignoring_case(name, "exponential"@) {
        Some(DetectionCurve::Exponential)
    } else if same_ignoring_case(name, "linear"@) {
        Some(DetectionCurve::Linear)
    } else {
        None
    }
}

/// The detection curve of a name, in any case of letters.
pub fn parse_curve(name: &str) -> (r: Option<DetectionCurve>)
    ensures
        r == named_curve(name@),
{
    if eq_ignoring_case(name, "swerling1") {
        Some(DetectionCurve::Swerling1)
    } else if eq_ignoring_case(name, "exponential") {
        Some(DetectionCurve::Exponential)
    } else if eq_ignoring_case(name, "linear") {
        Some(DetectionCurve::Linear)
    } else {
        None
    }
}

/// A radar inflation widens: it is finite and above one.
pub open spec fn valid_inflation(v: Scalar) -> bool {
    v.finite() && v > whole(1)
}

/// A share between zero and one, both included.
pub open spec fn valid_share(v: Scalar) -> bool {
    v.finite() && v >= whole(0) && v <= whole(1)
}

/// A share of suppression leaves something: it is below one.
pub open spec fn valid_suppression(v: Scalar) -> bool {
    v.finite() && v >= whole(0) && v < whole(1)
}

/// A cost coefficient is finite and positive.
pub open spec fn valid_coefficient(v: Scalar) -> bool {
    v.finite() && v > whole(0)
}

/// The value given if it is one and is valid, else the fallback.
pub open spec fn given_or(given: Option<Scalar>, valid: spec_fn(Scalar) -> bool, fallback: Scalar) -> Scalar {
    if given is Some && valid(given->0) {
        given->0
    } else {
        fallback
    }
}

impl DefaultParams {
    /// This table with each valid override put in; an invalid one is passed over.
    pub open spec fn merged(self, o: ParamsOverride) -> DefaultParams {
        DefaultParams {
            radar_inflation: given_or(
                o.radar_inflation,
                |v: Scalar| valid_inflation(v),
                self.radar_inflation,
            ),
            p_cross: given_or(o.p_cross, |v: Scalar| valid_share(v), self.p_cross),
            suppression_delta: given_or(
                o.suppression_delta,
                |v: Scalar| valid_suppression(v),
                self.suppression_delta,
            ),
            radar_cost_coef: given_or(
                o.radar_cost_coef,
                |v: Scalar| valid_coefficient(v),
                self.radar_cost_coef,
            ),
            los_mask_coef: given_or(
                o.los_mask_coef,
                |v: Scalar| valid_share(v),
                self.los_mask_coef,
            ),
            detection_curve: if o.detection_curve is Some && named_curve(o.detection_curve->0@) is Some {
                named_curve(o.detection_curve->0@)->0
            } else {
                self.detection_curve
            },
            ..self
        }
    }

    /// Puts the valid overrides in.
    pub fn merge(&self, o: &ParamsOverride) -> (r: DefaultParams)
        ensures
            r == self.merged(*o),
    {
        let mut d: DefaultParams = *self;
        let zero: Scalar = number(0);
        let one: Scalar = number(1);
        if let Some(v) = o.radar_inflation {
            if v.is_finite() && one.lt(&v) {
                d.radar_inflation = v;
            }
        }
        if let Some(v) = o.p_cross {
            if v.is_finite() && zero.le(&v) && v.le(&one) {
                d.p_cross = v;
            }
        }
        if let Some(v) = o.suppression_delta {
            if v.is_finite() && zero.le(&v) && v.lt(&one) {
                d.suppression_delta = v;
            }
        }
        if let Some(v) = o.radar_cost_coef {
            if v.is_finite() && zero.lt(&v) {
                d.radar_cost_coef = v;
            }
        }
        if let Some(v) = o.los_mask_coef {
            if v.is_finite() && zero.le(&v) && v.le(&one) {
                d.los_mask_coef = v;
            }
        }
        if let Some(s) = &o.detection_curve {
            if let Some(curve) = parse_curve(s.as_str()) {
                d.detection_curve = curve;
            }
        }
        d
    }
}

/// Merging the same overrides again changes nothing.
pub proof fn law_merge_idempotent(d: DefaultParams, o: ParamsOverride)
    ensures
        d.merged(o).merged(o) == d.merged(o),
{
}

/// Where no override is valid, the table stays as it is.
pub proof fn law_invalid_overrides_ignored(d: DefaultParams, o: ParamsOverride)
    requires
        o.radar_inflation is Some ==> !valid_inflation(o.radar_inflation->0),
        o.p_cross is Some ==> !valid_share(o.p_cross->0),
        o.suppression_delta is Some ==> !valid_suppression(o.suppression_delta->0),
        o.radar_cost_coef is Some ==> !valid_coefficient(o.radar_cost_coef->0),
        o.los_mask_coef is Some ==> !valid_share(o.los_mask_coef->0),
        o.detection_curve is Some ==> named_curve(o.detection_curve->0@) is None,
    ensures
        d.merged(o) == d,
{
}

/// The planned route of one aircraft, as it is answered.
#[derive(Clone, Copy, Debug, PartialEq, Eq, Structural)]
pub struct PathPoint {
    /// Longitude in degrees.
    pub x: Scalar,
    /// Latitude in degrees.
    pub y: Scalar,
    /// Height above mean sea level in metres.
    pub alt_m: Scalar,
}

pub struct AircraftOutput {
    pub id: String,
    pub status: String,
    pub path: Vec<PathPoint>,
    pub distance_m: Scalar,
    pub warnings: Vec<String>,
}

/// Figures about a run.
pub struct Stats {
    pub fmm_ms: Scalar,
    pub los_checks: u64,
    pub degradations: Vec<String>,
}

impl Default for Stats {
    fn default() -> (r: Stats)
        ensures
            r.fmm_ms == whole(0),
            r.los_checks == 0,
            r.degradations@.len() == 0,
    {
        Stats { fmm_ms: number(0), los_checks: 0, degradations: Vec::new() }
    }
}

/// The answer to a planning request.
pub struct Output {
    /// `success`, `degraded_timeout`, `no_solution` or `input_invalid`.
    pub status: String,
    pub error: Option<ErrorBody>,
    pub elapsed_ms: Option<u64>,
    pub aircraft: Vec<AircraftOutput>,
    pub stats: Stats,
}

impl Output {
    /// Nothing planned and nothing counted yet.
    pub open spec fn blank(self) -> bool {
        &&& self.aircraft@.len() == 0
        &&& self.stats.fmm_ms == whole(0)
        &&& self.stats.los_checks == 0
        &&& self.stats.degradations@.len() == 0
    }

    pub fn success(elapsed_ms: u64) -> (r: Output)
        ensures
            r.status@ == "success"@,
            r.error is None,
            r.elapsed_ms == Some(elapsed_ms),
            r.blank(),
    {
        Output {
            status: "success".to_owned(),
            error: None,
            elapsed_ms: Some(elapsed_ms),
            aircraft: Vec::new(),
            stats: Stats::default(),
        }
    }

    pub fn failure(status: &str, error: ErrorBody, elapsed_ms: u64) -> (r: Output)
        ensures
            r.status@ == status@,
            r.error == Some(error),
            r.elapsed_ms == Some(elapsed_ms),
            r.blank(),
    {
        Output {
            status: status.to_owned(),
            error: Some(error),
            elapsed_ms: Some(elapsed_ms),
            aircraft: Vec::new(),
            stats: Stats::default(),
        }
    }
}

} // verus!
