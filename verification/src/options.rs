//! Options of smoothing, and local plane projections.

use crate::config::{AircraftProfile, AircraftType, DefaultParams};
use crate::geometry::{radians, to_radians};
use crate::numeric::{frac, number, ratio, whole};
use crate::oracle::{ask, image, is_function, Calc};
use crate::scalar::Scalar;
use vstd::prelude::*;

verus! {

/// What smoothing may do, and what a smoothed route has to keep.
#[derive(Clone, Copy, Debug)]
pub struct SmoothOptions {
    pub aircraft_type: AircraftType,
    /// How far a point may lie off the chord that replaces it, in metres.
    pub chord_tol_m: Scalar,
    /// Smallest turning radius in metres.
    pub turn_radius_m: Scalar,
    /// Steepest climb in degrees.
    pub max_climb_deg: Scalar,
    /// Height to keep above the ground, in metres.
    pub clearance_m: Scalar,
    /// Sharpest turn between two legs, in degrees.
    pub max_turn_deg: Scalar,
    /// Samples of a fitted curve.
    pub dubins_sample_n: usize,
    /// Fewest samples of a leg.
    pub verify_seg_samples: usize,
}

impl SmoothOptions {
    /// The options that hold without a profile.
    pub open spec fn usual() -> SmoothOptions {
        SmoothOptions {
            aircraft_type: AircraftType::FixedWing,
            chord_tol_m: whole(100),
            turn_radius_m: whole(5000),
            max_climb_deg: whole(8),
            clearance_m: whole(100),
            max_turn_deg: whole(60),
            dubins_sample_n: 32,
            verify_seg_samples: 8,
        }
    }
}

impl Default for SmoothOptions {
    fn default() -> (r: SmoothOptions)
        ensures
            r == SmoothOptions::usual(),
    {
        SmoothOptions {
            aircraft_type: AircraftType::FixedWing,
            chord_tol_m: number(100),
            turn_radius_m: number(5000),
            max_climb_deg: number(8),
            clearance_m: number(100),
            max_turn_deg: number(60),
            dubins_sample_n: 32,
            verify_seg_samples: 8,
        }
    }
}

/// The value given, else a fallback.
pub open spec fn or_else(given: Option<Scalar>, fallback: Scalar) -> Scalar {
    match given {
        Some(v) => v,
        None => fallback,
    }
}

fn either(given: Option<Scalar>, fallback: Scalar) -> (r: Scalar)
    ensures
        r == or_else(given, fallback),
{
    match given {
        Some(v) => v,
        None => fallback,
    }
}

/// The speed an aircraft is planned at: its cruise speed, else the middle of
/// its range, else the default of its kind.
pub open spec fn planning_speed(profile: AircraftProfile, params: DefaultParams) -> Scalar {
    if profile.cruise_speed_mps is Some {
        profile.cruise_speed_mps->0
    } else if profile.speed_range_mps is Some {
        (profile.speed_range_mps->0[0] + profile.speed_range_mps->0[1]) / whole(2)
    } else {
        match profile.aircraft_type {
            AircraftType::FixedWing => params.default_fixed_wing_speed_mps,
            AircraftType::Rotorcraft => params.default_rotorcraft_speed_mps,
        }
    }
}

/// The turning radius an aircraft is planned at.
pub open spec fn planning_radius(profile: AircraftProfile, params: DefaultParams) -> Scalar {
    or_else(
        profile.min_turn_radius_m,
        match profile.aircraft_type {
            AircraftType::FixedWing => params.default_fixed_wing_turn_radius_m,
            AircraftType::Rotorcraft => params.default_rotorcraft_turn_radius_m,
        },
    )
}

/// The radius of a level turn at a speed and a bank angle.
pub open spec fn bank_radius<C: Fn(Calc) -> Scalar>(calc: C, v: Scalar, bank_deg: Scalar) -> Scalar {
    v * v / (frac(981, 100) * image(calc, Calc::Tan(radians(bank_deg))))
}

/// The options for an aircraft, and the radius below which it cannot turn: the
/// one its speed and bank allow, or the planned one if that is smaller, since
/// the aircraft slows down to turn.
pub fn smooth_options_for<C: Fn(Calc) -> Scalar>(
    profile: &AircraftProfile,
    params: &DefaultParams,
    calc: &C,
) -> (r: (SmoothOptions, Scalar))
    requires
        is_function(*calc),
    ensures
        r.0 == (SmoothOptions {
            aircraft_type: profile.aircraft_type,
            turn_radius_m: planning_radius(*profile, *params),
            max_climb_deg: or_else(
                profile.max_climb_angle_deg,
                params.default_max_climb_angle_deg,
            ),
            ..SmoothOptions::usual()
        }),
        r.1 == bank_radius(
            *calc,
            planning_speed(*profile, *params),
            or_else(profile.max_bank_deg, params.default_max_bank_deg),
        ).smaller(planning_radius(*profile, *params)),
{
    let usual_speed: Scalar = match profile.aircraft_type {
        AircraftType::FixedWing => params.default_fixed_wing_speed_mps,
        AircraftType::Rotorcraft => params.default_rotorcraft_speed_mps,
    };
    let v: Scalar = match profile.cruise_speed_mps {
        Some(v) => v,
        None => match profile.speed_range_mps {
            Some(range) => (range[0] + range[1]) / number(2),
            None => usual_speed,
        },
    };
    let bank_deg: Scalar = either(profile.max_bank_deg, params.default_max_bank_deg);
    let phys: Scalar = v * v / (ratio(981, 100) * ask(calc, Calc::Tan(to_radians(bank_deg))));
    let usual_radius: Scalar = match profile.aircraft_type {
        AircraftType::FixedWing => params.default_fixed_wing_turn_radius_m,
        AircraftType::Rotorcraft => params.default_rotorcraft_turn_radius_m,
    };
    let radius: Scalar = either(profile.min_turn_radius_m, usual_radius);
    let mut opts: SmoothOptions = SmoothOptions::default();
    opts.aircraft_type = profile.aircraft_type;
    opts.turn_radius_m = radius;
    opts.max_climb_deg = either(profile.max_climb_angle_deg, params.default_max_climb_angle_deg);
    (opts, phys.min(&radius))
}

/// The planned radius is never below the smallest radius that is returned with
/// it. (Left out: radii that are not numbers.)
pub proof fn law_planned_radius_is_flyable<C: Fn(Calc) -> Scalar>(
    calc: C,
    profile: AircraftProfile,
    params: DefaultParams,
)
    requires
        !planning_radius(profile, params).nan(),
    ensures
        bank_radius(
            calc,
            planning_speed(profile, params),
            or_else(profile.max_bank_deg, params.default_max_bank_deg),
        ).smaller(planning_radius(profile, params)) <= planning_radius(profile, params),
{
}

impl DefaultParams {
    /// The radius of a level turn at a speed and a bank angle, with standard gravity.
    pub fn physical_turn_radius_m<C: Fn(Calc) -> Scalar>(
        v_mps: Scalar,
        bank_deg: Scalar,
        calc: &C,
    ) -> (r: Scalar)
        requires
            is_function(*calc),
        ensures
            r == v_mps * v_mps / (frac(980_665, 100_000) * image(
                *calc,
                Calc::Tan(radians(bank_deg)),
            )),
    {
        v_mps * v_mps / (ratio(980_665, 100_000) * ask(calc, Calc::Tan(to_radians(bank_deg))))
    }
}

/// A local plane: metres east and north of a place.
#[derive(Clone, Copy, Debug)]
pub struct LocalProjection {
    pub clon: Scalar,
    pub clat: Scalar,
    /// Cosine of the latitude, kept away from zero.
    pub k: Scalar,
}

impl LocalProjection {
    /// The plane round a place.
    pub open spec fn round<C: Fn(Calc) -> Scalar>(calc: C, clon: Scalar, clat: Scalar) -> LocalProjection {
        LocalProjection {
            clon,
            clat,
            k: image(calc, Calc::Cos(radians(clat))).larger(frac(1, 1_000_000)),
        }
    }

    pub open spec fn plane(self, lon: Scalar, lat: Scalar) -> (Scalar, Scalar) {
        ((lon - self.clon) * self.k * whole(111_320), (lat - self.clat) * whole(111_320))
    }

    pub open spec fn ground(self, x: Scalar, y: Scalar) -> (Scalar, Scalar) {
        (self.clon + x / (self.k * whole(111_320)), self.clat + y / whole(111_320))
    }

    pub fn new<C: Fn(Calc) -> Scalar>(clon: Scalar, clat: Scalar, calc: &C) -> (r: LocalProjection)
        requires
            is_function(*calc),
        ensures
            r == LocalProjection::round(*calc, clon, clat),
    {
        let k: Scalar = ask(calc, Calc::Cos(to_radians(clat))).max(&ratio(1, 1_000_000));
        LocalProjection { clon, clat, k }
    }

    pub fn to_xy(&self, lon: Scalar, lat: Scalar) -> (r: (Scalar, Scalar))
        ensures
            r == self.plane(lon, lat),
    {
        ((lon - self.clon) * self.k * number(111_320), (lat - self.clat) * number(111_320))
    }

    pub fn to_lonlat(&self, x: Scalar, y: Scalar) -> (r: (Scalar, Scalar))
        ensures
            r == self.ground(x, y),
    {
        (self.clon + x / (self.k * number(111_320)), self.clat + y / number(111_320))
    }
}

/// Radius of the circle through three points of the plane; none if they lie on
/// a line.
pub open spec fn circle_radius(a: (Scalar, Scalar), b: (Scalar, Scalar), c: (Scalar, Scalar)) -> Option<
    Scalar,
> {
    let (ax, ay) = (b.0 - a.0, b.1 - a.1);
    let (bx, by) = (c.0 - a.0, c.1 - a.1);
    let det = ax * by - ay * bx;
    let (la, lb) = (ax * ax + ay * ay, bx * bx + by * by);
    let cx = (by * la - ay * lb) / (whole(2) * det);
    let cy = (ax * lb - bx * la) / (whole(2) * det);
    if det.magnitude() < frac(1, 1_000_000_000_000) {
        None
    } else {
        Some((cx * cx + cy * cy).root())
    }
}

pub fn circumradius(a: (Scalar, Scalar), b: (Scalar, Scalar), c: (Scalar, Scalar)) -> (r: Option<Scalar>)
    ensures
        r == circle_radius(a, b, c),
{
    let ax: Scalar = b.0 - a.0;
    let ay: Scalar = b.1 - a.1;
    let bx: Scalar = c.0 - a.0;
    let by: Scalar = c.1 - a.1;
    let det: Scalar = ax * by - ay * bx;
    if det.abs().lt(&ratio(1, 1_000_000_000_000)) {
        return None;
    }
    let la: Scalar = ax * ax + ay * ay;
    let lb: Scalar = bx * bx + by * by;
    let cx: Scalar = (by * la - ay * lb) / (number(2) * det);
    let cy: Scalar = (ax * lb - bx * la) / (number(2) * det);
    Some((cx * cx + cy * cy).sqrt())
}

} // verus!
