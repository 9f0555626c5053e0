//! Checks on a request before anything is planned.

use crate::config::{
    AircraftInput, AircraftProfile, AircraftType, Input, Radar, Waypoint, Zone, ZoneType,
};
use crate::coord::{legal_coordinate, Geo};
use crate::error::{AppError, InputInvalidReason};
use crate::numeric::{number, whole};
use crate::oracle::{ask, image, is_function, Calc};
use crate::scalar::Scalar;
use crate::zone::{holds, zone_contains};
use vstd::prelude::*;

verus! {

/// What is wrong with a zone: a restricted zone needs both ends of its band,
/// finite and in order.
pub open spec fn zone_fault(z: Zone) -> Option<InputInvalidReason> {
    if z.zone_type == ZoneType::Restricted && !(z.alt_min_m is Some && z.alt_max_m is Some
        && z.alt_min_m->0.finite() && z.alt_max_m->0.finite() && z.alt_min_m->0 < z.alt_max_m->0) {
        Some(InputInvalidReason::OutOfBounds)
    } else {
        None
    }
}

fn validate_zone(z: &Zone) -> (r: Option<InputInvalidReason>)
    ensures
        r == zone_fault(*z),
{
    match z.zone_type {
        ZoneType::Restricted => match (z.alt_min_m, z.alt_max_m) {
            (Some(lo), Some(hi)) => if lo.is_finite() && hi.is_finite() && lo.lt(&hi) {
                None
            } else {
                Some(InputInvalidReason::OutOfBounds)
            },
            _ => Some(InputInvalidReason::OutOfBounds),
        },
        _ => None,
    }
}

/// The speed that an aircraft flies at: its cruise speed, else the slow end of
/// its speed range.
pub open spec fn stated_speed(p: AircraftProfile) -> Option<Scalar> {
    if p.cruise_speed_mps is Some {
        p.cruise_speed_mps
    } else if p.speed_range_mps is Some {
        Some(p.speed_range_mps->0[0])
    } else {
        None
    }
}

/// What is wrong with an aircraft, apart from where it flies.
pub open spec fn equipment_fault(a: AircraftInput) -> Option<InputInvalidReason> {
    let p = a.profile;
    let speed = stated_speed(p);
    if speed is Some && !(speed->0 >= whole(1) && speed->0 <= whole(1000)) {
        Some(InputInvalidReason::OutOfBounds)
    } else if p.speed_range_mps is Some && (p.speed_range_mps->0[0] <= whole(0)
        || p.speed_range_mps->0[1] < p.speed_range_mps->0[0]) {
        Some(InputInvalidReason::VehicleParamsInconsistent)
    } else if speed is Some && p.max_bank_deg is Some && p.min_turn_radius_m is Some
        && p.aircraft_type == AircraftType::FixedWing && p.min_turn_radius_m->0 < whole(1) {
        Some(InputInvalidReason::VehicleParamsInconsistent)
    } else if a.weapon is Some && a.weapon->0.range_km is Some && !(
    a.weapon->0.range_km->0[0].finite() && a.weapon->0.range_km->0[1].finite()
        && a.weapon->0.range_km->0[0] < a.weapon->0.range_km->0[1]) {
        Some(InputInvalidReason::OutOfBounds)
    } else {
        None
    }
}

fn validate_aircraft(a: &AircraftInput) -> (r: Option<InputInvalidReason>)
    ensures
        r == equipment_fault(*a),
{
    let p: &AircraftProfile = &a.profile;
    let speed: Option<Scalar> = match p.cruise_speed_mps {
        Some(v) => Some(v),
        None => match p.speed_range_mps {
            Some(range) => Some(range[0]),
            None => None,
        },
    };
    if let Some(s) = speed {
        if !(number(1).le(&s) && s.le(&number(1000))) {
            return Some(InputInvalidReason::OutOfBounds);
        }
    }
    if let Some(range) = p.speed_range_mps {
        if range[0].le(&number(0)) || range[1].lt(&range[0]) {
            return Some(InputInvalidReason::VehicleParamsInconsistent);
        }
    }
    if let (Some(_), Some(_), Some(radius)) = (speed, p.max_bank_deg, p.min_turn_radius_m) {
        let fixed_wing: bool = match p.aircraft_type {
            AircraftType::FixedWing => true,
            AircraftType::Rotorcraft => false,
        };
        if fixed_wing && radius.lt(&number(1)) {
            return Some(InputInvalidReason::VehicleParamsInconsistent);
        }
    }
    if let Some(w) = &a.weapon {
        if let Some(range) = w.range_km {
            if !(range[0].is_finite() && range[1].is_finite() && range[0].lt(&range[1])) {
                return Some(InputInvalidReason::OutOfBounds);
            }
        }
    }
    None
}

/// Whether a place lies in one of the zones.
pub open spec fn in_some_zone<C: Fn(Calc) -> Scalar>(calc: C, zones: Seq<Zone>, p: Geo) -> bool {
    exists|i: int| 0 <= i < zones.len() && holds(calc, #[trigger] zones[i], p)
}

fn lies_in_zone<C: Fn(Calc) -> Scalar>(zones: &Vec<Zone>, p: &Geo, calc: &C) -> (r: bool)
    requires
        is_function(*calc),
    ensures
        r == in_some_zone(*calc, zones@, *p),
{
    let mut i: usize = 0;
    while i < zones.len()
        invariant
            is_function(*calc),
            i <= zones@.len(),
            forall|k: int| 0 <= k < i ==> !holds(*calc, #[trigger] zones@[k], *p),
        decreases zones.len() - i,
    {
        if zone_contains(&zones[i], p, calc) {
            assert(holds(*calc, zones@[i as int], *p));
            return true;
        }
        i = i + 1;
    }
    false
}

/// The first thing wrong with the waypoints from number `k` on.
pub open spec fn waypoint_fault<C: Fn(Calc) -> Scalar>(
    calc: C,
    zones: Seq<Zone>,
    mids: Seq<Waypoint>,
    k: int,
) -> Option<InputInvalidReason>
    decreases mids.len() - k,
{
    if k >= mids.len() {
        None
    } else if !mids[k].legal() {
        Some(InputInvalidReason::IllegalCoordinate)
    } else if in_some_zone(calc, zones, mids[k].place()) {
        Some(InputInvalidReason::MidWaypointInNoFly)
    } else {
        waypoint_fault(calc, zones, mids, k + 1)
    }
}

/// Whether an earlier aircraft has the id of aircraft `i`.
pub open spec fn repeats_id(aircraft: Seq<AircraftInput>, i: int) -> bool {
    exists|j: int| 0 <= j < i && (#[trigger] aircraft[j]).id@ == aircraft[i].id@
}

/// The first thing wrong with aircraft `i`.
pub open spec fn aircraft_fault<C: Fn(Calc) -> Scalar>(
    calc: C,
    zones: Seq<Zone>,
    aircraft: Seq<AircraftInput>,
    i: int,
) -> Option<InputInvalidReason> {
    let a = aircraft[i];
    if repeats_id(aircraft, i) {
        Some(InputInvalidReason::VehicleParamsInconsistent)
    } else if equipment_fault(a) is Some {
        equipment_fault(a)
    } else if !a.start.legal() || !a.target.legal() {
        Some(InputInvalidReason::IllegalCoordinate)
    } else if image(calc, Calc::Geodesic(a.start.place(), a.target.place())) < whole(100) {
        Some(InputInvalidReason::DegenerateStartEqualsTarget)
    } else if in_some_zone(calc, zones, a.start.place()) || in_some_zone(
        calc,
        zones,
        a.target.place(),
    ) {
        Some(InputInvalidReason::TargetInNoFly)
    } else {
        waypoint_fault(calc, zones, a.mid_waypoints@, 0)
    }
}

/// The first thing wrong with the aircraft from number `k` on.
pub open spec fn fleet_fault<C: Fn(Calc) -> Scalar>(
    calc: C,
    zones: Seq<Zone>,
    aircraft: Seq<AircraftInput>,
    k: int,
) -> Option<InputInvalidReason>
    decreases aircraft.len() - k,
{
    if k >= aircraft.len() {
        None
    } else if aircraft_fault(calc, zones, aircraft, k) is Some {
        aircraft_fault(calc, zones, aircraft, k)
    } else {
        fleet_fault(calc, zones, aircraft, k + 1)
    }
}

/// What is wrong with a radar.
pub open spec fn radar_fault<C: Fn(Calc) -> Scalar>(calc: C, zones: Seq<Zone>, r: Radar) -> Option<
    InputInvalidReason,
> {
    if !legal_coordinate(r.lon, r.lat) {
        Some(InputInvalidReason::IllegalCoordinate)
    } else if in_some_zone(calc, zones, Geo { lon: r.lon, lat: r.lat }) {
        Some(InputInvalidReason::RadarOverlapNoFly)
    } else if r.radius_km <= whole(0) {
        Some(InputInvalidReason::OutOfBounds)
    } else {
        None
    }
}

/// The first thing wrong with the radars from number `k` on.
pub open spec fn radars_fault<C: Fn(Calc) -> Scalar>(
    calc: C,
    zones: Seq<Zone>,
    radars: Seq<Radar>,
    k: int,
) -> Option<InputInvalidReason>
    decreases radars.len() - k,
{
    if k >= radars.len() {
        None
    } else if radar_fault(calc, zones, radars[k]) is Some {
        radar_fault(calc, zones, radars[k])
    } else {
        radars_fault(calc, zones, radars, k + 1)
    }
}

/// Whether each of the zones is in order.
pub open spec fn zones_in_order(zones: Seq<Zone>) -> bool {
    forall|i: int| 0 <= i < zones.len() ==> zone_fault(#[trigger] zones[i]) is None
}

/// The first thing wrong with a request, if anything is: the aircraft in
/// order, then the radars, then the zones.
pub open spec fn request_fault<C: Fn(Calc) -> Scalar>(calc: C, input: Input) -> Option<
    InputInvalidReason,
> {
    let no_fly = input.no_fly_zones@;
    if input.aircraft@.len() == 0 {
        Some(InputInvalidReason::MissingAircraft)
    } else if fleet_fault(calc, no_fly, input.aircraft@, 0) is Some {
        fleet_fault(calc, no_fly, input.aircraft@, 0)
    } else if radars_fault(calc, no_fly, input.red_forces.radars@, 0) is Some {
        radars_fault(calc, no_fly, input.red_forces.radars@, 0)
    } else if !(zones_in_order(no_fly) && zones_in_order(input.restricted_zones@) && zones_in_order(
        input.obstacles@,
    )) {
        Some(InputInvalidReason::OutOfBounds)
    } else {
        None
    }
}

fn id_repeats(aircraft: &Vec<AircraftInput>, i: usize) -> (r: bool)
    requires
        i < aircraft@.len(),
    ensures
        r == repeats_id(aircraft@, i as int),
{
    let mut j: usize = 0;
    while j < i
        invariant
            j <= i < aircraft@.len(),
            forall|k: int| 0 <= k < j ==> (#[trigger] aircraft@[k]).id@ != aircraft@[i as int].id@,
        decreases i - j,
    {
        if aircraft[j].id == aircraft[i].id {
            assert(aircraft@[j as int].id@ == aircraft@[i as int].id@);
            return true;
        }
        j = j + 1;
    }
    false
}

fn check_waypoints<C: Fn(Calc) -> Scalar>(
    zones: &Vec<Zone>,
    mids: &Vec<Waypoint>,
    calc: &C,
) -> (r: Option<InputInvalidReason>)
    requires
        is_function(*calc),
    ensures
        r == waypoint_fault(*calc, zones@, mids@, 0),
{
    let mut k: usize = 0;
    while k < mids.len()
        invariant
            is_function(*calc),
            k <= mids@.len(),
            waypoint_fault(*calc, zones@, mids@, 0) == waypoint_fault(
                *calc,
                zones@,
                mids@,
                k as int,
            ),
        decreases mids.len() - k,
    {
        match Geo::new(mids[k].lon, mids[k].lat) {
            Ok(g) => {
                if lies_in_zone(zones, &g, calc) {
                    return Some(InputInvalidReason::MidWaypointInNoFly);
                }
            },
            Err(_) => {
                return Some(InputInvalidReason::IllegalCoordinate);
            },
        }
        k = k + 1;
    }
    None
}

fn check_flight<C: Fn(Calc) -> Scalar>(
    zones: &Vec<Zone>,
    aircraft: &Vec<AircraftInput>,
    i: usize,
    calc: &C,
) -> (r: Option<InputInvalidReason>)
    requires
        is_function(*calc),
        i < aircraft@.len(),
    ensures
        r == aircraft_fault(*calc, zones@, aircraft@, i as int),
{
    let a: &AircraftInput = &aircraft[i];
    if id_repeats(aircraft, i) {
        return Some(InputInvalidReason::VehicleParamsInconsistent);
    }
    if let Some(fault) = validate_aircraft(a) {
        return Some(fault);
    }
    match (Geo::new(a.start.lon, a.start.lat), Geo::new(a.target.lon, a.target.lat)) {
        (Ok(start), Ok(target)) => {
            if ask(calc, Calc::Geodesic(start, target)).lt(&number(100)) {
                return Some(InputInvalidReason::DegenerateStartEqualsTarget);
            }
            if lies_in_zone(zones, &start, calc) || lies_in_zone(zones, &target, calc) {
                return Some(InputInvalidReason::TargetInNoFly);
            }
            check_waypoints(zones, &a.mid_waypoints, calc)
        },
        _ => Some(InputInvalidReason::IllegalCoordinate),
    }
}

fn check_radar<C: Fn(Calc) -> Scalar>(zones: &Vec<Zone>, r: &Radar, calc: &C) -> (f: Option<
    InputInvalidReason,
>)
    requires
        is_function(*calc),
    ensures
        f == radar_fault(*calc, zones@, *r),
{
    match Geo::new(r.lon, r.lat) {
        Ok(g) => {
            if lies_in_zone(zones, &g, calc) {
                Some(InputInvalidReason::RadarOverlapNoFly)
            } else if r.radius_km.le(&number(0)) {
                Some(InputInvalidReason::OutOfBounds)
            } else {
                None
            }
        },
        Err(_) => Some(InputInvalidReason::IllegalCoordinate),
    }
}

fn check_zones(zones: &Vec<Zone>) -> (r: bool)
    ensures
        r == zones_in_order(zones@),
{
    let mut i: usize = 0;
    while i < zones.len()
        invariant
            i <= zones@.len(),
            forall|k: int| 0 <= k < i ==> zone_fault(#[trigger] zones@[k]) is None,
        decreases zones.len() - i,
    {
        if let Some(_) = validate_zone(&zones[i]) {
            assert(zone_fault(zones@[i as int]) is Some);
            return false;
        }
        i = i + 1;
    }
    true
}

/// Checks a request; the first fault found refuses it.
pub fn validate<C: Fn(Calc) -> Scalar>(input: &Input, calc: &C) -> (r: Result<
    (),
    AppError,
>)
    requires
        is_function(*calc),
    ensures
        r == (match request_fault(*calc, *input) {
            Some(reason) => Err::<(), AppError>(AppError::InputInvalid(reason)),
            None => Ok::<(), AppError>(()),
        }),
{
    let n: usize = input.aircraft.len();
    let ghost no_fly = input.no_fly_zones@;
    if n == 0 {
        return Err(AppError::InputInvalid(InputInvalidReason::MissingAircraft));
    }
    let mut i: usize = 0;
    while i < n
        invariant
            is_function(*calc),
            n == input.aircraft@.len(),
            n > 0,
            i <= n,
            no_fly == input.no_fly_zones@,
            fleet_fault(*calc, no_fly, input.aircraft@, 0) == fleet_fault(
                *calc,
                no_fly,
                input.aircraft@,
                i as int,
            ),
        decreases n - i,
    {
        if let Some(fault) = check_flight(&input.no_fly_zones, &input.aircraft, i, calc) {
            return Err(AppError::InputInvalid(fault));
        }
        i = i + 1;
    }
    let m: usize = input.red_forces.radars.len();
    let mut k: usize = 0;
    while k < m
        invariant
            is_function(*calc),
            m == input.red_forces.radars@.len(),
            k <= m,
            no_fly == input.no_fly_zones@,
            input.aircraft@.len() > 0,
            fleet_fault(*calc, no_fly, input.aircraft@, 0) is None,
            radars_fault(*calc, no_fly, input.red_forces.radars@, 0) == radars_fault(
                *calc,
                no_fly,
                input.red_forces.radars@,
                k as int,
            ),
        decreases m - k,
    {
        if let Some(fault) = check_radar(&input.no_fly_zones, &input.red_forces.radars[k], calc) {
            return Err(AppError::InputInvalid(fault));
        }
        k = k + 1;
    }
    if !check_zones(&input.no_fly_zones) || !check_zones(&input.restricted_zones) || !check_zones(
        &input.obstacles,
    ) {
        return Err(AppError::InputInvalid(InputInvalidReason::OutOfBounds));
    }
    Ok(())
}

/// `after` is `before` with each zone given the type `t`.
pub open spec fn stamped(before: Seq<Zone>, after: Seq<Zone>, t: ZoneType) -> bool {
    &&& after.len() == before.len()
    &&& forall|i: int|
        0 <= i < after.len() ==> #[trigger] after[i] == (Zone { zone_type: t, ..before[i] })
}

fn stamp(zones: &mut Vec<Zone>, t: ZoneType)
    ensures
        stamped(old(zones)@, final(zones)@, t),
{
    let n: usize = zones.len();
    let ghost before = zones@;
    let mut i: usize = 0;
    while i < n
        invariant
            n == zones@.len(),
            n == before.len(),
            i <= n,
            forall|k: int|
                0 <= k < i ==> #[trigger] zones@[k] == (Zone { zone_type: t, ..before[k] }),
            forall|k: int| i <= k < n ==> #[trigger] zones@[k] == before[k],
        decreases n - i,
    {
        zones[i].zone_type = t;
        i = i + 1;
    }
}

impl Input {
    /// Gives each zone the type of the list it stands in, whatever it held before.
    pub fn assign_zone_types(&mut self)
        ensures
            stamped(old(self).no_fly_zones@, final(self).no_fly_zones@, ZoneType::NoFly),
            stamped(
                old(self).restricted_zones@,
                final(self).restricted_zones@,
                ZoneType::Restricted,
            ),
            stamped(old(self).obstacles@, final(self).obstacles@, ZoneType::Obstacle),
            final(self).aircraft == old(self).aircraft,
            final(self).red_forces == old(self).red_forces,
            final(self).terrain == old(self).terrain,
            final(self).parameters == old(self).parameters,
    {
        stamp(&mut self.no_fly_zones, ZoneType::NoFly);
        stamp(&mut self.restricted_zones, ZoneType::Restricted);
        stamp(&mut self.obstacles, ZoneType::Obstacle);
    }
}

proof fn lemma_fleet_clear<C: Fn(Calc) -> Scalar>(
    calc: C,
    zones: Seq<Zone>,
    aircraft: Seq<AircraftInput>,
    k: int,
    i: int,
)
    requires
        0 <= k <= i < aircraft.len(),
        fleet_fault(calc, zones, aircraft, k) is None,
    ensures
        aircraft_fault(calc, zones, aircraft, i) is None,
    decreases i - k,
{
    if k < i {
        lemma_fleet_clear(calc, zones, aircraft, k + 1, i);
    }
}

proof fn lemma_waypoints_clear<C: Fn(Calc) -> Scalar>(
    calc: C,
    zones: Seq<Zone>,
    mids: Seq<Waypoint>,
    k: int,
    i: int,
)
    requires
        0 <= k <= i < mids.len(),
        waypoint_fault(calc, zones, mids, k) is None,
    ensures
        mids[i].legal() && !in_some_zone(calc, zones, mids[i].place()),
    decreases i - k,
{
    if k < i {
        lemma_waypoints_clear(calc, zones, mids, k + 1, i);
    }
}

proof fn lemma_radars_clear<C: Fn(Calc) -> Scalar>(
    calc: C,
    zones: Seq<Zone>,
    radars: Seq<Radar>,
    k: int,
    i: int,
)
    requires
        0 <= k <= i < radars.len(),
        radars_fault(calc, zones, radars, k) is None,
    ensures
        radar_fault(calc, zones, radars[i]) is None,
    decreases i - k,
{
    if k < i {
        lemma_radars_clear(calc, zones, radars, k + 1, i);
    }
}

/// Every aircraft of an accepted request has an id of its own, flies between
/// two legal places at least 100 m apart, and neither starts, ends nor passes
/// a waypoint in a no-fly zone.
pub proof fn law_accepted_flights_clear<C: Fn(Calc) -> Scalar>(
    calc: C,
    input: Input,
    i: int,
    k: int,
)
    requires
        request_fault(calc, input) is None,
        0 <= i < input.aircraft@.len(),
    ensures
        ({
            let a = input.aircraft@[i];
            let no_fly = input.no_fly_zones@;
            &&& !repeats_id(input.aircraft@, i)
            &&& a.start.legal() && a.target.legal()
            &&& !(image(calc, Calc::Geodesic(a.start.place(), a.target.place())) < whole(100))
            &&& !in_some_zone(calc, no_fly, a.start.place())
            &&& !in_some_zone(calc, no_fly, a.target.place())
            &&& 0 <= k < a.mid_waypoints@.len() ==> a.mid_waypoints@[k].legal() && !in_some_zone(
                calc,
                no_fly,
                a.mid_waypoints@[k].place(),
            )
        }),
{
    lemma_fleet_clear(calc, input.no_fly_zones@, input.aircraft@, 0, i);
    let mids = input.aircraft@[i].mid_waypoints@;
    if 0 <= k < mids.len() {
        lemma_waypoints_clear(calc, input.no_fly_zones@, mids, 0, k);
    }
}

/// Every radar of an accepted request stands at a legal place outside the
/// no-fly zones.
pub proof fn law_accepted_radars_clear<C: Fn(Calc) -> Scalar>(calc: C, input: Input, i: int)
    requires
        request_fault(calc, input) is None,
        0 <= i < input.red_forces.radars@.len(),
    ensures
        ({
            let r = input.red_forces.radars@[i];
            &&& legal_coordinate(r.lon, r.lat)
            &&& !in_some_zone(calc, input.no_fly_zones@, Geo { lon: r.lon, lat: r.lat })
            &&& !(r.radius_km <= whole(0))
        }),
{
    lemma_radars_clear(calc, input.no_fly_zones@, input.red_forces.radars@, 0, i);
}

/// No-fly zones and obstacles need no band of heights: with the types of their
/// lists they are never at fault, and they are walls.
pub proof fn law_walls_need_no_band(z: Zone)
    requires
        z.zone_type == ZoneType::NoFly || z.zone_type == ZoneType::Obstacle,
    ensures
        zone_fault(z) is None,
        z.wall(),
{
}

} // verus!
