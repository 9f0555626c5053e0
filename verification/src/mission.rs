//! What is asked of each vehicle, read from a request.

use crate::config::{
    named_curve, parse_curve, valid_coefficient, valid_inflation, valid_share, valid_suppression,
    AircraftInput, AircraftProfile, DefaultParams, DetectionCurve, ParamsOverride, Waypoint, Zone,
    ZoneShape,
};
use crate::coord::Geo;
use crate::error::{AppError, InputInvalidReason};
use crate::numeric::{frac, number, ratio, whole};
use crate::path::{Path, PathPoint};
use crate::profile::part_views;
use crate::scalar::Scalar;
use vstd::prelude::*;

verus! {

/// One vehicle and its flight.
pub struct VehicleSpec {
    pub id: String,
    pub start: Geo,
    pub target: Geo,
    /// Height of the flight in metres.
    pub alt_m: Scalar,
    pub profile: AircraftProfile,
    /// Places to pass on the way, in order.
    pub mid_waypoints: Vec<Geo>,
}

/// Whether all places of a flight are legal.
pub open spec fn legal_flight(a: AircraftInput) -> bool {
    a.start.legal() && a.target.legal() && forall|k: int|
        0 <= k < a.mid_waypoints@.len() ==> (#[trigger] a.mid_waypoints@[k]).legal()
}

impl VehicleSpec {
    /// Whether the vehicle is the one that a request describes.
    pub open spec fn flies(self, a: AircraftInput) -> bool {
        &&& self.id@ == a.id@
        &&& self.start == a.start.place()
        &&& self.target == a.target.place()
        &&& self.alt_m == a.start.alt_m
        &&& self.profile == a.profile
        &&& self.mid_waypoints@ == a.mid_waypoints@.map_values(|w: Waypoint| w.place())
    }
}

fn illegal_coordinate() -> (r: AppError)
    ensures
        r == AppError::InputInvalid(InputInvalidReason::IllegalCoordinate),
{
    AppError::InputInvalid(InputInvalidReason::IllegalCoordinate)
}

fn read_mid_waypoints(mids: &Vec<Waypoint>) -> (r: Option<Vec<Geo>>)
    ensures
        r is Some <==> forall|k: int| 0 <= k < mids@.len() ==> (#[trigger] mids@[k]).legal(),
        r is Some ==> r->0@ == mids@.map_values(|w: Waypoint| w.place()),
{
    let mut places: Vec<Geo> = Vec::new();
    let mut k: usize = 0;
    while k < mids.len()
        invariant
            k <= mids@.len(),
            forall|j: int| 0 <= j < k ==> (#[trigger] mids@[j]).legal(),
            places@.len() == k,
            forall|j: int| 0 <= j < k ==> #[trigger] places@[j] == mids@[j].place(),
        decreases mids.len() - k,
    {
        match Geo::new(mids[k].lon, mids[k].lat) {
            Ok(g) => {
                places.push(g);
            },
            Err(_) => {
                assert(!mids@[k as int].legal());
                return None;
            },
        }
        k = k + 1;
    }
    assert(places@ =~= mids@.map_values(|w: Waypoint| w.place()));
    Some(places)
}

/// The vehicle that one aircraft of a request describes; an illegal coordinate
/// is refused.
pub fn vehicle_of(a: &AircraftInput) -> (r: Result<VehicleSpec, AppError>)
    ensures
        legal_flight(*a) ==> r is Ok && r->Ok_0.flies(*a),
        !legal_flight(*a) ==> r == Err::<VehicleSpec, AppError>(
            AppError::InputInvalid(InputInvalidReason::IllegalCoordinate),
        ),
{
    let mid_waypoints: Vec<Geo> = match read_mid_waypoints(&a.mid_waypoints) {
        Some(m) => m,
        None => {
            return Err(illegal_coordinate());
        },
    };
    let start: Geo = match Geo::new(a.start.lon, a.start.lat) {
        Ok(g) => g,
        Err(_) => {
            return Err(illegal_coordinate());
        },
    };
    let target: Geo = match Geo::new(a.target.lon, a.target.lat) {
        Ok(g) => g,
        Err(_) => {
            return Err(illegal_coordinate());
        },
    };
    Ok(
        VehicleSpec {
            id: a.id.clone(),
            start,
            target,
            alt_m: a.start.alt_m,
            profile: a.profile,
            mid_waypoints,
        },
    )
}

/// The vehicles of a request, in order; refused if one of them is.
pub fn vehicles_of(aircraft: &Vec<AircraftInput>) -> (r: Result<Vec<VehicleSpec>, AppError>)
    ensures
        (forall|k: int| 0 <= k < aircraft@.len() ==> legal_flight(#[trigger] aircraft@[k])) ==> {
            &&& r is Ok
            &&& r->Ok_0@.len() == aircraft@.len()
            &&& forall|k: int|
                0 <= k < aircraft@.len() ==> (#[trigger] r->Ok_0@[k]).flies(aircraft@[k])
        },
        !(forall|k: int| 0 <= k < aircraft@.len() ==> legal_flight(#[trigger] aircraft@[k])) ==> r
            == Err::<Vec<VehicleSpec>, AppError>(
            AppError::InputInvalid(InputInvalidReason::IllegalCoordinate),
        ),
{
    let mut specs: Vec<VehicleSpec> = Vec::new();
    let mut k: usize = 0;
    while k < aircraft.len()
        invariant
            k <= aircraft@.len(),
            forall|j: int| 0 <= j < k ==> legal_flight(#[trigger] aircraft@[j]),
            specs@.len() == k,
            forall|j: int| 0 <= j < k ==> (#[trigger] specs@[j]).flies(aircraft@[j]),
        decreases aircraft.len() - k,
    {
        match vehicle_of(&aircraft[k]) {
            Ok(v) => {
                specs.push(v);
            },
            Err(_) => {
                assert(!legal_flight(aircraft@[k as int]));
                return Err(illegal_coordinate());
            },
        }
        k = k + 1;
    }
    Ok(specs)
}

/// All zones of a request: no-fly zones, restricted ones, obstacles.
pub fn collect_zones(no_fly: Vec<Zone>, restricted: Vec<Zone>, obstacles: Vec<Zone>) -> (r: Vec<Zone>)
    ensures
        r@ == no_fly@ + restricted@ + obstacles@,
{
    let mut all: Vec<Zone> = no_fly;
    let mut more: Vec<Zone> = restricted;
    let mut rest: Vec<Zone> = obstacles;
    all.append(&mut more);
    all.append(&mut rest);
    all
}

/// A round zone as an entry of an index of circles.
pub struct CircleEntry {
    pub id: String,
    pub lon: Scalar,
    pub lat: Scalar,
    pub radius_m: Scalar,
}

impl CircleEntry {
    /// Whether the entry is that of a zone, which then is round.
    pub open spec fn stands_for(self, z: Zone) -> bool {
        match z.shape {
            ZoneShape::Circle { center, radius_km } => {
                &&& self.id@ == z.id@
                &&& self.lon == center[0]
                &&& self.lat == center[1]
                &&& self.radius_m == radius_km * whole(1000)
            },
            ZoneShape::Polygon { .. } => false,
        }
    }
}

/// The round ones of the first `k` zones.
pub open spec fn round_zones(zones: Seq<Zone>, k: int) -> Seq<Zone>
    decreases k,
{
    if k <= 0 {
        Seq::empty()
    } else if zones[k - 1].shape is Circle {
        round_zones(zones, k - 1).push(zones[k - 1])
    } else {
        round_zones(zones, k - 1)
    }
}

/// The entries of the round zones, in order.
pub fn circle_index(zones: &Vec<Zone>) -> (r: Vec<CircleEntry>)
    ensures
        ({
            let round = round_zones(zones@, zones@.len() as int);
            r@.len() == round.len() && forall|k: int|
                0 <= k < round.len() ==> (#[trigger] r@[k]).stands_for(round[k])
        }),
{
    let mut entries: Vec<CircleEntry> = Vec::new();
    let mut k: usize = 0;
    while k < zones.len()
        invariant
            k <= zones@.len(),
            ({
                let round = round_zones(zones@, k as int);
                entries@.len() == round.len() && forall|j: int|
                    0 <= j < round.len() ==> (#[trigger] entries@[j]).stands_for(round[j])
            }),
        decreases zones.len() - k,
    {
        match &zones[k].shape {
            ZoneShape::Circle { center, radius_km } => {
                entries.push(
                    CircleEntry {
                        id: zones[k].id.clone(),
                        lon: center[0],
                        lat: center[1],
                        radius_m: *radius_km * number(1000),
                    },
                );
            },
            ZoneShape::Polygon { .. } => {},
        }
        k = k + 1;
    }
    entries
}

/// Parameters of the radar model.
#[derive(Clone, Copy, Debug, PartialEq, Eq, Structural)]
pub struct ThreatParams {
    pub radar_inflation: Scalar,
    pub detection_curve: DetectionCurve,
    /// The chance of detection that is accepted.
    pub p_cross: Scalar,
    pub suppression_delta: Scalar,
    /// Chance of detection at a radar.
    pub base_p: Scalar,
}

/// The radar parameters of a table. The chance at a radar is fixed: the accepted
/// chance is a matter of judging routes and does not make radars see more.
pub fn radar_threat_params(d: &DefaultParams) -> (r: ThreatParams)
    ensures
        r == (ThreatParams {
            radar_inflation: d.radar_inflation,
            detection_curve: d.detection_curve,
            p_cross: d.p_cross,
            suppression_delta: d.suppression_delta,
            base_p: frac(1, 10),
        }),
{
    ThreatParams {
        radar_inflation: d.radar_inflation,
        detection_curve: d.detection_curve,
        p_cross: d.p_cross,
        suppression_delta: d.suppression_delta,
        base_p: ratio(1, 10),
    }
}

/// A parameter that was given but is not valid, so that its default holds.
#[derive(Clone, Copy, Debug, PartialEq, Eq, Structural)]
pub enum ParamFault {
    RadarInflation(Scalar),
    PCross(Scalar),
    SuppressionDelta(Scalar),
    RadarCostCoef(Scalar),
    LosMaskCoef(Scalar),
    DetectionCurve,
}

/// A fault where a value is given and is not valid.
pub open spec fn fault_if(faulty: bool, fault: ParamFault) -> Seq<ParamFault> {
    if faulty {
        seq![fault]
    } else {
        Seq::empty()
    }
}

/// The parameters of a request that are not valid.
pub open spec fn param_faults(o: ParamsOverride) -> Seq<ParamFault> {
    fault_if(
        o.radar_inflation is Some && !valid_inflation(o.radar_inflation->0),
        ParamFault::RadarInflation(o.radar_inflation->0),
    ) + fault_if(
        o.p_cross is Some && !valid_share(o.p_cross->0),
        ParamFault::PCross(o.p_cross->0),
    ) + fault_if(
        o.suppression_delta is Some && !valid_suppression(o.suppression_delta->0),
        ParamFault::SuppressionDelta(o.suppression_delta->0),
    ) + fault_if(
        o.radar_cost_coef is Some && !valid_coefficient(o.radar_cost_coef->0),
        ParamFault::RadarCostCoef(o.radar_cost_coef->0),
    ) + fault_if(
        o.los_mask_coef is Some && !valid_share(o.los_mask_coef->0),
        ParamFault::LosMaskCoef(o.los_mask_coef->0),
    ) + fault_if(
        o.detection_curve is Some && named_curve(o.detection_curve->0@) is None,
        ParamFault::DetectionCurve,
    )
}

fn is_share(v: Scalar) -> (r: bool)
    ensures
        r == valid_share(v),
{
    v.is_finite() && number(0).le(&v) && v.le(&number(1))
}

fn push_fault(out: &mut Vec<ParamFault>, fault: ParamFault)
    ensures
        final(out)@ == old(out)@ + seq![fault],
{
    out.push(fault);
}

/// The parameters of a request that are not valid and fall back to their defaults.
pub fn radar_param_degradations(o: &ParamsOverride) -> (r: Vec<ParamFault>)
    ensures
        r@ == param_faults(*o),
{
    let mut out: Vec<ParamFault> = Vec::new();
    if let Some(v) = o.radar_inflation {
        if !(v.is_finite() && number(1).lt(&v)) {
            push_fault(&mut out, ParamFault::RadarInflation(v));
        }
    }
    if let Some(v) = o.p_cross {
        if !is_share(v) {
            push_fault(&mut out, ParamFault::PCross(v));
        }
    }
    if let Some(v) = o.suppression_delta {
        if !(v.is_finite() && number(0).le(&v) && v.lt(&number(1))) {
            push_fault(&mut out, ParamFault::SuppressionDelta(v));
        }
    }
    if let Some(v) = o.radar_cost_coef {
        if !(v.is_finite() && number(0).lt(&v)) {
            push_fault(&mut out, ParamFault::RadarCostCoef(v));
        }
    }
    if let Some(v) = o.los_mask_coef {
        if !is_share(v) {
            push_fault(&mut out, ParamFault::LosMaskCoef(v));
        }
    }
    if let Some(s) = &o.detection_curve {
        if parse_curve(s.as_str()).is_none() {
            push_fault(&mut out, ParamFault::DetectionCurve);
        }
    }
    assert(out@ =~= param_faults(*o));
    out
}

/// Where no fault is reported, every override that is given is put in.
pub proof fn law_no_fault_means_all_taken(d: DefaultParams, o: ParamsOverride)
    requires
        param_faults(o).len() == 0,
    ensures
        o.radar_inflation is Some ==> d.merged(o).radar_inflation == o.radar_inflation->0,
        o.p_cross is Some ==> d.merged(o).p_cross == o.p_cross->0,
        o.suppression_delta is Some ==> d.merged(o).suppression_delta == o.suppression_delta->0,
        o.radar_cost_coef is Some ==> d.merged(o).radar_cost_coef == o.radar_cost_coef->0,
        o.los_mask_coef is Some ==> d.merged(o).los_mask_coef == o.los_mask_coef->0,
        o.detection_curve is Some ==> named_curve(o.detection_curve->0@) == Some(
            d.merged(o).detection_curve,
        ),
{
}

/// Whether two points of a route are in the same place, but for rounding.
pub open spec fn same_place(p: PathPoint, q: PathPoint) -> bool {
    let tiny = frac(1, 1_000_000_000_000);
    (p.lon - q.lon).magnitude() < tiny && (p.lat - q.lat).magnitude() < tiny
}

pub fn is_same_place(p: &PathPoint, q: &PathPoint) -> (r: bool)
    ensures
        r == same_place(*p, *q),
{
    let tiny: Scalar = ratio(1, 1_000_000_000_000);
    (p.lon - q.lon).abs().lt(&tiny) && (p.lat - q.lat).abs().lt(&tiny)
}

/// A route with a point put behind it, unless the route ends there.
pub open spec fn with_point(pts: Seq<PathPoint>, p: PathPoint) -> Seq<PathPoint> {
    if pts.len() > 0 && same_place(pts.last(), p) {
        pts
    } else {
        pts.push(p)
    }
}

pub fn push_point(pts: &mut Vec<PathPoint>, p: PathPoint)
    ensures
        final(pts)@ == with_point(old(pts)@, p),
{
    let n: usize = pts.len();
    if n > 0 && is_same_place(&pts[n - 1], &p) {
        return;
    }
    pts.push(p);
}

/// A route with the first `k` points of another put behind it.
pub open spec fn with_points(pts: Seq<PathPoint>, more: Seq<PathPoint>, k: int) -> Seq<PathPoint>
    decreases k,
{
    if k <= 0 {
        pts
    } else {
        with_point(with_points(pts, more, k - 1), more[k - 1])
    }
}

/// The first `k` routes one behind the other, a point that repeats the one
/// before it left out.
pub open spec fn joined(segs: Seq<Seq<PathPoint>>, k: int) -> Seq<PathPoint>
    decreases k,
{
    if k <= 0 {
        Seq::empty()
    } else {
        with_points(joined(segs, k - 1), segs[k - 1], segs[k - 1].len() as int)
    }
}

/// Puts routes one behind the other.
pub fn join_paths(segs: &Vec<Path>) -> (r: Path)
    ensures
        r@ == joined(part_views(segs@), segs@.len() as int),
{
    let mut pts: Vec<PathPoint> = Vec::new();
    let mut k: usize = 0;
    while k < segs.len()
        invariant
            k <= segs@.len(),
            pts@ == joined(part_views(segs@), k as int),
        decreases segs.len() - k,
    {
        let ghost before = pts@;
        let mut j: usize = 0;
        let n: usize = segs[k].points.len();
        while j < n
            invariant
                k < segs@.len(),
                n == segs@[k as int]@.len(),
                j <= n,
                pts@ == with_points(before, segs@[k as int]@, j as int),
            decreases n - j,
        {
            push_point(&mut pts, segs[k].points[j]);
            j = j + 1;
        }
        k = k + 1;
    }
    Path::new(pts)
}

proof fn lemma_with_points_kept(pts: Seq<PathPoint>, more: Seq<PathPoint>, k: int)
    requires
        0 <= k <= more.len(),
    ensures
        pts.len() <= with_points(pts, more, k).len(),
        forall|i: int| 0 <= i < pts.len() ==> with_points(pts, more, k)[i] == #[trigger] pts[i],
        forall|i: int|
            pts.len() <= i < with_points(pts, more, k).len() ==> more.contains(
                #[trigger] with_points(pts, more, k)[i],
            ),
    decreases k,
{
    if k > 0 {
        lemma_with_points_kept(pts, more, k - 1);
        let before = with_points(pts, more, k - 1);
        let after = with_points(pts, more, k);
        assert forall|i: int| pts.len() <= i < after.len() implies more.contains(
            #[trigger] after[i],
        ) by {
            if i < before.len() {
                assert(after[i] == before[i]);
            } else {
                assert(after[i] == more[k - 1]);
            }
        }
    }
}

/// Putting another route behind leaves what was joined before as it is.
pub proof fn law_joining_keeps_order(segs: Seq<Seq<PathPoint>>, k: int)
    requires
        0 < k <= segs.len(),
    ensures
        joined(segs, k - 1).is_prefix_of(joined(segs, k)),
{
    let before = joined(segs, k - 1);
    lemma_with_points_kept(before, segs[k - 1], segs[k - 1].len() as int);
    assert(before =~= joined(segs, k).subrange(0, before.len() as int));
}

/// Every point of the joined route is a point of one of the routes.
pub proof fn law_joined_points_are_given(segs: Seq<Seq<PathPoint>>, k: int, i: int)
    requires
        0 <= k <= segs.len(),
        0 <= i < joined(segs, k).len(),
    ensures
        exists|s: int|
            0 <= s < k && (#[trigger] segs[s]).contains(joined(segs, k)[i]),
    decreases k,
{
    if k > 0 {
        let before = joined(segs, k - 1);
        lemma_with_points_kept(before, segs[k - 1], segs[k - 1].len() as int);
        if i < before.len() {
            assert(joined(segs, k)[i] == before[i]);
            law_joined_points_are_given(segs, k - 1, i);
            let s = choose|s: int| 0 <= s < k - 1 && (#[trigger] segs[s]).contains(before[i]);
            assert(segs[s].contains(joined(segs, k)[i]));
        } else {
            assert(segs[k - 1].contains(joined(segs, k)[i]));
        }
    }
}

} // verus!
