//! Full verification of a route: turns, climbs, walls, bands, ground and
//! closeness to a reference.

use crate::arc::heading_of;
use crate::config::{AircraftType, Zone, ZoneShape};
use crate::coord::{legal_coordinate, Geo};
use crate::curves::{between, interpolate};
use crate::geometry::{degrees, hypotenuse, to_degrees};
use crate::numeric::{frac, number, ratio, whole};
use crate::options::{circle_radius, circumradius, LocalProjection, SmoothOptions};
use crate::oracle::{ask, image, is_function, Calc};
use crate::passage::{circle_span, infinity, sample_fraction, segment_circle_intersect_t};
use crate::path::{
    angle_diff_deg, angle_gap, bearing_deg, chord_distance_m, haversine_m, point_seg_distance_m,
    sphere_distance_m, Path, PathPoint,
};
use crate::scalar::{Scalar, INFINITY_BITS, SIGN_BIT};
use crate::terrain::Sample;
use crate::zone::{clearance_km, forbids_height, holds, zone_contains_at, zone_segment_clearance_km};
use vstd::prelude::*;

verus! {

/// Something that makes a route unacceptable.
#[derive(Clone, Copy, Debug)]
pub enum Issue {
    TooFewPoints,
    NonFinitePoint,
    /// A leg climbs or sinks too steeply, in degrees.
    Climb { segment: usize, climb_deg: Scalar, max_deg: Scalar },
    /// The route turns too sharply at a point, in degrees.
    Turn { vertex: usize, turn_deg: Scalar, max_deg: Scalar },
    /// The route turns too tightly at a point, in metres.
    Radius { vertex: usize, radius_m: Scalar, min_m: Scalar },
    /// A leg comes too close to a wall, in kilometres.
    WallClearance { segment: usize, clearance_km: Scalar, inflation_km: Scalar },
    /// A leg crosses a round zone inside its band.
    BandCrossed { segment: usize, at: Scalar, alt_m: Scalar },
    /// A sample lies in a zone inside its band.
    InBand { lon: Scalar, lat: Scalar, alt_m: Scalar },
    /// A sample lies in a no-fly circle.
    InNoFly { lon: Scalar, lat: Scalar },
    /// A sample is too low over land of the given height.
    TerrainClearance { lon: Scalar, lat: Scalar, above_m: Scalar, need_m: Scalar, terrain_m: Scalar },
    /// A sample is too low over water.
    WaterClearance { lon: Scalar, lat: Scalar, alt_m: Scalar, need_m: Scalar },
    /// A sample lies over forbidden ground.
    ForbiddenWall { lon: Scalar, lat: Scalar },
    /// A point lies too far from the reference, in metres.
    Chord { point: usize, distance_m: Scalar, tol_m: Scalar },
    /// The planned radius is below what the speed allows, in metres.
    SpeedRadius { radius_m: Scalar, phys_m: Scalar },
}

impl Issue {
    /// The kind of an issue in words.
    pub open spec fn phrase_text(self) -> Seq<char> {
        match self {
            Issue::TooFewPoints => "path has < 2 points"@,
            Issue::NonFinitePoint => "non-finite path point"@,
            Issue::Climb { .. } => "climb > max"@,
            Issue::Turn { .. } => "turn > max"@,
            Issue::Radius { .. } => "radius < min"@,
            Issue::WallClearance { .. } => "clearance < inflation (zone wall)"@,
            Issue::BandCrossed { .. } => "inside zone (alt band)"@,
            Issue::InBand { .. } => "sample inside zone (alt band)"@,
            Issue::InNoFly { .. } => "inside no-fly zone"@,
            Issue::TerrainClearance { .. } => "clearance (terrain)"@,
            Issue::WaterClearance { .. } => "water clearance"@,
            Issue::ForbiddenWall { .. } => "inside forbidden wall"@,
            Issue::Chord { .. } => "chord > tol"@,
            Issue::SpeedRadius { .. } => "r_min < phys min"@,
        }
    }

    pub fn phrase(&self) -> (s: &'static str)
        ensures
            s@ == self.phrase_text(),
    {
        match self {
            Issue::TooFewPoints => "path has < 2 points",
            Issue::NonFinitePoint => "non-finite path point",
            Issue::Climb { .. } => "climb > max",
            Issue::Turn { .. } => "turn > max",
            Issue::Radius { .. } => "radius < min",
            Issue::WallClearance { .. } => "clearance < inflation (zone wall)",
            Issue::BandCrossed { .. } => "inside zone (alt band)",
            Issue::InBand { .. } => "sample inside zone (alt band)",
            Issue::InNoFly { .. } => "inside no-fly zone",
            Issue::TerrainClearance { .. } => "clearance (terrain)",
            Issue::WaterClearance { .. } => "water clearance",
            Issue::ForbiddenWall { .. } => "inside forbidden wall",
            Issue::Chord { .. } => "chord > tol",
            Issue::SpeedRadius { .. } => "r_min < phys min",
        }
    }
}

/// Something worth knowing about a route that is still acceptable.
#[derive(Clone, Copy, Debug, PartialEq, Eq, Structural)]
pub enum Note {
    /// No height of the ground is known at a sample.
    NoData { lon: Scalar, lat: Scalar },
    /// A sample lies outside the terrain; told once for a route.
    OutOfTerrain { lon: Scalar, lat: Scalar },
    /// The chance of detection is above the threshold.
    DetectionOver { p: Scalar, threshold: Scalar },
    /// There is some chance of detection.
    DetectionSeen { p: Scalar, peak: Scalar },
}

impl Note {
    /// The kind of a note in words.
    pub open spec fn phrase_text(self) -> Seq<char> {
        match self {
            Note::NoData { .. } => "NoData terrain: clearance unknown (degraded)"@,
            Note::OutOfTerrain { .. } => "out of terrain bounds (degraded)"@,
            Note::DetectionOver { .. } => "radar: cumulative detection p > threshold"@,
            Note::DetectionSeen { .. } => "radar: cumulative detection p (peak)"@,
        }
    }

    pub fn phrase(&self) -> (s: &'static str)
        ensures
            s@ == self.phrase_text(),
    {
        match self {
            Note::NoData { .. } => "NoData terrain: clearance unknown (degraded)",
            Note::OutOfTerrain { .. } => "out of terrain bounds (degraded)",
            Note::DetectionOver { .. } => "radar: cumulative detection p > threshold",
            Note::DetectionSeen { .. } => "radar: cumulative detection p (peak)",
        }
    }
}

/// The result of verifying a route.
#[derive(Clone, Debug)]
pub struct VerifyReport {
    pub ok: bool,
    pub issues: Vec<Issue>,
    pub warnings: Vec<Note>,
}

/// What a route is verified against.
pub struct VerifyContext<'a, T: Fn((Scalar, Scalar)) -> Sample, N: Fn((Scalar, Scalar)) -> bool> {
    /// The ground.
    pub terrain: Option<&'a T>,
    /// Whether a place lies in a no-fly circle; asked only where no zones are given.
    pub nofly: Option<&'a N>,
    pub zones: Option<&'a Vec<Zone>>,
    /// Clearance to keep from walls, in metres.
    pub zone_inflation_m: Scalar,
}

impl<'a, T: Fn((Scalar, Scalar)) -> Sample, N: Fn((Scalar, Scalar)) -> bool> VerifyContext<'a, T, N> {
    /// The functions handed in give one answer to one question.
    pub open spec fn settled(self) -> bool {
        &&& self.terrain is Some ==> is_function(*self.terrain->0)
        &&& self.nofly is Some ==> is_function(*self.nofly->0)
    }
}

/// An issue where a condition holds, else nothing.
pub open spec fn when(holds: bool, issue: Issue) -> Seq<Issue> {
    if holds {
        seq![issue]
    } else {
        Seq::empty()
    }
}

/// The climb of leg `i`, seen from the middle of the route, in degrees; none on
/// a leg without horizontal length.
pub open spec fn climb_of<C: Fn(Calc) -> Scalar>(calc: C, pts: Seq<PathPoint>, i: int) -> Option<Scalar> {
    let mid = pts[pts.len() as int / 2];
    let proj = LocalProjection::round(calc, mid.lon, mid.lat);
    let a = proj.plane(pts[i - 1].lon, pts[i - 1].lat);
    let b = proj.plane(pts[i].lon, pts[i].lat);
    let horiz = hypotenuse(b.0 - a.0, b.1 - a.1);
    let dh = (pts[i].alt_m - pts[i - 1].alt_m).magnitude();
    if horiz > frac(1, 1_000_000_000) {
        Some(degrees(image(calc, Calc::Atan(dh / horiz))))
    } else {
        None
    }
}

/// The turn of the route at point `i`, in degrees.
pub open spec fn turn_of<C: Fn(Calc) -> Scalar>(calc: C, pts: Seq<PathPoint>, i: int) -> Scalar {
    angle_gap(heading_of(calc, pts[i - 1], pts[i]), heading_of(calc, pts[i], pts[i + 1])).magnitude()
}

/// The radius of the circle through point `i` and its neighbours, measured in
/// the plane round the three.
pub open spec fn radius_of<C: Fn(Calc) -> Scalar>(calc: C, pts: Seq<PathPoint>, i: int) -> Option<Scalar> {
    let (p0, p1, p2) = (pts[i - 1], pts[i], pts[i + 1]);
    let lp = LocalProjection::round(
        calc,
        (p0.lon + p1.lon + p2.lon) / whole(3),
        (p0.lat + p1.lat + p2.lat) / whole(3),
    );
    circle_radius(lp.plane(p0.lon, p0.lat), lp.plane(p1.lon, p1.lat), lp.plane(p2.lon, p2.lat))
}

/// What is wrong with the climb of leg `i` and the turn at point `i`.
pub open spec fn motion_issues<C: Fn(Calc) -> Scalar>(
    calc: C,
    pts: Seq<PathPoint>,
    opts: SmoothOptions,
    i: int,
) -> Seq<Issue> {
    let climb = climb_of(calc, pts, i);
    let climbs = when(
        climb is Some && climb->0 > opts.max_climb_deg,
        Issue::Climb { segment: i as usize, climb_deg: climb->0, max_deg: opts.max_climb_deg },
    );
    if i + 1 < pts.len() {
        let turn = turn_of(calc, pts, i);
        let radius = radius_of(calc, pts, i);
        climbs + when(
            turn > opts.max_turn_deg,
            Issue::Turn { vertex: i as usize, turn_deg: turn, max_deg: opts.max_turn_deg },
        ) + when(
            radius is Some && radius->0 < opts.turn_radius_m * frac(99, 100),
            Issue::Radius { vertex: i as usize, radius_m: radius->0, min_m: opts.turn_radius_m },
        )
    } else {
        climbs
    }
}

/// What is wrong with the motion along the first `k` legs. Only a fixed wing is
/// bound by it; a rotorcraft hovers and turns on the spot.
pub open spec fn all_motion_issues<C: Fn(Calc) -> Scalar>(
    calc: C,
    pts: Seq<PathPoint>,
    opts: SmoothOptions,
    k: int,
) -> Seq<Issue>
    decreases k,
{
    if k <= 1 || opts.aircraft_type != AircraftType::FixedWing {
        Seq::empty()
    } else {
        all_motion_issues(calc, pts, opts, k - 1) + motion_issues(calc, pts, opts, k - 1)
    }
}

fn find_climb<C: Fn(Calc) -> Scalar>(pts: &Vec<PathPoint>, i: usize, calc: &C) -> (r: Option<Scalar>)
    requires
        is_function(*calc),
        1 <= i < pts@.len(),
    ensures
        r == climb_of(*calc, pts@, i as int),
{
    let mid: PathPoint = pts[pts.len() / 2];
    let proj: LocalProjection = LocalProjection::new(mid.lon, mid.lat, calc);
    let a: (Scalar, Scalar) = proj.to_xy(pts[i - 1].lon, pts[i - 1].lat);
    let b: (Scalar, Scalar) = proj.to_xy(pts[i].lon, pts[i].lat);
    let dx: Scalar = b.0 - a.0;
    let dy: Scalar = b.1 - a.1;
    let horiz: Scalar = (dx * dx + dy * dy).sqrt();
    let dh: Scalar = (pts[i].alt_m - pts[i - 1].alt_m).abs();
    if ratio(1, 1_000_000_000).lt(&horiz) {
        Some(to_degrees(ask(calc, Calc::Atan(dh / horiz))))
    } else {
        None
    }
}

fn find_radius<C: Fn(Calc) -> Scalar>(pts: &Vec<PathPoint>, i: usize, calc: &C) -> (r: Option<Scalar>)
    requires
        is_function(*calc),
        1 <= i,
        i + 1 < pts@.len(),
    ensures
        r == radius_of(*calc, pts@, i as int),
{
    assert(pts.len() == pts@.len());
    let p0: PathPoint = pts[i - 1];
    let p1: PathPoint = pts[i];
    let p2: PathPoint = pts[i + 1];
    let lp: LocalProjection = LocalProjection::new(
        (p0.lon + p1.lon + p2.lon) / number(3),
        (p0.lat + p1.lat + p2.lat) / number(3),
        calc,
    );
    circumradius(lp.to_xy(p0.lon, p0.lat), lp.to_xy(p1.lon, p1.lat), lp.to_xy(p2.lon, p2.lat))
}

fn check_motion_at<C: Fn(Calc) -> Scalar>(
    pts: &Vec<PathPoint>,
    opts: &SmoothOptions,
    i: usize,
    issues: &mut Vec<Issue>,
    calc: &C,
)
    requires
        is_function(*calc),
        1 <= i < pts@.len(),
    ensures
        final(issues)@ == old(issues)@ + motion_issues(*calc, pts@, *opts, i as int),
{
    let ghost before = issues@;
    let n: usize = pts.len();
    let climb: Option<Scalar> = find_climb(pts, i, calc);
    if let Some(climb_deg) = climb {
        if opts.max_climb_deg.lt(&climb_deg) {
            issues.push(Issue::Climb { segment: i, climb_deg, max_deg: opts.max_climb_deg });
        }
    }
    let ghost climbs = when(
        climb is Some && climb->0 > opts.max_climb_deg,
        Issue::Climb { segment: i, climb_deg: climb->0, max_deg: opts.max_climb_deg },
    );
    assert(issues@ =~= before + climbs);
    if i < n - 1 {
        let a: PathPoint = pts[i - 1];
        let b: PathPoint = pts[i];
        let c: PathPoint = pts[i + 1];
        let h0: Scalar = bearing_deg(a.lon, a.lat, b.lon, b.lat, calc);
        let h1: Scalar = bearing_deg(b.lon, b.lat, c.lon, c.lat, calc);
        let turn_deg: Scalar = angle_diff_deg(h0, h1).abs();
        if opts.max_turn_deg.lt(&turn_deg) {
            issues.push(Issue::Turn { vertex: i, turn_deg, max_deg: opts.max_turn_deg });
        }
        let ghost turns = when(
            turn_deg > opts.max_turn_deg,
            Issue::Turn { vertex: i, turn_deg, max_deg: opts.max_turn_deg },
        );
        assert(issues@ =~= before + climbs + turns);
        let radius: Option<Scalar> = find_radius(pts, i, calc);
        if let Some(radius_m) = radius {
            if radius_m.lt(&(opts.turn_radius_m * ratio(99, 100))) {
                issues.push(Issue::Radius { vertex: i, radius_m, min_m: opts.turn_radius_m });
            }
        }
        assert(issues@ =~= before + motion_issues(*calc, pts@, *opts, i as int));
    }
}

fn check_motion<C: Fn(Calc) -> Scalar>(
    pts: &Vec<PathPoint>,
    opts: &SmoothOptions,
    issues: &mut Vec<Issue>,
    calc: &C,
)
    requires
        is_function(*calc),
        pts@.len() >= 1,
    ensures
        final(issues)@ == old(issues)@ + all_motion_issues(
            *calc,
            pts@,
            *opts,
            pts@.len() as int,
        ),
{
    let n: usize = pts.len();
    let ghost before = issues@;
    let fixed_wing: bool = opts.aircraft_type == AircraftType::FixedWing;
    if !fixed_wing {
        assert(issues@ =~= before + all_motion_issues(*calc, pts@, *opts, n as int));
        return;
    }
    let mut i: usize = 1;
    assert(issues@ =~= before + all_motion_issues(*calc, pts@, *opts, 1));
    while i < n
        invariant
            is_function(*calc),
            opts.aircraft_type == AircraftType::FixedWing,
            n == pts@.len(),
            1 <= i <= n,
            issues@ == before + all_motion_issues(*calc, pts@, *opts, i as int),
        decreases n - i,
    {
        check_motion_at(pts, opts, i, issues, calc);
        i = i + 1;
        proof {
            assert(issues@ =~= before + all_motion_issues(*calc, pts@, *opts, i as int));
        }
    }
}

/// How many pieces a leg is sampled in: one for every 200 metres begun, at least
/// the number asked for and at least two.
pub open spec fn leg_pieces(length_m: Scalar, opts: SmoothOptions) -> int {
    let x = length_m / whole(200);
    let up = if x.nan() || x.negative() {
        0
    } else if x.infinite() || x.ceil_value() > SIGN_BIT {
        SIGN_BIT as int
    } else {
        x.ceil_value()
    };
    let least = if opts.verify_seg_samples < 2 {
        2int
    } else {
        opts.verify_seg_samples as int
    };
    if up < least {
        least
    } else {
        up
    }
}

fn count_pieces(length_m: Scalar, opts: &SmoothOptions) -> (r: u64)
    ensures
        r == leg_pieces(length_m, *opts),
{
    let up: u64 = (length_m / number(200)).ceil_u64();
    let least: u64 = if opts.verify_seg_samples < 2 {
        2
    } else {
        opts.verify_seg_samples as u64
    };
    if up < least {
        least
    } else {
        up
    }
}

/// What is wrong with the distance of leg `i` from a zone that is a wall: any
/// contact, or less than the clearance.
pub open spec fn wall_issue<C: Fn(Calc) -> Scalar>(
    calc: C,
    a: PathPoint,
    b: PathPoint,
    i: int,
    z: Zone,
    inflation_km: Scalar,
) -> Seq<Issue> {
    let clr = clearance_km(calc, a.lon, a.lat, b.lon, b.lat, z);
    when(
        z.wall() && (clr <= frac(1, 1_000_000_000) || clr < inflation_km),
        Issue::WallClearance { segment: i as usize, clearance_km: clr, inflation_km },
    )
}

/// What is wrong with the distance of leg `i` from the first `k` zones.
pub open spec fn wall_issues<C: Fn(Calc) -> Scalar>(
    calc: C,
    a: PathPoint,
    b: PathPoint,
    i: int,
    zones: Seq<Zone>,
    inflation_km: Scalar,
    k: int,
) -> Seq<Issue>
    decreases k,
{
    if k <= 0 {
        Seq::empty()
    } else {
        wall_issues(calc, a, b, i, zones, inflation_km, k - 1) + wall_issue(
            calc,
            a,
            b,
            i,
            zones[k - 1],
            inflation_km,
        )
    }
}

fn check_walls<C: Fn(Calc) -> Scalar>(
    a: &PathPoint,
    b: &PathPoint,
    i: usize,
    zones: &Vec<Zone>,
    inflation_km: Scalar,
    issues: &mut Vec<Issue>,
    calc: &C,
)
    requires
        is_function(*calc),
    ensures
        final(issues)@ == old(issues)@ + wall_issues(
            *calc,
            *a,
            *b,
            i as int,
            zones@,
            inflation_km,
            zones@.len() as int,
        ),
{
    let ghost before = issues@;
    let mut k: usize = 0;
    assert(issues@ =~= before + wall_issues(*calc, *a, *b, i as int, zones@, inflation_km, 0));
    while k < zones.len()
        invariant
            is_function(*calc),
            k <= zones@.len(),
            issues@ == before + wall_issues(
                *calc,
                *a,
                *b,
                i as int,
                zones@,
                inflation_km,
                k as int,
            ),
        decreases zones.len() - k,
    {
        if zones[k].is_wall() {
            let clr: Scalar = zone_segment_clearance_km(a.lon, a.lat, b.lon, b.lat, &zones[k], calc);
            if clr.le(&ratio(1, 1_000_000_000)) || clr.lt(&inflation_km) {
                issues.push(Issue::WallClearance { segment: i, clearance_km: clr, inflation_km });
            }
        }
        k = k + 1;
        proof {
            assert(issues@ =~= before + wall_issues(
                *calc,
                *a,
                *b,
                i as int,
                zones@,
                inflation_km,
                k as int,
            ));
        }
    }
}

/// Whether a point of a route lies in a zone at a height that the zone forbids;
/// an illegal place lies in none.
pub open spec fn in_band<C: Fn(Calc) -> Scalar>(calc: C, p: PathPoint, z: Zone) -> bool {
    legal_coordinate(p.lon, p.lat) && holds(calc, z, Geo { lon: p.lon, lat: p.lat }) && (z.wall()
        || forbids_height(z, p.alt_m))
}

pub fn is_in_band<C: Fn(Calc) -> Scalar>(p: &PathPoint, z: &Zone, calc: &C) -> (r: bool)
    requires
        is_function(*calc),
    ensures
        r == in_band(*calc, *p, *z),
{
    match Geo::new(p.lon, p.lat) {
        Ok(g) => zone_contains_at(z, &g, p.alt_m, calc),
        Err(_) => false,
    }
}

/// The first of the nine samples from number `k` on, across a span of a leg, at
/// which the leg is in a band: its fraction of the leg and its height.
pub open spec fn first_in_band<C: Fn(Calc) -> Scalar>(
    calc: C,
    a: PathPoint,
    b: PathPoint,
    z: Zone,
    span: (Scalar, Scalar),
    k: int,
) -> Option<(Scalar, Scalar)>
    decreases 9 - k,
{
    if k > 8 {
        None
    } else {
        let t = sample_fraction(span.0, span.1, k, 8);
        let p = between(a, b, t);
        if in_band(calc, p, z) {
            Some((t, p.alt_m))
        } else {
            first_in_band(calc, a, b, z, span, k + 1)
        }
    }
}

fn find_in_band<C: Fn(Calc) -> Scalar>(
    a: &PathPoint,
    b: &PathPoint,
    z: &Zone,
    span: (Scalar, Scalar),
    calc: &C,
) -> (r: Option<(Scalar, Scalar)>)
    requires
        is_function(*calc),
    ensures
        r == first_in_band(*calc, *a, *b, *z, span, 0),
{
    let mut k: u64 = 0;
    while k <= 8
        invariant
            is_function(*calc),
            k <= 9,
            first_in_band(*calc, *a, *b, *z, span, 0) == first_in_band(
                *calc,
                *a,
                *b,
                *z,
                span,
                k as int,
            ),
        decreases 9 - k,
    {
        let t: Scalar = span.0 + (span.1 - span.0) * number(k) / number(8);
        let p: PathPoint = interpolate(a, b, t);
        if is_in_band(&p, z, calc) {
            return Some((t, p.alt_m));
        }
        k = k + 1;
    }
    None
}

/// What is wrong with the way of leg `i` through a round zone that is no wall.
pub open spec fn band_issue<C: Fn(Calc) -> Scalar>(
    calc: C,
    a: PathPoint,
    b: PathPoint,
    i: int,
    z: Zone,
) -> Seq<Issue> {
    match z.shape {
        ZoneShape::Polygon { .. } => Seq::empty(),
        ZoneShape::Circle { center, radius_km } => {
            let span = circle_span(
                calc,
                a.lon,
                a.lat,
                b.lon,
                b.lat,
                center[0],
                center[1],
                radius_km,
            );
            if z.wall() || span is None {
                Seq::empty()
            } else {
                match first_in_band(calc, a, b, z, span->0, 0) {
                    None => Seq::empty(),
                    Some((at, alt_m)) => seq![
                        Issue::BandCrossed { segment: i as usize, at, alt_m },
                    ],
                }
            }
        },
    }
}

/// What is wrong with the way of leg `i` through the first `k` zones.
pub open spec fn band_issues<C: Fn(Calc) -> Scalar>(
    calc: C,
    a: PathPoint,
    b: PathPoint,
    i: int,
    zones: Seq<Zone>,
    k: int,
) -> Seq<Issue>
    decreases k,
{
    if k <= 0 {
        Seq::empty()
    } else {
        band_issues(calc, a, b, i, zones, k - 1) + band_issue(calc, a, b, i, zones[k - 1])
    }
}

fn find_band_issue<C: Fn(Calc) -> Scalar>(
    a: &PathPoint,
    b: &PathPoint,
    i: usize,
    z: &Zone,
    calc: &C,
) -> (r: Option<Issue>)
    requires
        is_function(*calc),
    ensures
        r is None ==> band_issue(*calc, *a, *b, i as int, *z) == Seq::<Issue>::empty(),
        r is Some ==> band_issue(*calc, *a, *b, i as int, *z) == seq![r->0],
{
    if z.is_wall() {
        return None;
    }
    match &z.shape {
        ZoneShape::Polygon { .. } => None,
        ZoneShape::Circle { center, radius_km } => {
            match segment_circle_intersect_t(
                a.lon,
                a.lat,
                b.lon,
                b.lat,
                center[0],
                center[1],
                *radius_km,
                calc,
            ) {
                None => None,
                Some(span) => match find_in_band(a, b, z, span, calc) {
                    None => None,
                    Some((at, alt_m)) => Some(Issue::BandCrossed { segment: i, at, alt_m }),
                },
            }
        },
    }
}

fn check_bands<C: Fn(Calc) -> Scalar>(
    a: &PathPoint,
    b: &PathPoint,
    i: usize,
    zones: &Vec<Zone>,
    issues: &mut Vec<Issue>,
    calc: &C,
)
    requires
        is_function(*calc),
    ensures
        final(issues)@ == old(issues)@ + band_issues(
            *calc,
            *a,
            *b,
            i as int,
            zones@,
            zones@.len() as int,
        ),
{
    let ghost before = issues@;
    let mut k: usize = 0;
    assert(issues@ =~= before + band_issues(*calc, *a, *b, i as int, zones@, 0));
    while k < zones.len()
        invariant
            is_function(*calc),
            k <= zones@.len(),
            issues@ == before + band_issues(*calc, *a, *b, i as int, zones@, k as int),
        decreases zones.len() - k,
    {
        let found: Option<Issue> = find_band_issue(a, b, i, &zones[k], calc);
        if let Some(issue) = found {
            issues.push(issue);
        }
        k = k + 1;
        proof {
            assert(issues@ =~= before + band_issues(*calc, *a, *b, i as int, zones@, k as int));
        }
    }
}

/// Whether a sample lies in the band of some zone that is no wall.
pub open spec fn in_some_band<C: Fn(Calc) -> Scalar>(calc: C, p: PathPoint, zones: Seq<Zone>) -> bool {
    exists|k: int|
        0 <= k < zones.len() && !(#[trigger] zones[k]).wall() && in_band(calc, p, zones[k])
}

fn is_in_some_band<C: Fn(Calc) -> Scalar>(p: &PathPoint, zones: &Vec<Zone>, calc: &C) -> (r: bool)
    requires
        is_function(*calc),
    ensures
        r == in_some_band(*calc, *p, zones@),
{
    let mut k: usize = 0;
    while k < zones.len()
        invariant
            is_function(*calc),
            k <= zones@.len(),
            forall|j: int|
                0 <= j < k ==> (#[trigger] zones@[j]).wall() || !in_band(*calc, *p, zones@[j]),
        decreases zones.len() - k,
    {
        if !zones[k].is_wall() && is_in_band(p, &zones[k], calc) {
            assert(!zones@[k as int].wall());
            return true;
        }
        k = k + 1;
    }
    false
}

/// What is wrong with where a sample lies.
pub open spec fn place_issue<
    C: Fn(Calc) -> Scalar,
    T: Fn((Scalar, Scalar)) -> Sample,
    N: Fn((Scalar, Scalar)) -> bool,
>(calc: C, ctx: VerifyContext<T, N>, p: PathPoint) -> Seq<Issue> {
    if ctx.zones is Some {
        when(
            in_some_band(calc, p, ctx.zones->0@),
            Issue::InBand { lon: p.lon, lat: p.lat, alt_m: p.alt_m },
        )
    } else {
        when(
            ctx.nofly is Some && image(*ctx.nofly->0, (p.lon, p.lat)),
            Issue::InNoFly { lon: p.lon, lat: p.lat },
        )
    }
}

/// What is wrong with the height of a sample over the ground below it. Where no
/// height of the ground is known, nothing is.
pub open spec fn ground_issue(p: PathPoint, ground: Sample, clearance_m: Scalar) -> Seq<Issue> {
    match ground {
        Sample::Land(h) => when(
            p.alt_m < h + clearance_m,
            Issue::TerrainClearance {
                lon: p.lon,
                lat: p.lat,
                above_m: p.alt_m - h,
                need_m: clearance_m,
                terrain_m: h,
            },
        ),
        Sample::Water | Sample::Lake(_) => when(
            p.alt_m < clearance_m,
            Issue::WaterClearance { lon: p.lon, lat: p.lat, alt_m: p.alt_m, need_m: clearance_m },
        ),
        Sample::Forbidden => seq![Issue::ForbiddenWall { lon: p.lon, lat: p.lat }],
        Sample::NoData | Sample::OutOfBounds => Seq::empty(),
    }
}

/// Whether it was told that the route leaves the terrain.
pub open spec fn told_outside(notes: Seq<Note>) -> bool {
    exists|k: int| 0 <= k < notes.len() && (#[trigger] notes[k]) is OutOfTerrain
}

/// The notes after a sample over the given ground.
pub open spec fn noted(notes: Seq<Note>, p: PathPoint, ground: Sample) -> Seq<Note> {
    match ground {
        Sample::NoData => notes.push(Note::NoData { lon: p.lon, lat: p.lat }),
        Sample::OutOfBounds => if told_outside(notes) {
            notes
        } else {
            notes.push(Note::OutOfTerrain { lon: p.lon, lat: p.lat })
        },
        _ => notes,
    }
}

/// Issues and notes in the order in which they are found.
pub ghost struct Findings {
    pub issues: Seq<Issue>,
    pub notes: Seq<Note>,
}

/// What is known of a route after one more sample.
pub open spec fn after_sample<
    C: Fn(Calc) -> Scalar,
    T: Fn((Scalar, Scalar)) -> Sample,
    N: Fn((Scalar, Scalar)) -> bool,
>(
    calc: C,
    ctx: VerifyContext<T, N>,
    opts: SmoothOptions,
    p: PathPoint,
    known: Findings,
) -> Findings {
    let here = known.issues + place_issue(calc, ctx, p);
    if ctx.terrain is Some {
        let ground = image(*ctx.terrain->0, (p.lon, p.lat));
        Findings {
            issues: here + ground_issue(p, ground, opts.clearance_m),
            notes: noted(known.notes, p, ground),
        }
    } else {
        Findings { issues: here, notes: known.notes }
    }
}

fn check_ground(
    p: &PathPoint,
    ground: Sample,
    clearance_m: Scalar,
    issues: &mut Vec<Issue>,
    notes: &mut Vec<Note>,
    outside: &mut bool,
)
    requires
        *old(outside) == told_outside(old(notes)@),
    ensures
        final(issues)@ == old(issues)@ + ground_issue(*p, ground, clearance_m),
        final(notes)@ == noted(old(notes)@, *p, ground),
        *final(outside) == told_outside(final(notes)@),
{
    let ghost before = issues@;
    let ghost told = notes@;
    match ground {
        Sample::Land(h) => {
            if p.alt_m.lt(&(h + clearance_m)) {
                issues.push(
                    Issue::TerrainClearance {
                        lon: p.lon,
                        lat: p.lat,
                        above_m: p.alt_m - h,
                        need_m: clearance_m,
                        terrain_m: h,
                    },
                );
            }
        },
        Sample::Water | Sample::Lake(_) => {
            if p.alt_m.lt(&clearance_m) {
                issues.push(
                    Issue::WaterClearance {
                        lon: p.lon,
                        lat: p.lat,
                        alt_m: p.alt_m,
                        need_m: clearance_m,
                    },
                );
            }
        },
        Sample::NoData => {
            notes.push(Note::NoData { lon: p.lon, lat: p.lat });
            proof {
                if told_outside(told) {
                    let k = choose|k: int| 0 <= k < told.len() && (#[trigger] told[k]) is OutOfTerrain;
                    assert(notes@[k] is OutOfTerrain);
                } else {
                    assert(forall|k: int|
                        0 <= k < told.len() ==> #[trigger] notes@[k] == told[k]);
                }
            }
        },
        Sample::OutOfBounds => {
            if !*outside {
                *outside = true;
                notes.push(Note::OutOfTerrain { lon: p.lon, lat: p.lat });
                assert(notes@[told.len() as int] is OutOfTerrain);
            }
        },
        Sample::Forbidden => {
            issues.push(Issue::ForbiddenWall { lon: p.lon, lat: p.lat });
        },
    }
    assert(issues@ =~= before + ground_issue(*p, ground, clearance_m));
}

fn check_sample<
    'a,
    C: Fn(Calc) -> Scalar,
    T: Fn((Scalar, Scalar)) -> Sample,
    N: Fn((Scalar, Scalar)) -> bool,
>(
    p: &PathPoint,
    opts: &SmoothOptions,
    ctx: &VerifyContext<'a, T, N>,
    issues: &mut Vec<Issue>,
    notes: &mut Vec<Note>,
    outside: &mut bool,
    calc: &C,
)
    requires
        is_function(*calc),
        ctx.settled(),
        *old(outside) == told_outside(old(notes)@),
    ensures
        (Findings { issues: final(issues)@, notes: final(notes)@ }) == after_sample(
            *calc,
            *ctx,
            *opts,
            *p,
            Findings { issues: old(issues)@, notes: old(notes)@ },
        ),
        *final(outside) == told_outside(final(notes)@),
{
    let ghost before = issues@;
    match ctx.zones {
        Some(zones) => {
            if is_in_some_band(p, zones, calc) {
                issues.push(Issue::InBand { lon: p.lon, lat: p.lat, alt_m: p.alt_m });
            }
        },
        None => {
            if let Some(nofly) = ctx.nofly {
                if ask(nofly, (p.lon, p.lat)) {
                    issues.push(Issue::InNoFly { lon: p.lon, lat: p.lat });
                }
            }
        },
    }
    assert(issues@ =~= before + place_issue(*calc, *ctx, *p));
    if let Some(terrain) = ctx.terrain {
        let ground: Sample = ask(terrain, (p.lon, p.lat));
        check_ground(p, ground, opts.clearance_m, issues, notes, outside);
    }
}

/// What is known of a route after the first `k` samples of a leg.
pub open spec fn after_samples<
    C: Fn(Calc) -> Scalar,
    T: Fn((Scalar, Scalar)) -> Sample,
    N: Fn((Scalar, Scalar)) -> bool,
>(
    calc: C,
    ctx: VerifyContext<T, N>,
    opts: SmoothOptions,
    a: PathPoint,
    b: PathPoint,
    pieces: int,
    known: Findings,
    k: int,
) -> Findings
    decreases k,
{
    if k <= 0 {
        known
    } else {
        after_sample(
            calc,
            ctx,
            opts,
            between(a, b, whole(k - 1) / whole(pieces)),
            after_samples(calc, ctx, opts, a, b, pieces, known, k - 1),
        )
    }
}

fn check_samples<
    'a,
    C: Fn(Calc) -> Scalar,
    T: Fn((Scalar, Scalar)) -> Sample,
    N: Fn((Scalar, Scalar)) -> bool,
>(
    a: &PathPoint,
    b: &PathPoint,
    pieces: u64,
    opts: &SmoothOptions,
    ctx: &VerifyContext<'a, T, N>,
    issues: &mut Vec<Issue>,
    notes: &mut Vec<Note>,
    outside: &mut bool,
    calc: &C,
)
    requires
        is_function(*calc),
        ctx.settled(),
        *old(outside) == told_outside(old(notes)@),
    ensures
        (Findings { issues: final(issues)@, notes: final(notes)@ }) == after_samples(
            *calc,
            *ctx,
            *opts,
            *a,
            *b,
            pieces as int,
            Findings { issues: old(issues)@, notes: old(notes)@ },
            pieces + 1,
        ),
        *final(outside) == told_outside(final(notes)@),
{
    let ghost known = Findings { issues: issues@, notes: notes@ };
    let mut k: u64 = 0;
    while k < pieces
        invariant
            is_function(*calc),
            ctx.settled(),
            k <= pieces,
            (Findings { issues: issues@, notes: notes@ }) == after_samples(
                *calc,
                *ctx,
                *opts,
                *a,
                *b,
                pieces as int,
                known,
                k as int,
            ),
            *outside == told_outside(notes@),
        decreases pieces - k,
    {
        let p: PathPoint = interpolate(a, b, number(k) / number(pieces));
        check_sample(&p, opts, ctx, issues, notes, outside, calc);
        k = k + 1;
    }
    let p: PathPoint = interpolate(a, b, number(pieces) / number(pieces));
    check_sample(&p, opts, ctx, issues, notes, outside, calc);
}

/// What is known of a route after leg `i`, which ends at point `i`.
pub open spec fn after_leg<
    C: Fn(Calc) -> Scalar,
    T: Fn((Scalar, Scalar)) -> Sample,
    N: Fn((Scalar, Scalar)) -> bool,
>(
    calc: C,
    ctx: VerifyContext<T, N>,
    opts: SmoothOptions,
    pts: Seq<PathPoint>,
    i: int,
    known: Findings,
) -> Findings {
    let (a, b) = (pts[i - 1], pts[i]);
    let inflation_km = ctx.zone_inflation_m / whole(1000);
    let pieces = leg_pieces(sphere_distance_m(calc, a.lon, a.lat, b.lon, b.lat), opts);
    let crossed = if ctx.zones is Some {
        let zones = ctx.zones->0@;
        known.issues + wall_issues(calc, a, b, i, zones, inflation_km, zones.len() as int)
            + band_issues(calc, a, b, i, zones, zones.len() as int)
    } else {
        known.issues
    };
    after_samples(
        calc,
        ctx,
        opts,
        a,
        b,
        pieces,
        Findings { issues: crossed, notes: known.notes },
        pieces + 1,
    )
}

fn check_leg<
    'a,
    C: Fn(Calc) -> Scalar,
    T: Fn((Scalar, Scalar)) -> Sample,
    N: Fn((Scalar, Scalar)) -> bool,
>(
    pts: &Vec<PathPoint>,
    i: usize,
    opts: &SmoothOptions,
    ctx: &VerifyContext<'a, T, N>,
    issues: &mut Vec<Issue>,
    notes: &mut Vec<Note>,
    outside: &mut bool,
    calc: &C,
)
    requires
        is_function(*calc),
        ctx.settled(),
        1 <= i < pts@.len(),
        *old(outside) == told_outside(old(notes)@),
    ensures
        (Findings { issues: final(issues)@, notes: final(notes)@ }) == after_leg(
            *calc,
            *ctx,
            *opts,
            pts@,
            i as int,
            Findings { issues: old(issues)@, notes: old(notes)@ },
        ),
        *final(outside) == told_outside(final(notes)@),
{
    let a: PathPoint = pts[i - 1];
    let b: PathPoint = pts[i];
    let inflation_km: Scalar = ctx.zone_inflation_m / number(1000);
    let pieces: u64 = count_pieces(haversine_m(a.lon, a.lat, b.lon, b.lat, calc), opts);
    if let Some(zones) = ctx.zones {
        check_walls(&a, &b, i, zones, inflation_km, issues, calc);
        check_bands(&a, &b, i, zones, issues, calc);
    }
    check_samples(&a, &b, pieces, opts, ctx, issues, notes, outside, calc);
}

/// What is known of a route after its first `k` points.
pub open spec fn after_legs<
    C: Fn(Calc) -> Scalar,
    T: Fn((Scalar, Scalar)) -> Sample,
    N: Fn((Scalar, Scalar)) -> bool,
>(
    calc: C,
    ctx: VerifyContext<T, N>,
    opts: SmoothOptions,
    pts: Seq<PathPoint>,
    known: Findings,
    k: int,
) -> Findings
    decreases k,
{
    if k <= 1 {
        known
    } else {
        after_leg(calc, ctx, opts, pts, k - 1, after_legs(calc, ctx, opts, pts, known, k - 1))
    }
}

/// Distance in metres from a point to the nearest of the first `k` legs of a
/// reference; without end if there is none.
pub open spec fn off_reference_m<C: Fn(Calc) -> Scalar>(
    calc: C,
    p: PathPoint,
    reference: Seq<PathPoint>,
    k: int,
) -> Scalar
    decreases k,
{
    if k <= 0 {
        infinity()
    } else {
        let nearest = off_reference_m(calc, p, reference, k - 1);
        let (u, v) = (reference[k - 1], reference[k]);
        let d = chord_distance_m(calc, p.lon, p.lat, u.lon, u.lat, v.lon, v.lat);
        if d < nearest {
            d
        } else {
            nearest
        }
    }
}

fn measure_off_reference<C: Fn(Calc) -> Scalar>(
    p: &PathPoint,
    reference: &Vec<PathPoint>,
    calc: &C,
) -> (r: Scalar)
    requires
        is_function(*calc),
    ensures
        r == off_reference_m(*calc, *p, reference@, reference@.len() - 1),
{
    let n: usize = reference.len();
    let mut nearest: Scalar = Scalar { bits: INFINITY_BITS };
    if n < 2 {
        return nearest;
    }
    let mut k: usize = 0;
    while k < n - 1
        invariant
            is_function(*calc),
            n == reference@.len(),
            n >= 2,
            k <= n - 1,
            nearest == off_reference_m(*calc, *p, reference@, k as int),
        decreases n - k,
    {
        let u: PathPoint = reference[k];
        let v: PathPoint = reference[k + 1];
        let d: Scalar = point_seg_distance_m(p.lon, p.lat, u.lon, u.lat, v.lon, v.lat, calc);
        if d.lt(&nearest) {
            nearest = d;
        }
        k = k + 1;
    }
    nearest
}

/// Which of the first `k` points lie too far from the reference.
pub open spec fn chord_issues<C: Fn(Calc) -> Scalar>(
    calc: C,
    pts: Seq<PathPoint>,
    reference: Seq<PathPoint>,
    tol_m: Scalar,
    k: int,
) -> Seq<Issue>
    decreases k,
{
    if k <= 0 {
        Seq::empty()
    } else {
        let d = off_reference_m(calc, pts[k - 1], reference, reference.len() - 1);
        chord_issues(calc, pts, reference, tol_m, k - 1) + when(
            d > tol_m,
            Issue::Chord { point: (k - 1) as usize, distance_m: d, tol_m },
        )
    }
}

fn check_chord<C: Fn(Calc) -> Scalar>(
    pts: &Vec<PathPoint>,
    reference: &Vec<PathPoint>,
    tol_m: Scalar,
    issues: &mut Vec<Issue>,
    calc: &C,
)
    requires
        is_function(*calc),
    ensures
        final(issues)@ == old(issues)@ + chord_issues(
            *calc,
            pts@,
            reference@,
            tol_m,
            pts@.len() as int,
        ),
{
    let ghost before = issues@;
    let mut k: usize = 0;
    assert(issues@ =~= before + chord_issues(*calc, pts@, reference@, tol_m, 0));
    while k < pts.len()
        invariant
            is_function(*calc),
            k <= pts@.len(),
            issues@ == before + chord_issues(*calc, pts@, reference@, tol_m, k as int),
        decreases pts.len() - k,
    {
        let d: Scalar = measure_off_reference(&pts[k], reference, calc);
        if tol_m.lt(&d) {
            issues.push(Issue::Chord { point: k, distance_m: d, tol_m });
        }
        k = k + 1;
        proof {
            assert(issues@ =~= before + chord_issues(*calc, pts@, reference@, tol_m, k as int));
        }
    }
}

/// Whether all points of a route are finite.
pub open spec fn all_finite(pts: Seq<PathPoint>) -> bool {
    forall|i: int|
        0 <= i < pts.len() ==> (#[trigger] pts[i]).lon.finite() && pts[i].lat.finite()
            && pts[i].alt_m.finite()
}

fn is_all_finite(pts: &Vec<PathPoint>) -> (r: bool)
    ensures
        r == all_finite(pts@),
{
    let mut i: usize = 0;
    while i < pts.len()
        invariant
            i <= pts@.len(),
            forall|k: int|
                0 <= k < i ==> (#[trigger] pts@[k]).lon.finite() && pts@[k].lat.finite()
                    && pts@[k].alt_m.finite(),
        decreases pts.len() - i,
    {
        if !pts[i].is_finite() {
            assert(!(pts@[i as int].lon.finite() && pts@[i as int].lat.finite()
                && pts@[i as int].alt_m.finite()));
            return false;
        }
        i = i + 1;
    }
    true
}

/// What is wrong with the planned radius, given the smallest one that a fixed
/// wing can fly.
pub open spec fn speed_issue(opts: SmoothOptions, phys_min_radius_m: Option<Scalar>) -> Seq<Issue> {
    when(
        opts.aircraft_type == AircraftType::FixedWing && phys_min_radius_m is Some
            && opts.turn_radius_m < phys_min_radius_m->0 - frac(1, 1_000_000_000),
        Issue::SpeedRadius { radius_m: opts.turn_radius_m, phys_m: phys_min_radius_m->0 },
    )
}

/// All that is found in a route: its motion, the legs over the ground, the
/// distance from the reference, and the planned radius. A route without a leg or
/// with a point that is not finite is not looked at further.
pub open spec fn route_findings<
    C: Fn(Calc) -> Scalar,
    T: Fn((Scalar, Scalar)) -> Sample,
    N: Fn((Scalar, Scalar)) -> bool,
>(
    calc: C,
    ctx: VerifyContext<T, N>,
    opts: SmoothOptions,
    pts: Seq<PathPoint>,
    reference: Option<Seq<PathPoint>>,
    phys_min_radius_m: Option<Scalar>,
) -> Findings {
    if pts.len() < 2 {
        Findings { issues: seq![Issue::TooFewPoints], notes: Seq::empty() }
    } else if !all_finite(pts) {
        Findings { issues: seq![Issue::NonFinitePoint], notes: Seq::empty() }
    } else {
        let motion = Findings {
            issues: all_motion_issues(calc, pts, opts, pts.len() as int),
            notes: Seq::empty(),
        };
        let ground = after_legs(calc, ctx, opts, pts, motion, pts.len() as int);
        let chord = match reference {
            None => Seq::empty(),
            Some(r) => chord_issues(calc, pts, r, opts.chord_tol_m, pts.len() as int),
        };
        Findings {
            issues: ground.issues + chord + speed_issue(opts, phys_min_radius_m),
            notes: ground.notes,
        }
    }
}

impl VerifyReport {
    /// The report of the given findings: the route is accepted if nothing is
    /// wrong with it, whatever the notes are.
    pub open spec fn tells(self, found: Findings) -> bool {
        &&& self.issues@ == found.issues
        &&& self.warnings@ == found.notes
        &&& self.ok == (found.issues.len() == 0)
    }
}

/// The view of a route that may be missing.
pub open spec fn points_of(path: Option<&Path>) -> Option<Seq<PathPoint>> {
    match path {
        None => None,
        Some(p) => Some(p@),
    }
}

/// Verifies a route against all that it has to keep.
pub fn verify_path<
    'a,
    C: Fn(Calc) -> Scalar,
    T: Fn((Scalar, Scalar)) -> Sample,
    N: Fn((Scalar, Scalar)) -> bool,
>(
    path: &Path,
    reference: Option<&Path>,
    opts: &SmoothOptions,
    ctx: &VerifyContext<'a, T, N>,
    phys_min_radius_m: Option<Scalar>,
    calc: &C,
) -> (r: VerifyReport)
    requires
        is_function(*calc),
        ctx.settled(),
    ensures
        r.tells(
            route_findings(*calc, *ctx, *opts, path@, points_of(reference), phys_min_radius_m),
        ),
{
    let mut issues: Vec<Issue> = Vec::new();
    let mut notes: Vec<Note> = Vec::new();
    let n: usize = path.points.len();
    if n < 2 {
        issues.push(Issue::TooFewPoints);
        assert(issues@ =~= seq![Issue::TooFewPoints]);
        return VerifyReport { ok: false, issues, warnings: notes };
    }
    if !is_all_finite(&path.points) {
        issues.push(Issue::NonFinitePoint);
        assert(issues@ =~= seq![Issue::NonFinitePoint]);
        return VerifyReport { ok: false, issues, warnings: notes };
    }
    check_motion(&path.points, opts, &mut issues, calc);
    let ghost motion = Findings {
        issues: all_motion_issues(*calc, path@, *opts, n as int),
        notes: Seq::empty(),
    };
    assert(issues@ =~= motion.issues);
    let mut outside: bool = false;
    let mut i: usize = 1;
    while i < n
        invariant
            is_function(*calc),
            ctx.settled(),
            n == path@.len(),
            1 <= i <= n,
            (Findings { issues: issues@, notes: notes@ }) == after_legs(
                *calc,
                *ctx,
                *opts,
                path@,
                motion,
                i as int,
            ),
            outside == told_outside(notes@),
        decreases n - i,
    {
        check_leg(&path.points, i, opts, ctx, &mut issues, &mut notes, &mut outside, calc);
        i = i + 1;
    }
    let ghost ground = after_legs(*calc, *ctx, *opts, path@, motion, n as int);
    let ghost chord = match points_of(reference) {
        None => Seq::empty(),
        Some(s) => chord_issues(*calc, path@, s, opts.chord_tol_m, n as int),
    };
    if let Some(other) = reference {
        check_chord(&path.points, &other.points, opts.chord_tol_m, &mut issues, calc);
    }
    assert(issues@ =~= ground.issues + chord);
    let fixed_wing: bool = opts.aircraft_type == AircraftType::FixedWing;
    if let Some(phys_m) = phys_min_radius_m {
        if fixed_wing && opts.turn_radius_m.lt(&(phys_m - ratio(1, 1_000_000_000))) {
            issues.push(Issue::SpeedRadius { radius_m: opts.turn_radius_m, phys_m });
        }
    }
    assert(issues@ =~= ground.issues + chord + speed_issue(*opts, phys_min_radius_m));
    let ok: bool = issues.len() == 0;
    VerifyReport { ok, issues, warnings: notes }
}

/// How likely a route is to be detected.
#[derive(Clone, Copy, Debug)]
pub struct ThreatReading {
    /// Chance of being detected somewhere on the way.
    pub cumulative_p: Scalar,
    /// Largest chance at one place.
    pub peak_p: Scalar,
    /// The chance that the request accepts.
    pub p_cross: Scalar,
    pub over_threshold: bool,
}

/// What is told of a chance of detection; nothing if there is none.
pub open spec fn threat_notes(t: ThreatReading) -> Seq<Note> {
    if t.over_threshold {
        seq![Note::DetectionOver { p: t.cumulative_p, threshold: t.p_cross }]
    } else if t.cumulative_p > whole(0) {
        seq![Note::DetectionSeen { p: t.cumulative_p, peak: t.peak_p }]
    } else {
        Seq::empty()
    }
}

impl VerifyReport {
    /// Tells the chance of detection. Radars are avoided where that is possible;
    /// they never make a route unacceptable.
    pub fn note_threat(&mut self, t: &ThreatReading)
        ensures
            final(self).ok == old(self).ok,
            final(self).issues@ == old(self).issues@,
            final(self).warnings@ == old(self).warnings@ + threat_notes(*t),
    {
        let ghost before = self.warnings@;
        if t.over_threshold {
            self.warnings.push(Note::DetectionOver { p: t.cumulative_p, threshold: t.p_cross });
        } else if number(0).lt(&t.cumulative_p) {
            self.warnings.push(Note::DetectionSeen { p: t.cumulative_p, peak: t.peak_p });
        }
        assert(self.warnings@ =~= before + threat_notes(*t));
    }
}

proof fn lemma_samples_found<
    C: Fn(Calc) -> Scalar,
    T: Fn((Scalar, Scalar)) -> Sample,
    N: Fn((Scalar, Scalar)) -> bool,
>(
    calc: C,
    ctx: VerifyContext<T, N>,
    opts: SmoothOptions,
    a: PathPoint,
    b: PathPoint,
    pieces: int,
    known: Findings,
    k: int,
    j: int,
)
    requires
        k <= 0 || 0 <= j < k,
    ensures
        known.issues.len() <= after_samples(calc, ctx, opts, a, b, pieces, known, k).issues.len(),
        k > 0 ==> ({
            let p = between(a, b, whole(j) / whole(pieces));
            place_issue(calc, ctx, p).len() + (if ctx.terrain is Some {
                ground_issue(p, image(*ctx.terrain->0, (p.lon, p.lat)), opts.clearance_m).len()
            } else {
                0
            }) <= after_samples(calc, ctx, opts, a, b, pieces, known, k).issues.len()
        }),
    decreases k,
{
    if k > 0 {
        lemma_samples_found(
            calc,
            ctx,
            opts,
            a,
            b,
            pieces,
            known,
            k - 1,
            if j < k - 1 {
                j
            } else {
                0
            },
        );
    }
}

proof fn lemma_walls_found<C: Fn(Calc) -> Scalar>(
    calc: C,
    a: PathPoint,
    b: PathPoint,
    i: int,
    zones: Seq<Zone>,
    inflation_km: Scalar,
    k: int,
    j: int,
)
    requires
        0 <= j < k,
    ensures
        wall_issue(calc, a, b, i, zones[j], inflation_km).len() <= wall_issues(
            calc,
            a,
            b,
            i,
            zones,
            inflation_km,
            k,
        ).len(),
    decreases k,
{
    if j < k - 1 {
        lemma_walls_found(calc, a, b, i, zones, inflation_km, k - 1, j);
    }
}

proof fn lemma_legs_found<
    C: Fn(Calc) -> Scalar,
    T: Fn((Scalar, Scalar)) -> Sample,
    N: Fn((Scalar, Scalar)) -> bool,
>(
    calc: C,
    ctx: VerifyContext<T, N>,
    opts: SmoothOptions,
    pts: Seq<PathPoint>,
    known: Findings,
    k: int,
    i: int,
)
    requires
        k <= 1 || 1 <= i < k,
        after_legs(calc, ctx, opts, pts, known, k).issues.len() == 0,
    ensures
        known.issues.len() == 0,
        k > 1 ==> after_leg(
            calc,
            ctx,
            opts,
            pts,
            i,
            after_legs(calc, ctx, opts, pts, known, i),
        ).issues.len() == 0,
    decreases k,
{
    if k > 1 {
        let before = after_legs(calc, ctx, opts, pts, known, k - 1);
        let (a, b) = (pts[k - 2], pts[k - 1]);
        let pieces = leg_pieces(sphere_distance_m(calc, a.lon, a.lat, b.lon, b.lat), opts);
        let zones = ctx.zones->0@;
        let crossed = if ctx.zones is Some {
            before.issues + wall_issues(
                calc,
                a,
                b,
                k - 1,
                zones,
                ctx.zone_inflation_m / whole(1000),
                zones.len() as int,
            ) + band_issues(calc, a, b, k - 1, zones, zones.len() as int)
        } else {
            before.issues
        };
        lemma_samples_found(
            calc,
            ctx,
            opts,
            a,
            b,
            pieces,
            Findings { issues: crossed, notes: before.notes },
            pieces + 1,
            0,
        );
        assert(before.issues.len() == 0);
        lemma_legs_found(
            calc,
            ctx,
            opts,
            pts,
            known,
            k - 1,
            if i < k - 1 {
                i
            } else {
                1
            },
        );
    }
}

proof fn lemma_motion_found<C: Fn(Calc) -> Scalar>(
    calc: C,
    pts: Seq<PathPoint>,
    opts: SmoothOptions,
    k: int,
    i: int,
)
    requires
        1 <= i < k,
        opts.aircraft_type == AircraftType::FixedWing,
    ensures
        motion_issues(calc, pts, opts, i).len() <= all_motion_issues(calc, pts, opts, k).len(),
    decreases k,
{
    if i < k - 1 {
        lemma_motion_found(calc, pts, opts, k - 1, i);
    }
}

proof fn lemma_chords_found<C: Fn(Calc) -> Scalar>(
    calc: C,
    pts: Seq<PathPoint>,
    reference: Seq<PathPoint>,
    tol_m: Scalar,
    k: int,
    i: int,
)
    requires
        0 <= i < k,
        chord_issues(calc, pts, reference, tol_m, k).len() == 0,
    ensures
        !(off_reference_m(calc, pts[i], reference, reference.len() - 1) > tol_m),
    decreases k,
{
    if i < k - 1 {
        lemma_chords_found(calc, pts, reference, tol_m, k - 1, i);
    }
}

/// A fixed wing on a route that is accepted climbs no leg more steeply, and
/// turns at no point more sharply or more tightly, than its limits allow.
pub proof fn law_accepted_route_is_flyable<
    C: Fn(Calc) -> Scalar,
    T: Fn((Scalar, Scalar)) -> Sample,
    N: Fn((Scalar, Scalar)) -> bool,
>(
    calc: C,
    ctx: VerifyContext<T, N>,
    opts: SmoothOptions,
    pts: Seq<PathPoint>,
    reference: Option<Seq<PathPoint>>,
    phys_min_radius_m: Option<Scalar>,
    i: int,
)
    requires
        opts.aircraft_type == AircraftType::FixedWing,
        route_findings(calc, ctx, opts, pts, reference, phys_min_radius_m).issues.len() == 0,
        1 <= i < pts.len(),
    ensures
        climb_of(calc, pts, i) is Some ==> !(climb_of(calc, pts, i)->0 > opts.max_climb_deg),
        i + 1 < pts.len() ==> !(turn_of(calc, pts, i) > opts.max_turn_deg),
        i + 1 < pts.len() && radius_of(calc, pts, i) is Some ==> !(radius_of(calc, pts, i)->0
            < opts.turn_radius_m * frac(99, 100)),
        phys_min_radius_m is Some ==> !(opts.turn_radius_m < phys_min_radius_m->0 - frac(
            1,
            1_000_000_000,
        )),
{
    let n = pts.len() as int;
    let motion = Findings {
        issues: all_motion_issues(calc, pts, opts, n),
        notes: Seq::empty(),
    };
    lemma_legs_found(calc, ctx, opts, pts, motion, n, i);
    lemma_motion_found(calc, pts, opts, n, i);
    assert(motion_issues(calc, pts, opts, i).len() == 0);
    assert(speed_issue(opts, phys_min_radius_m).len() == 0);
}

/// No leg of a route that is accepted touches a wall or comes closer to one
/// than the clearance. No sample of it is in a band or over forbidden ground, and
/// every sample over known ground is high enough.
pub proof fn law_accepted_route_is_safe<
    C: Fn(Calc) -> Scalar,
    T: Fn((Scalar, Scalar)) -> Sample,
    N: Fn((Scalar, Scalar)) -> bool,
>(
    calc: C,
    ctx: VerifyContext<T, N>,
    opts: SmoothOptions,
    pts: Seq<PathPoint>,
    reference: Option<Seq<PathPoint>>,
    phys_min_radius_m: Option<Scalar>,
    i: int,
    k: int,
)
    requires
        route_findings(calc, ctx, opts, pts, reference, phys_min_radius_m).issues.len() == 0,
        1 <= i < pts.len(),
        0 <= k <= leg_pieces(
            sphere_distance_m(calc, pts[i - 1].lon, pts[i - 1].lat, pts[i].lon, pts[i].lat),
            opts,
        ),
    ensures
        ctx.zones is Some ==> forall|j: int|
            0 <= j < ctx.zones->0@.len() && (#[trigger] ctx.zones->0@[j]).wall() ==> {
                let clr = clearance_km(
                    calc,
                    pts[i - 1].lon,
                    pts[i - 1].lat,
                    pts[i].lon,
                    pts[i].lat,
                    ctx.zones->0@[j],
                );
                !(clr <= frac(1, 1_000_000_000)) && !(clr < ctx.zone_inflation_m / whole(1000))
            },
        ({
            let (a, b) = (pts[i - 1], pts[i]);
            let pieces = leg_pieces(sphere_distance_m(calc, a.lon, a.lat, b.lon, b.lat), opts);
            let p = between(a, b, whole(k) / whole(pieces));
            &&& ctx.zones is Some ==> !in_some_band(calc, p, ctx.zones->0@)
            &&& ctx.zones is None && ctx.nofly is Some ==> !image(*ctx.nofly->0, (p.lon, p.lat))
            &&& ctx.terrain is Some ==> match image(*ctx.terrain->0, (p.lon, p.lat)) {
                Sample::Land(h) => !(p.alt_m < h + opts.clearance_m),
                Sample::Water | Sample::Lake(_) => !(p.alt_m < opts.clearance_m),
                Sample::Forbidden => false,
                Sample::NoData | Sample::OutOfBounds => true,
            }
        }),
{
    let n = pts.len() as int;
    let motion = Findings {
        issues: all_motion_issues(calc, pts, opts, n),
        notes: Seq::empty(),
    };
    lemma_legs_found(calc, ctx, opts, pts, motion, n, i);
    let before = after_legs(calc, ctx, opts, pts, motion, i);
    let (a, b) = (pts[i - 1], pts[i]);
    let pieces = leg_pieces(sphere_distance_m(calc, a.lon, a.lat, b.lon, b.lat), opts);
    let zones = ctx.zones->0@;
    let inflation_km = ctx.zone_inflation_m / whole(1000);
    let walls = wall_issues(calc, a, b, i, zones, inflation_km, zones.len() as int);
    let crossed = if ctx.zones is Some {
        before.issues + walls + band_issues(calc, a, b, i, zones, zones.len() as int)
    } else {
        before.issues
    };
    let known = Findings { issues: crossed, notes: before.notes };
    lemma_samples_found(calc, ctx, opts, a, b, pieces, known, pieces + 1, k);
    if ctx.zones is Some {
        assert(walls.len() == 0);
        assert forall|j: int| 0 <= j < zones.len() && (#[trigger] zones[j]).wall() implies {
            let clr = clearance_km(calc, a.lon, a.lat, b.lon, b.lat, zones[j]);
            !(clr <= frac(1, 1_000_000_000)) && !(clr < inflation_km)
        } by {
            lemma_walls_found(calc, a, b, i, zones, inflation_km, zones.len() as int, j);
        }
    }
}

/// No point of a route that is accepted lies farther from the reference than
/// the tolerance.
pub proof fn law_accepted_route_stays_near<
    C: Fn(Calc) -> Scalar,
    T: Fn((Scalar, Scalar)) -> Sample,
    N: Fn((Scalar, Scalar)) -> bool,
>(
    calc: C,
    ctx: VerifyContext<T, N>,
    opts: SmoothOptions,
    pts: Seq<PathPoint>,
    reference: Seq<PathPoint>,
    phys_min_radius_m: Option<Scalar>,
    i: int,
)
    requires
        route_findings(calc, ctx, opts, pts, Some(reference), phys_min_radius_m).issues.len() == 0,
        0 <= i < pts.len(),
    ensures
        !(off_reference_m(calc, pts[i], reference, reference.len() - 1) > opts.chord_tol_m),
{
    let n = pts.len() as int;
    assert(chord_issues(calc, pts, reference, opts.chord_tol_m, n).len() == 0);
    lemma_chords_found(calc, pts, reference, opts.chord_tol_m, n, i);
}

/// The motion of a rotorcraft is never at fault: it hovers and turns on the spot.
pub proof fn law_rotorcraft_turns_freely<C: Fn(Calc) -> Scalar>(
    calc: C,
    pts: Seq<PathPoint>,
    opts: SmoothOptions,
    phys_min_radius_m: Option<Scalar>,
    k: int,
)
    requires
        opts.aircraft_type == AircraftType::Rotorcraft,
    ensures
        all_motion_issues(calc, pts, opts, k) == Seq::<Issue>::empty(),
        speed_issue(opts, phys_min_radius_m) == Seq::<Issue>::empty(),
{
}

proof fn lemma_told_once_sample(notes: Seq<Note>, p: PathPoint, ground: Sample)
    requires
        told_once(notes),
    ensures
        told_once(noted(notes, p, ground)),
{
    let after = noted(notes, p, ground);
    assert forall|i: int, j: int|
        0 <= i < after.len() && 0 <= j < after.len() && (#[trigger] after[i]) is OutOfTerrain && (
        #[trigger] after[j]) is OutOfTerrain implies i == j by {
        if i < notes.len() {
            assert(notes[i] is OutOfTerrain);
        }
        if j < notes.len() {
            assert(notes[j] is OutOfTerrain);
        }
    }
}

/// At most one note tells that the route leaves the terrain.
pub open spec fn told_once(notes: Seq<Note>) -> bool {
    forall|i: int, j: int|
        0 <= i < notes.len() && 0 <= j < notes.len() && (#[trigger] notes[i]) is OutOfTerrain && (
        #[trigger] notes[j]) is OutOfTerrain ==> i == j
}

proof fn lemma_told_once_leg<
    C: Fn(Calc) -> Scalar,
    T: Fn((Scalar, Scalar)) -> Sample,
    N: Fn((Scalar, Scalar)) -> bool,
>(
    calc: C,
    ctx: VerifyContext<T, N>,
    opts: SmoothOptions,
    a: PathPoint,
    b: PathPoint,
    pieces: int,
    known: Findings,
    k: int,
)
    requires
        told_once(known.notes),
    ensures
        told_once(after_samples(calc, ctx, opts, a, b, pieces, known, k).notes),
    decreases k,
{
    if k > 0 {
        lemma_told_once_leg(calc, ctx, opts, a, b, pieces, known, k - 1);
        let p = between(a, b, whole(k - 1) / whole(pieces));
        if ctx.terrain is Some {
            lemma_told_once_sample(
                after_samples(calc, ctx, opts, a, b, pieces, known, k - 1).notes,
                p,
                image(*ctx.terrain->0, (p.lon, p.lat)),
            );
        }
    }
}

proof fn lemma_told_once_legs<
    C: Fn(Calc) -> Scalar,
    T: Fn((Scalar, Scalar)) -> Sample,
    N: Fn((Scalar, Scalar)) -> bool,
>(
    calc: C,
    ctx: VerifyContext<T, N>,
    opts: SmoothOptions,
    pts: Seq<PathPoint>,
    known: Findings,
    k: int,
)
    requires
        told_once(known.notes),
    ensures
        told_once(after_legs(calc, ctx, opts, pts, known, k).notes),
    decreases k,
{
    if k > 1 {
        lemma_told_once_legs(calc, ctx, opts, pts, known, k - 1);
        let before = after_legs(calc, ctx, opts, pts, known, k - 1);
        let (a, b) = (pts[k - 2], pts[k - 1]);
        let pieces = leg_pieces(sphere_distance_m(calc, a.lon, a.lat, b.lon, b.lat), opts);
        let zones = ctx.zones->0@;
        let crossed = if ctx.zones is Some {
            before.issues + wall_issues(
                calc,
                a,
                b,
                k - 1,
                zones,
                ctx.zone_inflation_m / whole(1000),
                zones.len() as int,
            ) + band_issues(calc, a, b, k - 1, zones, zones.len() as int)
        } else {
            before.issues
        };
        lemma_told_once_leg(
            calc,
            ctx,
            opts,
            a,
            b,
            pieces,
            Findings { issues: crossed, notes: before.notes },
            pieces + 1,
        );
    }
}

/// A route that leaves the terrain is told so once, however long it stays
/// outside.
pub proof fn law_outside_told_once<
    C: Fn(Calc) -> Scalar,
    T: Fn((Scalar, Scalar)) -> Sample,
    N: Fn((Scalar, Scalar)) -> bool,
>(
    calc: C,
    ctx: VerifyContext<T, N>,
    opts: SmoothOptions,
    pts: Seq<PathPoint>,
    reference: Option<Seq<PathPoint>>,
    phys_min_radius_m: Option<Scalar>,
)
    ensures
        told_once(route_findings(calc, ctx, opts, pts, reference, phys_min_radius_m).notes),
{
    let motion = Findings {
        issues: all_motion_issues(calc, pts, opts, pts.len() as int),
        notes: Seq::empty(),
    };
    lemma_told_once_legs(calc, ctx, opts, pts, motion, pts.len() as int);
}

} // verus!
