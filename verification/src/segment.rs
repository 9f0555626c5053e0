//! Which straight legs a route may be straightened to.

use crate::arc::LegCheck;
use crate::config::{Waypoint, Zone, ZoneShape};
use crate::curves::{between, interpolate};
use crate::numeric::{frac, number, ratio, whole};
use crate::oracle::{ask, image, is_function, Calc};
use crate::passage::{circle_span, sample_fraction, segment_circle_intersect_t};
use crate::path::{haversine_m, sphere_distance_m, PathPoint};
use crate::scalar::Scalar;
use crate::terrain::Sample;
use crate::verify::{ground_issue, in_band, is_in_band, wall_issue, Issue};
use crate::zone::{clearance_km, zone_segment_clearance_km};
use vstd::prelude::*;

verus! {

/// The rule on straight legs: high enough over the ground, clear of walls and
/// bands, and no short cut through the core of a radar.
pub struct SegmentCheck<
    'a,
    C: Fn(Calc) -> Scalar,
    T: Fn((Scalar, Scalar)) -> Sample,
    P: Fn((Scalar, Scalar, Scalar)) -> Scalar,
> {
    pub zones: &'a Vec<Zone>,
    /// How deep a place and height lie in a radar: the distance to it as a
    /// fraction of its range, the smallest over all radars.
    pub threat: Option<&'a P>,
    /// Clearance to keep from walls, in kilometres.
    pub inflation_km: Scalar,
    pub terrain: Option<&'a T>,
    /// Height to keep above the ground, in metres.
    pub clearance_m: Scalar,
    pub calc: &'a C,
}

/// A waypoint as a route point without a heading.
pub open spec fn as_point(w: Waypoint) -> PathPoint {
    PathPoint { lon: w.lon, lat: w.lat, alt_m: w.alt_m, heading_deg: None }
}

/// How many pieces a leg is sampled in over the ground: one for every 200 metres
/// begun, 2 to 1024 of them.
pub open spec fn ground_pieces(length_m: Scalar) -> int {
    let x = length_m / whole(200);
    if x.nan() || x.negative() {
        2
    } else if x.infinite() || x.ceil_value() > 1024 {
        1024
    } else if x.ceil_value() < 2 {
        2
    } else {
        x.ceil_value()
    }
}

/// Whether a sample over the given ground is high enough.
pub open spec fn over_ground(p: PathPoint, ground: Sample, clearance_m: Scalar) -> bool {
    ground_issue(p, ground, clearance_m).len() == 0
}

/// Whether every sample of a leg is high enough over the ground.
pub open spec fn leg_over_ground<C: Fn(Calc) -> Scalar, T: Fn((Scalar, Scalar)) -> Sample>(
    calc: C,
    terrain: T,
    clearance_m: Scalar,
    a: PathPoint,
    b: PathPoint,
) -> bool {
    let n = ground_pieces(sphere_distance_m(calc, a.lon, a.lat, b.lon, b.lat));
    forall|k: int|
        0 <= k <= n ==> {
            let p = #[trigger] between(a, b, whole(k) / whole(n));
            over_ground(p, image(terrain, (p.lon, p.lat)), clearance_m)
        }
}

/// Whether no sample of seventeen across a part of a leg is in a band.
pub open spec fn out_of_band<C: Fn(Calc) -> Scalar>(
    calc: C,
    a: PathPoint,
    b: PathPoint,
    z: Zone,
    t1: Scalar,
    t2: Scalar,
) -> bool {
    forall|k: int|
        0 <= k <= 16 ==> !in_band(calc, between(a, b, #[trigger] sample_fraction(t1, t2, k, 16)), z)
}

/// Sample `k` of seventeen along a leg.
pub open spec fn leg_sample(a: PathPoint, b: PathPoint, k: int) -> PathPoint {
    between(a, b, whole(k) / whole(16))
}

/// Whether no sample of seventeen along a leg is in a band.
pub open spec fn leg_out_of_band<C: Fn(Calc) -> Scalar>(calc: C, a: PathPoint, b: PathPoint, z: Zone) -> bool {
    forall|k: int| 0 <= k <= 16 ==> !in_band(calc, #[trigger] leg_sample(a, b, k), z)
}

/// Whether a leg keeps clear of a zone: of a wall by the clearance, of a round
/// band at the samples where it may cross it and along its length, of the band
/// of a polygon that it touches along its length.
pub open spec fn leg_clear_of<C: Fn(Calc) -> Scalar>(
    calc: C,
    inflation_km: Scalar,
    a: PathPoint,
    b: PathPoint,
    z: Zone,
) -> bool {
    let clr = clearance_km(calc, a.lon, a.lat, b.lon, b.lat, z);
    if z.wall() {
        !(clr <= frac(1, 1_000_000_000)) && !(clr < inflation_km)
    } else {
        match z.shape {
            ZoneShape::Circle { center, radius_km } => {
                let span = circle_span(
                    calc,
                    a.lon,
                    a.lat,
                    b.lon,
                    b.lat,
                    center[0],
                    center[1],
                    radius_km,
                );
                &&& span is Some ==> out_of_band(calc, a, b, z, (span->0).0, (span->0).1)
                &&& leg_out_of_band(calc, a, b, z)
            },
            ZoneShape::Polygon { .. } => clr <= frac(1, 1_000_000_000) ==> leg_out_of_band(
                calc,
                a,
                b,
                z,
            ),
        }
    }
}

/// Whether a place and height lie in the core of a radar.
pub open spec fn in_core<P: Fn((Scalar, Scalar, Scalar)) -> Scalar>(threat: P, p: PathPoint) -> bool {
    image(threat, (p.lon, p.lat, p.alt_m)) < frac(7, 10)
}

/// Whether a leg takes no short cut through the core of a radar. A leg that has
/// to begin or end in one may cross it.
pub open spec fn leg_round_cores<P: Fn((Scalar, Scalar, Scalar)) -> Scalar>(
    threat: P,
    a: PathPoint,
    b: PathPoint,
) -> bool {
    in_core(threat, a) || in_core(threat, b) || forall|k: int|
        0 <= k <= 16 ==> !in_core(threat, #[trigger] leg_sample(a, b, k))
}

impl<
    'a,
    C: Fn(Calc) -> Scalar,
    T: Fn((Scalar, Scalar)) -> Sample,
    P: Fn((Scalar, Scalar, Scalar)) -> Scalar,
> SegmentCheck<'a, C, T, P> {
    fn ground_ok(&self, a: &PathPoint, b: &PathPoint, terrain: &T) -> (r: bool)
        requires
            is_function(*self.calc),
            is_function(*terrain),
        ensures
            r == leg_over_ground(*self.calc, *terrain, self.clearance_m, *a, *b),
    {
        let up: u64 = (haversine_m(a.lon, a.lat, b.lon, b.lat, self.calc) / number(200)).ceil_u64();
        let n: u64 = if up < 2 {
            2
        } else if up > 1024 {
            1024
        } else {
            up
        };
        assert(n == ground_pieces(sphere_distance_m(*self.calc, a.lon, a.lat, b.lon, b.lat)));
        let mut k: u64 = 0;
        while k <= n
            invariant
                is_function(*terrain),
                n <= 1024,
                k <= n + 1,
                forall|j: int|
                    0 <= j < k ==> {
                        let p = #[trigger] between(*a, *b, whole(j) / whole(n as int));
                        over_ground(p, image(*terrain, (p.lon, p.lat)), self.clearance_m)
                    },
                n == ground_pieces(sphere_distance_m(*self.calc, a.lon, a.lat, b.lon, b.lat)),
            decreases n + 1 - k,
        {
            let p: PathPoint = interpolate(a, b, number(k) / number(n));
            let low: bool = match ask(terrain, (p.lon, p.lat)) {
                Sample::Land(h) => p.alt_m.lt(&(h + self.clearance_m)),
                Sample::Water | Sample::Lake(_) => p.alt_m.lt(&self.clearance_m),
                Sample::Forbidden => true,
                Sample::NoData | Sample::OutOfBounds => false,
            };
            assert(low == !over_ground(p, image(*terrain, (p.lon, p.lat)), self.clearance_m));
            if low {
                assert(p == between(*a, *b, whole(k as int) / whole(n as int)));
                return false;
            }
            k = k + 1;
        }
        true
    }

    fn span_ok(&self, a: &PathPoint, b: &PathPoint, z: &Zone, t1: Scalar, t2: Scalar) -> (r: bool)
        requires
            is_function(*self.calc),
        ensures
            r == out_of_band(*self.calc, *a, *b, *z, t1, t2),
    {
        let mut k: u64 = 0;
        while k <= 16
            invariant
                is_function(*self.calc),
                k <= 17,
                forall|j: int|
                    0 <= j < k ==> !in_band(
                        *self.calc,
                        between(*a, *b, #[trigger] sample_fraction(t1, t2, j, 16)),
                        *z,
                    ),
            decreases 17 - k,
        {
            let t: Scalar = t1 + (t2 - t1) * number(k) / number(16);
            assert(t == sample_fraction(t1, t2, k as int, 16));
            if is_in_band(&interpolate(a, b, t), z, self.calc) {
                return false;
            }
            k = k + 1;
        }
        true
    }

    fn band_ok(&self, a: &PathPoint, b: &PathPoint, z: &Zone) -> (r: bool)
        requires
            is_function(*self.calc),
        ensures
            r == leg_out_of_band(*self.calc, *a, *b, *z),
    {
        let mut k: u64 = 0;
        while k <= 16
            invariant
                is_function(*self.calc),
                k <= 17,
                forall|j: int|
                    0 <= j < k ==> !in_band(*self.calc, #[trigger] leg_sample(*a, *b, j), *z),
            decreases 17 - k,
        {
            let p: PathPoint = interpolate(a, b, number(k) / number(16));
            assert(p == leg_sample(*a, *b, k as int));
            if is_in_band(&p, z, self.calc) {
                return false;
            }
            k = k + 1;
        }
        true
    }

    fn zone_ok(&self, a: &PathPoint, b: &PathPoint, z: &Zone) -> (r: bool)
        requires
            is_function(*self.calc),
        ensures
            r == leg_clear_of(*self.calc, self.inflation_km, *a, *b, *z),
    {
        let clr: Scalar = zone_segment_clearance_km(a.lon, a.lat, b.lon, b.lat, z, self.calc);
        let touches: bool = clr.le(&ratio(1, 1_000_000_000));
        if z.is_wall() {
            return !touches && !clr.lt(&self.inflation_km);
        }
        match &z.shape {
            ZoneShape::Circle { center, radius_km } => {
                let span: Option<(Scalar, Scalar)> = segment_circle_intersect_t(
                    a.lon,
                    a.lat,
                    b.lon,
                    b.lat,
                    center[0],
                    center[1],
                    *radius_km,
                    self.calc,
                );
                if let Some((t1, t2)) = span {
                    if !self.span_ok(a, b, z, t1, t2) {
                        return false;
                    }
                }
                self.band_ok(a, b, z)
            },
            ZoneShape::Polygon { .. } => !touches || self.band_ok(a, b, z),
        }
    }

    fn cores_ok(&self, a: &PathPoint, b: &PathPoint, threat: &P) -> (r: bool)
        requires
            is_function(*threat),
        ensures
            r == leg_round_cores(*threat, *a, *b),
    {
        if is_in_core(threat, a) || is_in_core(threat, b) {
            return true;
        }
        let mut k: u64 = 0;
        while k <= 16
            invariant
                is_function(*threat),
                k <= 17,
                !in_core(*threat, *a),
                !in_core(*threat, *b),
                forall|j: int| 0 <= j < k ==> !in_core(*threat, #[trigger] leg_sample(*a, *b, j)),
            decreases 17 - k,
        {
            let p: PathPoint = interpolate(a, b, number(k) / number(16));
            assert(p == leg_sample(*a, *b, k as int));
            if is_in_core(threat, &p) {
                return false;
            }
            k = k + 1;
        }
        true
    }
}

/// Whether a place and height lie in the core of a radar.
pub fn is_in_core<P: Fn((Scalar, Scalar, Scalar)) -> Scalar>(threat: &P, p: &PathPoint) -> (r: bool)
    requires
        is_function(*threat),
    ensures
        r == in_core(*threat, *p),
{
    ask(threat, (p.lon, p.lat, p.alt_m)).lt(&ratio(7, 10))
}

impl<
    'a,
    C: Fn(Calc) -> Scalar,
    T: Fn((Scalar, Scalar)) -> Sample,
    P: Fn((Scalar, Scalar, Scalar)) -> Scalar,
> LegCheck for SegmentCheck<'a, C, T, P> {
    open spec fn settled(&self) -> bool {
        &&& is_function(*self.calc)
        &&& self.terrain is Some ==> is_function(*self.terrain->0)
        &&& self.threat is Some ==> is_function(*self.threat->0)
    }

    open spec fn allows(&self, a: Waypoint, b: Waypoint) -> bool {
        let (p, q) = (as_point(a), as_point(b));
        &&& self.terrain is Some ==> leg_over_ground(
            *self.calc,
            *self.terrain->0,
            self.clearance_m,
            p,
            q,
        )
        &&& forall|k: int|
            0 <= k < self.zones@.len() ==> leg_clear_of(
                *self.calc,
                self.inflation_km,
                p,
                q,
                #[trigger] self.zones@[k],
            )
        &&& self.threat is Some ==> leg_round_cores(*self.threat->0, p, q)
    }

    fn check(&self, a: &Waypoint, b: &Waypoint) -> (r: bool) {
        let p: PathPoint = PathPoint::new(a.lon, a.lat, a.alt_m);
        let q: PathPoint = PathPoint::new(b.lon, b.lat, b.alt_m);
        if let Some(terrain) = self.terrain {
            if !self.ground_ok(&p, &q, terrain) {
                return false;
            }
        }
        let mut k: usize = 0;
        while k < self.zones.len()
            invariant
                self.settled(),
                k <= self.zones@.len(),
                p == as_point(*a),
                q == as_point(*b),
                self.terrain is Some ==> leg_over_ground(
                    *self.calc,
                    *self.terrain->0,
                    self.clearance_m,
                    p,
                    q,
                ),
                forall|j: int|
                    0 <= j < k ==> leg_clear_of(
                        *self.calc,
                        self.inflation_km,
                        p,
                        q,
                        #[trigger] self.zones@[j],
                    ),
            decreases self.zones.len() - k,
        {
            if !self.zone_ok(&p, &q, &self.zones[k]) {
                assert(!leg_clear_of(*self.calc, self.inflation_km, p, q, self.zones@[k as int]));
                return false;
            }
            k = k + 1;
        }
        match self.threat {
            Some(threat) => self.cores_ok(&p, &q, threat),
            None => true,
        }
    }
}

/// A leg that the rule allows is clear of every wall in the sense in which routes
/// are verified.
pub proof fn law_allowed_leg_keeps_walls<
    C: Fn(Calc) -> Scalar,
    T: Fn((Scalar, Scalar)) -> Sample,
    P: Fn((Scalar, Scalar, Scalar)) -> Scalar,
>(check: SegmentCheck<C, T, P>, a: Waypoint, b: Waypoint, i: int, k: int)
    requires
        check.allows(a, b),
        0 <= k < check.zones@.len(),
    ensures
        wall_issue(
            *check.calc,
            as_point(a),
            as_point(b),
            i,
            check.zones@[k],
            check.inflation_km,
        ) == Seq::<Issue>::empty(),
{
    assert(leg_clear_of(*check.calc, check.inflation_km, as_point(a), as_point(b), check.zones@[k]));
}

} // verus!
