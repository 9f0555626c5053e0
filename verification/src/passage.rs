//! Passing restricted zones above or below, and keeping clear of walls.

use crate::config::{Zone, ZoneShape, ZoneType};
use crate::coord::{legal_coordinate, Geo};
use crate::geometry::{hypotenuse, radians, to_radians, Vertex};
use crate::numeric::{frac, number, ratio, saturated, whole};
use crate::oracle::{ask, image, is_function, Calc};
use crate::path::{haversine_m, sphere_distance_m, PathPoint};
use crate::scalar::{Scalar, INFINITY_BITS};
use crate::terrain::{raise, raised_by, Sample};
use crate::zone::{
    blocks_height, clearance_km, forbids_height, holds, restricted_blocks_alt, zone_contains_at,
    zone_segment_clearance_km,
};
use vstd::prelude::*;

verus! {

/// Plane distance of two places in kilometres, longitudes scaled at the middle.
pub open spec fn flat_km<C: Fn(Calc) -> Scalar>(
    calc: C,
    lon1: Scalar,
    lat1: Scalar,
    lon2: Scalar,
    lat2: Scalar,
) -> Scalar {
    let c = image(calc, Calc::Cos(radians((lat1 + lat2) / whole(2))));
    hypotenuse((lon2 - lon1) * c * frac(11132, 100), (lat2 - lat1) * frac(11132, 100))
}

/// Plane distance of two places in kilometres.
pub fn dist_km<C: Fn(Calc) -> Scalar>(
    lon1: Scalar,
    lat1: Scalar,
    lon2: Scalar,
    lat2: Scalar,
    calc: &C,
) -> (r: Scalar)
    requires
        is_function(*calc),
    ensures
        r == flat_km(*calc, lon1, lat1, lon2, lat2),
{
    let c: Scalar = ask(calc, Calc::Cos(to_radians((lat1 + lat2) / number(2))));
    let k: Scalar = ratio(11132, 100);
    let x: Scalar = (lon2 - lon1) * c * k;
    let y: Scalar = (lat2 - lat1) * k;
    (x * x + y * y).sqrt()
}

/// A segment and a circle in the plane: the centre seen from the start of the
/// segment, and the run of the segment, in kilometres.
pub struct ChordFrame {
    pub dx: Scalar,
    pub dy: Scalar,
    pub ox: Scalar,
    pub oy: Scalar,
}

pub open spec fn chord_frame<C: Fn(Calc) -> Scalar>(
    calc: C,
    lon1: Scalar,
    lat1: Scalar,
    lon2: Scalar,
    lat2: Scalar,
    cx: Scalar,
    cy: Scalar,
) -> ChordFrame {
    let kx = image(calc, Calc::Cos(radians((lat1 + lat2) / whole(2)))) * frac(11132, 100);
    let ky = frac(11132, 100);
    ChordFrame {
        dx: (lon2 - lon1) * kx,
        dy: (lat2 - lat1) * ky,
        ox: (cx - lon1) * kx,
        oy: (cy - lat1) * ky,
    }
}

pub fn make_chord_frame<C: Fn(Calc) -> Scalar>(
    lon1: Scalar,
    lat1: Scalar,
    lon2: Scalar,
    lat2: Scalar,
    cx: Scalar,
    cy: Scalar,
    calc: &C,
) -> (r: ChordFrame)
    requires
        is_function(*calc),
    ensures
        r == chord_frame(*calc, lon1, lat1, lon2, lat2, cx, cy),
{
    let kx: Scalar = ask(calc, Calc::Cos(to_radians((lat1 + lat2) / number(2)))) * ratio(11132, 100);
    let ky: Scalar = ratio(11132, 100);
    ChordFrame {
        dx: (lon2 - lon1) * kx,
        dy: (lat2 - lat1) * ky,
        ox: (cx - lon1) * kx,
        oy: (cy - lat1) * ky,
    }
}

/// The coefficients of the quadratic whose roots are the fractions of the
/// segment at which it crosses a circle of radius `r`.
pub open spec fn chord_quadratic(f: ChordFrame, r: Scalar) -> (Scalar, Scalar, Scalar) {
    let aa = f.dx * f.dx + f.dy * f.dy;
    let bb = whole(2).opposite() * (f.dx * f.ox + f.dy * f.oy);
    let cc = f.ox * f.ox + f.oy * f.oy - r * r;
    (aa, bb, cc)
}

pub open spec fn discriminant(q: (Scalar, Scalar, Scalar)) -> Scalar {
    q.1 * q.1 - whole(4) * q.0 * q.2
}

/// The smaller and the larger root of the quadratic.
pub open spec fn quadratic_roots(q: (Scalar, Scalar, Scalar)) -> (Scalar, Scalar) {
    let sq = discriminant(q).root();
    ((q.1.opposite() - sq) / (whole(2) * q.0), (q.1.opposite() + sq) / (whole(2) * q.0))
}

pub fn make_quadratic(f: &ChordFrame, r: Scalar) -> (q: (Scalar, Scalar, Scalar))
    ensures
        q == chord_quadratic(*f, r),
{
    let aa: Scalar = f.dx * f.dx + f.dy * f.dy;
    let bb: Scalar = number(2).neg() * (f.dx * f.ox + f.dy * f.oy);
    let cc: Scalar = f.ox * f.ox + f.oy * f.oy - r * r;
    (aa, bb, cc)
}

pub fn make_discriminant(q: (Scalar, Scalar, Scalar)) -> (d: Scalar)
    ensures
        d == discriminant(q),
{
    q.1 * q.1 - number(4) * q.0 * q.2
}

pub fn make_roots(q: (Scalar, Scalar, Scalar)) -> (r: (Scalar, Scalar))
    ensures
        r == quadratic_roots(q),
{
    let sq: Scalar = make_discriminant(q).sqrt();
    let low: Scalar = (q.1.neg() - sq) / (number(2) * q.0);
    let high: Scalar = (q.1.neg() + sq) / (number(2) * q.0);
    (low, high)
}

/// The part of a segment, as fractions from its start, that may lie inside a
/// circle. The circle is widened by half a percent of the length of the
/// segment and at least one kilometre, which covers the error of the plane.
pub open spec fn circle_span<C: Fn(Calc) -> Scalar>(
    calc: C,
    lon1: Scalar,
    lat1: Scalar,
    lon2: Scalar,
    lat2: Scalar,
    cx: Scalar,
    cy: Scalar,
    r_km: Scalar,
) -> Option<(Scalar, Scalar)> {
    let f = chord_frame(calc, lon1, lat1, lon2, lat2, cx, cy);
    let aa = f.dx * f.dx + f.dy * f.dy;
    let slack = (aa.root() * frac(5, 1000)).larger(whole(1));
    let q = chord_quadratic(f, r_km + slack);
    let (t1, t2) = quadratic_roots(q);
    if aa < frac(1, 1_000_000_000_000) || discriminant(q) < whole(0) || t2 < whole(0) || t1
        > whole(1) {
        None
    } else {
        Some((t1.clamped(whole(0), whole(1)), t2.clamped(whole(0), whole(1))))
    }
}

/// The part of a segment that may lie inside a circle, or touch it.
pub fn segment_circle_intersect_t<C: Fn(Calc) -> Scalar>(
    lon1: Scalar,
    lat1: Scalar,
    lon2: Scalar,
    lat2: Scalar,
    cx: Scalar,
    cy: Scalar,
    r_km: Scalar,
    calc: &C,
) -> (r: Option<(Scalar, Scalar)>)
    requires
        is_function(*calc),
    ensures
        r == circle_span(*calc, lon1, lat1, lon2, lat2, cx, cy, r_km),
{
    let f: ChordFrame = make_chord_frame(lon1, lat1, lon2, lat2, cx, cy, calc);
    let aa: Scalar = f.dx * f.dx + f.dy * f.dy;
    if aa.lt(&ratio(1, 1_000_000_000_000)) {
        return None;
    }
    let slack: Scalar = (aa.sqrt() * ratio(5, 1000)).max(&number(1));
    let q: (Scalar, Scalar, Scalar) = make_quadratic(&f, r_km + slack);
    if make_discriminant(q).lt(&number(0)) {
        return None;
    }
    let (t1, t2) = make_roots(q);
    if t2.lt(&number(0)) || number(1).lt(&t1) {
        return None;
    }
    Some((t1.clamp(&number(0), &number(1)), t2.clamp(&number(0), &number(1))))
}

/// Whether a segment keeps at least `inflation_km` clear of a zone that is a wall.
pub open spec fn clear_of_wall<C: Fn(Calc) -> Scalar>(
    calc: C,
    lon1: Scalar,
    lat1: Scalar,
    lon2: Scalar,
    lat2: Scalar,
    z: Zone,
    inflation_km: Scalar,
) -> bool {
    let clr = clearance_km(calc, lon1, lat1, lon2, lat2, z);
    clr > frac(1, 1_000_000_000) && clr >= inflation_km
}

/// Whether a segment keeps `infl_m` metres clear of every wall.
pub open spec fn clear_of_walls<C: Fn(Calc) -> Scalar>(
    calc: C,
    lon1: Scalar,
    lat1: Scalar,
    lon2: Scalar,
    lat2: Scalar,
    zones: Seq<Zone>,
    infl_m: Scalar,
) -> bool {
    forall|i: int|
        0 <= i < zones.len() && (#[trigger] zones[i]).wall() ==> clear_of_wall(
            calc,
            lon1,
            lat1,
            lon2,
            lat2,
            zones[i],
            infl_m / whole(1000),
        )
}

/// Whether a segment keeps `infl_m` metres clear of every wall.
pub fn seg_zone_clearance_ok<C: Fn(Calc) -> Scalar>(
    lon1: Scalar,
    lat1: Scalar,
    lon2: Scalar,
    lat2: Scalar,
    zones: &Vec<Zone>,
    infl_m: Scalar,
    calc: &C,
) -> (r: bool)
    requires
        is_function(*calc),
    ensures
        r == clear_of_walls(*calc, lon1, lat1, lon2, lat2, zones@, infl_m),
{
    let infl_km: Scalar = infl_m / number(1000);
    let eps: Scalar = ratio(1, 1_000_000_000);
    let mut i: usize = 0;
    while i < zones.len()
        invariant
            is_function(*calc),
            infl_km == infl_m / whole(1000),
            eps == frac(1, 1_000_000_000),
            i <= zones@.len(),
            forall|k: int|
                0 <= k < i && (#[trigger] zones@[k]).wall() ==> clear_of_wall(
                    *calc,
                    lon1,
                    lat1,
                    lon2,
                    lat2,
                    zones@[k],
                    infl_m / whole(1000),
                ),
        decreases zones.len() - i,
    {
        if zones[i].is_wall() {
            let clr: Scalar = zone_segment_clearance_km(lon1, lat1, lon2, lat2, &zones[i], calc);
            if !(eps.lt(&clr) && infl_km.le(&clr)) {
                assert(zones@[i as int].wall() && !clear_of_wall(
                    *calc,
                    lon1,
                    lat1,
                    lon2,
                    lat2,
                    zones@[i as int],
                    infl_m / whole(1000),
                ));
                return false;
            }
        }
        i = i + 1;
    }
    true
}

/// Whether leg `k` of a polyline keeps clear of every wall.
pub open spec fn leg_clear<C: Fn(Calc) -> Scalar>(
    calc: C,
    points: Seq<PathPoint>,
    k: int,
    zones: Seq<Zone>,
    infl_m: Scalar,
) -> bool {
    let (a, b) = (points[k], points[k + 1]);
    clear_of_walls(calc, a.lon, a.lat, b.lon, b.lat, zones, infl_m)
}

/// Whether an arc, and the segment from its end to the next point, keep clear
/// of every wall.
pub fn seg_zone_clearance_ok_arc<C: Fn(Calc) -> Scalar>(
    arc_pts: &Vec<PathPoint>,
    e: &PathPoint,
    c2: &PathPoint,
    zones: &Vec<Zone>,
    infl_m: Scalar,
    calc: &C,
) -> (r: bool)
    requires
        is_function(*calc),
    ensures
        r == ((forall|k: int|
            0 <= k < arc_pts@.len() - 1 ==> #[trigger] leg_clear(
                *calc,
                arc_pts@,
                k,
                zones@,
                infl_m,
            )) && clear_of_walls(*calc, e.lon, e.lat, c2.lon, c2.lat, zones@, infl_m)),
{
    let n: usize = arc_pts.len();
    let mut i: usize = 1;
    while i < n
        invariant
            is_function(*calc),
            n == arc_pts@.len(),
            1 <= i,
            i <= n || n == 0,
            forall|k: int|
                0 <= k < i - 1 ==> #[trigger] leg_clear(*calc, arc_pts@, k, zones@, infl_m),
        decreases n - i,
    {
        let a: PathPoint = arc_pts[i - 1];
        let b: PathPoint = arc_pts[i];
        if !seg_zone_clearance_ok(a.lon, a.lat, b.lon, b.lat, zones, infl_m, calc) {
            assert(!leg_clear(*calc, arc_pts@, i - 1, zones@, infl_m));
            return false;
        }
        i = i + 1;
    }
    seg_zone_clearance_ok(e.lon, e.lat, c2.lon, c2.lat, zones, infl_m, calc)
}

/// Whether a straight line touches a wall or comes closer than `inflation_km`.
pub open spec fn line_meets_wall<C: Fn(Calc) -> Scalar>(
    calc: C,
    lon1: Scalar,
    lat1: Scalar,
    lon2: Scalar,
    lat2: Scalar,
    zones: Seq<Zone>,
    inflation_km: Scalar,
) -> bool {
    exists|i: int|
        0 <= i < zones.len() && (#[trigger] zones[i]).wall() && ({
            let clr = clearance_km(calc, lon1, lat1, lon2, lat2, zones[i]);
            clr <= frac(1, 1_000_000_000) || clr < inflation_km
        })
}

/// Whether a straight line touches a wall or comes too close to one.
pub fn line_hits_wall_km<C: Fn(Calc) -> Scalar>(
    lon1: Scalar,
    lat1: Scalar,
    lon2: Scalar,
    lat2: Scalar,
    zones: &Vec<Zone>,
    inflation_km: Scalar,
    calc: &C,
) -> (r: bool)
    requires
        is_function(*calc),
    ensures
        r == line_meets_wall(*calc, lon1, lat1, lon2, lat2, zones@, inflation_km),
{
    let eps: Scalar = ratio(1, 1_000_000_000);
    let mut i: usize = 0;
    while i < zones.len()
        invariant
            is_function(*calc),
            eps == frac(1, 1_000_000_000),
            i <= zones@.len(),
            forall|k: int|
                0 <= k < i && (#[trigger] zones@[k]).wall() ==> {
                    let clr = clearance_km(*calc, lon1, lat1, lon2, lat2, zones@[k]);
                    !(clr <= frac(1, 1_000_000_000) || clr < inflation_km)
                },
        decreases zones.len() - i,
    {
        if zones[i].is_wall() {
            let clr: Scalar = zone_segment_clearance_km(lon1, lat1, lon2, lat2, &zones[i], calc);
            if clr.le(&eps) || clr.lt(&inflation_km) {
                assert(zones@[i as int].wall());
                return true;
            }
        }
        i = i + 1;
    }
    false
}

/// Whether a place and height lie in a zone; an illegal place lies in none.
pub open spec fn inside_at<C: Fn(Calc) -> Scalar>(
    calc: C,
    lon: Scalar,
    lat: Scalar,
    alt: Scalar,
    z: Zone,
) -> bool {
    legal_coordinate(lon, lat) && holds(calc, z, Geo { lon, lat }) && (z.wall() || forbids_height(
        z,
        alt,
    ))
}

fn is_inside_at<C: Fn(Calc) -> Scalar>(lon: Scalar, lat: Scalar, alt: Scalar, z: &Zone, calc: &C) -> (r:
    bool)
    requires
        is_function(*calc),
    ensures
        r == inside_at(*calc, lon, lat, alt, *z),
{
    match Geo::new(lon, lat) {
        Ok(g) => zone_contains_at(z, &g, alt, calc),
        Err(_) => false,
    }
}

/// The height a fraction `t` along a line from `alt1` to `alt2`.
pub open spec fn height_along(alt1: Scalar, alt2: Scalar, t: Scalar) -> Scalar {
    alt1 + (alt2 - alt1) * t
}

/// Sample `k` of `n` between two fractions.
pub open spec fn sample_fraction(t1: Scalar, t2: Scalar, k: int, n: int) -> Scalar {
    t1 + (t2 - t1) * whole(k) / whole(n)
}

/// Whether one of the nine samples across a span of the line is at a height
/// that the zone forbids.
pub open spec fn band_sampled(alt1: Scalar, alt2: Scalar, t1: Scalar, t2: Scalar, z: Zone) -> bool {
    exists|k: int|
        0 <= k <= 8 && forbids_height(
            z,
            height_along(alt1, alt2, #[trigger] sample_fraction(t1, t2, k, 8)),
        )
}

/// Whether a climbing line meets the band of a round restricted zone: one of
/// its ends is inside, or a sample of its way through is at a forbidden height.
pub open spec fn line_meets_band_of<C: Fn(Calc) -> Scalar>(
    calc: C,
    a: PathPoint,
    b: PathPoint,
    z: Zone,
) -> bool {
    z.zone_type == ZoneType::Restricted && match z.shape {
        ZoneShape::Polygon { .. } => false,
        ZoneShape::Circle { center, radius_km } => {
            ||| inside_at(calc, a.lon, a.lat, a.alt_m, z)
            ||| inside_at(calc, b.lon, b.lat, b.alt_m, z)
            ||| match circle_span(
                calc,
                a.lon,
                a.lat,
                b.lon,
                b.lat,
                center[0],
                center[1],
                radius_km,
            ) {
                None => false,
                Some((t1, t2)) => band_sampled(a.alt_m, b.alt_m, t1, t2, z),
            }
        },
    }
}

/// Whether a height is one that the zone forbids.
fn height_forbidden(z: &Zone, alt: Scalar) -> (r: bool)
    ensures
        r == forbids_height(*z, alt),
{
    match (z.alt_min_m, z.alt_max_m) {
        (Some(lo), Some(hi)) => lo.le(&alt) && alt.le(&hi),
        _ => true,
    }
}

fn samples_in_band(alt1: Scalar, alt2: Scalar, t1: Scalar, t2: Scalar, z: &Zone) -> (r: bool)
    ensures
        r == band_sampled(alt1, alt2, t1, t2, *z),
{
    let mut k: u64 = 0;
    while k <= 8
        invariant
            k <= 9,
            forall|j: int|
                0 <= j < k ==> !forbids_height(
                    *z,
                    height_along(alt1, alt2, #[trigger] sample_fraction(t1, t2, j, 8)),
                ),
        decreases 9 - k,
    {
        let t: Scalar = t1 + (t2 - t1) * number(k) / number(8);
        if height_forbidden(z, alt1 + (alt2 - alt1) * t) {
            assert(t == sample_fraction(t1, t2, k as int, 8));
            return true;
        }
        k = k + 1;
    }
    false
}

fn line_hits_band_of<C: Fn(Calc) -> Scalar>(a: &PathPoint, b: &PathPoint, z: &Zone, calc: &C) -> (r:
    bool)
    requires
        is_function(*calc),
    ensures
        r == line_meets_band_of(*calc, *a, *b, *z),
{
    match z.zone_type {
        ZoneType::Restricted => {},
        _ => {
            return false;
        },
    }
    match &z.shape {
        ZoneShape::Polygon { .. } => false,
        ZoneShape::Circle { center, radius_km } => {
            if is_inside_at(a.lon, a.lat, a.alt_m, z, calc) || is_inside_at(
                b.lon,
                b.lat,
                b.alt_m,
                z,
                calc,
            ) {
                return true;
            }
            match segment_circle_intersect_t(
                a.lon,
                a.lat,
                b.lon,
                b.lat,
                center[0],
                center[1],
                *radius_km,
                calc,
            ) {
                None => false,
                Some((t1, t2)) => samples_in_band(a.alt_m, b.alt_m, t1, t2, z),
            }
        },
    }
}

/// Whether a climbing line meets the band of some round restricted zone.
pub open spec fn line_meets_band<C: Fn(Calc) -> Scalar>(
    calc: C,
    a: PathPoint,
    b: PathPoint,
    zones: Seq<Zone>,
) -> bool {
    exists|i: int| 0 <= i < zones.len() && line_meets_band_of(calc, a, b, #[trigger] zones[i])
}

/// Whether a climbing line meets the band of some round restricted zone.
pub fn line_hits_restricted_band_km<C: Fn(Calc) -> Scalar>(
    a: &PathPoint,
    b: &PathPoint,
    zones: &Vec<Zone>,
    calc: &C,
) -> (r: bool)
    requires
        is_function(*calc),
    ensures
        r == line_meets_band(*calc, *a, *b, zones@),
{
    let mut i: usize = 0;
    while i < zones.len()
        invariant
            is_function(*calc),
            i <= zones@.len(),
            forall|k: int|
                0 <= k < i ==> !line_meets_band_of(*calc, *a, *b, #[trigger] zones@[k]),
        decreases zones.len() - i,
    {
        if line_hits_band_of(a, b, &zones[i], calc) {
            assert(line_meets_band_of(*calc, *a, *b, zones@[i as int]));
            return true;
        }
        i = i + 1;
    }
    false
}

/// A count of samples kept between 8 and 2048.
pub open spec fn sample_limit(n: int) -> int {
    if n < 8 {
        8
    } else if n > 2048 {
        2048
    } else {
        n
    }
}

/// One sample for every step of a length, rounded up; 8 to 2048 of them.
pub open spec fn samples_up(x: Scalar) -> int {
    if x.nan() || x.negative() {
        8
    } else if x.infinite() {
        2048
    } else {
        sample_limit(x.ceil_value())
    }
}

/// One sample for every step of a length, rounded; 8 to 2048 of them.
pub open spec fn samples_rounded(x: Scalar) -> int {
    if x.nan() || x.negative() {
        8
    } else if x.infinite() {
        2048
    } else {
        sample_limit(x.round_value())
    }
}

fn limit_samples(n: u64) -> (r: u64)
    ensures
        r == sample_limit(n as int),
{
    if n < 8 {
        8
    } else if n > 2048 {
        2048
    } else {
        n
    }
}

/// Sum of the lengths in metres of the legs from point `lo` to point `k`.
pub open spec fn legs_length<C: Fn(Calc) -> Scalar>(
    calc: C,
    raw: Seq<PathPoint>,
    lo: int,
    k: int,
) -> Scalar
    decreases k - lo,
{
    if k <= lo {
        whole(0)
    } else {
        legs_length(calc, raw, lo, k - 1) + sphere_distance_m(
            calc,
            raw[k - 1].lon,
            raw[k - 1].lat,
            raw[k].lon,
            raw[k].lat,
        )
    }
}

/// Where sample `j` of `n` falls between point numbers `lo` and `hi`.
pub open spec fn along_index(lo: int, hi: int, j: int, n: int) -> Scalar {
    whole(lo) + whole(j) / whole(n) * whole(hi - lo)
}

/// The number of the point at or before a position, kept between 0 and `hi`.
pub open spec fn point_before(idx: Scalar, hi: int) -> int {
    let k = saturated(idx.floor_value());
    if !idx.finite() || k < 0 {
        0
    } else if k > hi {
        hi
    } else {
        k
    }
}

/// The place of sample `j` of `n` along a stretch of a route.
pub open spec fn place_along(raw: Seq<PathPoint>, lo: int, hi: int, j: int, n: int) -> (Scalar, Scalar) {
    let idx = along_index(lo, hi, j, n);
    let i0 = point_before(idx, hi);
    let i1 = if i0 + 1 < hi {
        i0 + 1
    } else {
        hi
    };
    let f = idx - whole(i0);
    (raw[i0].lon + (raw[i1].lon - raw[i0].lon) * f, raw[i0].lat + (raw[i1].lat - raw[i0].lat) * f)
}

/// The highest land under the samples before number `j` along a route.
pub open spec fn highest_along<T: Fn((Scalar, Scalar)) -> Sample>(
    ground: T,
    raw: Seq<PathPoint>,
    lo: int,
    hi: int,
    n: int,
    j: int,
) -> Option<Scalar>
    decreases j,
{
    if j <= 0 {
        None
    } else {
        raised_by(
            highest_along(ground, raw, lo, hi, n, j - 1),
            image(ground, place_along(raw, lo, hi, j - 1, n)),
        )
    }
}

/// The place a fraction along the straight line between two places.
pub open spec fn place_between(start: Geo, target: Geo, u: Scalar) -> (Scalar, Scalar) {
    (start.lon + (target.lon - start.lon) * u, start.lat + (target.lat - start.lat) * u)
}

/// The highest land under the samples before number `j` of a straight line.
pub open spec fn highest_between<T: Fn((Scalar, Scalar)) -> Sample>(
    ground: T,
    start: Geo,
    target: Geo,
    u_in: Scalar,
    u_out: Scalar,
    n: int,
    j: int,
) -> Option<Scalar>
    decreases j,
{
    if j <= 0 {
        None
    } else {
        let u = u_in + (u_out - u_in) * (whole(j - 1) / whole(n));
        raised_by(
            highest_between(ground, start, target, u_in, u_out, n, j - 1),
            image(ground, place_between(start, target, u)),
        )
    }
}

/// Whether a height clears the highest land by 100 metres; no land is cleared.
pub open spec fn clears(highest: Option<Scalar>, bottom: Scalar) -> bool {
    highest is Some ==> highest->0 + whole(100) <= bottom
}

fn is_clear(highest: Option<Scalar>, bottom: Scalar) -> (r: bool)
    ensures
        r == clears(highest, bottom),
{
    match highest {
        Some(h) => (h + number(100)).le(&bottom),
        None => true,
    }
}

/// A stretch of a route by its first and last point.
#[derive(Clone, Copy)]
pub struct Stretch {
    pub from: usize,
    pub to: usize,
}

/// Whether flying at `bottom` along a stretch of a route clears the ground.
pub open spec fn route_clears<C: Fn(Calc) -> Scalar, T: Fn((Scalar, Scalar)) -> Sample>(
    calc: C,
    ground: T,
    raw: Seq<PathPoint>,
    lo: int,
    hi: int,
    bottom: Scalar,
) -> bool {
    let n = samples_up(legs_length(calc, raw, lo, hi) / whole(200));
    clears(highest_along(ground, raw, lo, hi, n, n + 1), bottom)
}

/// The part of the straight line from start to target inside a circle.
pub open spec fn straight_span<C: Fn(Calc) -> Scalar>(
    calc: C,
    start: Geo,
    target: Geo,
    cx: Scalar,
    cy: Scalar,
    radius_km: Scalar,
) -> Option<(Scalar, Scalar)> {
    let f = chord_frame(calc, start.lon, start.lat, target.lon, target.lat, cx, cy);
    let q = chord_quadratic(f, radius_km);
    let (t1, t2) = quadratic_roots(q);
    let (u_in, u_out) = (t1.larger(whole(0)), t2.smaller(whole(1)));
    if q.0 < frac(1, 1_000_000_000) || discriminant(q) <= whole(0) || u_out <= u_in {
        None
    } else {
        Some((u_in, u_out))
    }
}

/// Whether flying at `bottom` straight across a circle clears the ground.
pub open spec fn line_clears<C: Fn(Calc) -> Scalar, T: Fn((Scalar, Scalar)) -> Sample>(
    calc: C,
    ground: T,
    start: Geo,
    target: Geo,
    cx: Scalar,
    cy: Scalar,
    radius_km: Scalar,
    bottom: Scalar,
) -> bool {
    match straight_span(calc, start, target, cx, cy, radius_km) {
        None => true,
        Some((u_in, u_out)) => {
            let f = chord_frame(calc, start.lon, start.lat, target.lon, target.lat, cx, cy);
            let seg_km = (u_out - u_in) * hypotenuse(f.dx, f.dy);
            let n = samples_rounded(seg_km / frac(2, 10));
            clears(highest_between(ground, start, target, u_in, u_out, n, n + 1), bottom)
        },
    }
}

/// Whether a flight below a round zone at `bottom` clears the ground. The
/// stretch of the route through the zone counts where it is known, else the
/// straight line from start to target. Without terrain everything is clear; a
/// polygon cannot be passed below.
pub open spec fn bottom_clears<C: Fn(Calc) -> Scalar, T: Fn((Scalar, Scalar)) -> Sample>(
    calc: C,
    ground: Option<&T>,
    z: Zone,
    bottom: Scalar,
    start: Geo,
    target: Geo,
    raw: Seq<PathPoint>,
    band: Option<(int, int)>,
) -> bool {
    ground is Some ==> match z.shape {
        ZoneShape::Polygon { .. } => false,
        ZoneShape::Circle { center, radius_km } => match band {
            Some((lo, hi)) => route_clears(calc, *ground->0, raw, lo, hi, bottom),
            None => line_clears(
                calc,
                *ground->0,
                start,
                target,
                center[0],
                center[1],
                radius_km,
                bottom,
            ),
        },
    }
}

fn route_is_clear<C: Fn(Calc) -> Scalar, T: Fn((Scalar, Scalar)) -> Sample>(
    raw: &Vec<PathPoint>,
    lo: usize,
    hi: usize,
    bottom: Scalar,
    ground: &T,
    calc: &C,
) -> (r: bool)
    requires
        is_function(*calc),
        is_function(*ground),
        lo <= hi < raw@.len(),
    ensures
        r == route_clears(*calc, *ground, raw@, lo as int, hi as int, bottom),
{
    let mut len: Scalar = number(0);
    let mut k: usize = lo;
    while k < hi
        invariant
            is_function(*calc),
            lo <= k <= hi < raw@.len(),
            len == legs_length(*calc, raw@, lo as int, k as int),
        decreases hi - k,
    {
        let a: PathPoint = raw[k];
        let b: PathPoint = raw[k + 1];
        len = len + haversine_m(a.lon, a.lat, b.lon, b.lat, calc);
        k = k + 1;
    }
    let n: u64 = limit_samples((len / number(200)).ceil_u64());
    let mut highest: Option<Scalar> = None;
    let mut j: u64 = 0;
    while j <= n
        invariant
            is_function(*ground),
            lo <= hi < raw@.len(),
            n <= 2048,
            j <= n + 1,
            highest == highest_along(*ground, raw@, lo as int, hi as int, n as int, j as int),
        decreases n + 1 - j,
    {
        let idx: Scalar = number(lo as u64) + number(j) / number(n) * number((hi - lo) as u64);
        let fl: i64 = idx.floor_i64();
        let i0: usize = if !idx.is_finite() || fl < 0 {
            0
        } else if fl as u64 > hi as u64 {
            hi
        } else {
            fl as usize
        };
        let i1: usize = if i0 < hi && i0 + 1 < hi { i0 + 1 } else { hi };
        let f: Scalar = idx - number(i0 as u64);
        let lon: Scalar = raw[i0].lon + (raw[i1].lon - raw[i0].lon) * f;
        let lat: Scalar = raw[i0].lat + (raw[i1].lat - raw[i0].lat) * f;
        highest = raise(highest, ask(ground, (lon, lat)));
        j = j + 1;
    }
    is_clear(highest, bottom)
}

fn line_is_clear<C: Fn(Calc) -> Scalar, T: Fn((Scalar, Scalar)) -> Sample>(
    start: &Geo,
    target: &Geo,
    cx: Scalar,
    cy: Scalar,
    radius_km: Scalar,
    bottom: Scalar,
    ground: &T,
    calc: &C,
) -> (r: bool)
    requires
        is_function(*calc),
        is_function(*ground),
    ensures
        r == line_clears(*calc, *ground, *start, *target, cx, cy, radius_km, bottom),
{
    let f: ChordFrame = make_chord_frame(start.lon, start.lat, target.lon, target.lat, cx, cy, calc);
    let q: (Scalar, Scalar, Scalar) = make_quadratic(&f, radius_km);
    if q.0.lt(&ratio(1, 1_000_000_000)) {
        return true;
    }
    if make_discriminant(q).le(&number(0)) {
        return true;
    }
    let (t1, t2) = make_roots(q);
    let u_in: Scalar = t1.max(&number(0));
    let u_out: Scalar = t2.min(&number(1));
    if u_out.le(&u_in) {
        return true;
    }
    let seg_km: Scalar = (u_out - u_in) * (f.dx * f.dx + f.dy * f.dy).sqrt();
    let n: u64 = limit_samples((seg_km / ratio(2, 10)).round_u64());
    let mut highest: Option<Scalar> = None;
    let mut j: u64 = 0;
    while j <= n
        invariant
            is_function(*ground),
            n <= 2048,
            j <= n + 1,
            highest == highest_between(*ground, *start, *target, u_in, u_out, n as int, j as int),
        decreases n + 1 - j,
    {
        let u: Scalar = u_in + (u_out - u_in) * (number(j) / number(n));
        let lon: Scalar = start.lon + (target.lon - start.lon) * u;
        let lat: Scalar = start.lat + (target.lat - start.lat) * u;
        highest = raise(highest, ask(ground, (lon, lat)));
        j = j + 1;
    }
    is_clear(highest, bottom)
}

/// The two ends of a stretch in order, where it lies on the route.
pub open spec fn ordered(band: Option<Stretch>) -> Option<(int, int)> {
    match band {
        None => None,
        Some(s) => if s.from <= s.to {
            Some((s.from as int, s.to as int))
        } else {
            Some((s.to as int, s.from as int))
        },
    }
}

/// Whether a flight below a round zone clears the ground.
pub fn bottom_terrain_ok<C: Fn(Calc) -> Scalar, T: Fn((Scalar, Scalar)) -> Sample>(
    z: &Zone,
    ground: Option<&T>,
    bottom: Scalar,
    start: &Geo,
    target: &Geo,
    raw: &Vec<PathPoint>,
    band: Option<Stretch>,
    calc: &C,
) -> (r: bool)
    requires
        is_function(*calc),
        ground is Some ==> is_function(*ground->0),
        band is Some ==> band->0.from < raw@.len() && band->0.to < raw@.len(),
    ensures
        r == bottom_clears(*calc, ground, *z, bottom, *start, *target, raw@, ordered(band)),
{
    match ground {
        None => true,
        Some(g) => match &z.shape {
            ZoneShape::Polygon { .. } => false,
            ZoneShape::Circle { center, radius_km } => match band {
                Some(s) => {
                    if s.from <= s.to {
                        route_is_clear(raw, s.from, s.to, bottom, g, calc)
                    } else {
                        route_is_clear(raw, s.to, s.from, bottom, g, calc)
                    }
                },
                None => line_is_clear(
                    start,
                    target,
                    center[0],
                    center[1],
                    *radius_km,
                    bottom,
                    g,
                    calc,
                ),
            },
        },
    }
}

/// The pattern of positive infinity.
pub open spec fn infinity() -> Scalar {
    Scalar { bits: INFINITY_BITS }
}

/// Ground needed in metres to change from one height to another, with a
/// quarter to spare; without end if the aircraft cannot climb.
pub open spec fn climb_distance_m<C: Fn(Calc) -> Scalar>(
    calc: C,
    alt_m: Scalar,
    pass: Scalar,
    max_climb_deg: Scalar,
) -> Scalar {
    if max_climb_deg > frac(1, 10) {
        (alt_m - pass).magnitude() / image(calc, Calc::Tan(radians(max_climb_deg))) * frac(125, 100)
    } else {
        infinity()
    }
}

fn climb_distance<C: Fn(Calc) -> Scalar>(
    alt_m: Scalar,
    pass: Scalar,
    max_climb_deg: Scalar,
    calc: &C,
) -> (r: Scalar)
    requires
        is_function(*calc),
    ensures
        r == climb_distance_m(*calc, alt_m, pass, max_climb_deg),
{
    if ratio(1, 10).lt(&max_climb_deg) {
        (alt_m - pass).abs() / ask(calc, Calc::Tan(to_radians(max_climb_deg))) * ratio(125, 100)
    } else {
        Scalar { bits: INFINITY_BITS }
    }
}

/// Whether both ends of the flight leave room outside a circle for a change to
/// the height `pass`.
pub open spec fn climb_fits<C: Fn(Calc) -> Scalar>(
    calc: C,
    center: Vertex,
    radius_km: Scalar,
    start: Geo,
    target: Geo,
    alt_m: Scalar,
    pass: Scalar,
    max_climb_deg: Scalar,
) -> bool {
    let need = climb_distance_m(calc, alt_m, pass, max_climb_deg);
    let d_in = flat_km(calc, center[0], center[1], start.lon, start.lat) - radius_km;
    let d_out = flat_km(calc, center[0], center[1], target.lon, target.lat) - radius_km;
    d_in * whole(1000) >= need && d_out * whole(1000) >= need
}

/// What a flight asks of its aircraft.
#[derive(Clone, Copy)]
pub struct Performance {
    /// Height flown, in metres.
    pub alt_m: Scalar,
    /// Steepest climb, in degrees.
    pub max_climb_deg: Scalar,
    /// Highest height, in metres, where there is a limit.
    pub ceiling_m: Option<Scalar>,
}

/// The height to pass below a zone: 500 metres under its band.
pub open spec fn height_below(z: Zone) -> Scalar {
    z.alt_min_m->0 - whole(500)
}

/// The height to pass above a zone: 500 metres over its band.
pub open spec fn height_above(z: Zone) -> Scalar {
    z.alt_max_m->0 + whole(500)
}

/// Whether a round zone can be passed below.
pub open spec fn passes_below<C: Fn(Calc) -> Scalar, T: Fn((Scalar, Scalar)) -> Sample>(
    calc: C,
    ground: Option<&T>,
    z: Zone,
    center: Vertex,
    radius_km: Scalar,
    p: Performance,
    start: Geo,
    target: Geo,
    raw: Seq<PathPoint>,
    band: Option<(int, int)>,
) -> bool {
    let bottom = height_below(z);
    &&& bottom >= whole(0)
    &&& bottom < z.alt_min_m->0
    &&& climb_fits(calc, center, radius_km, start, target, p.alt_m, bottom, p.max_climb_deg)
    &&& bottom_clears(calc, ground, z, bottom, start, target, raw, band)
}

/// Whether a round zone can be passed above.
pub open spec fn passes_above<C: Fn(Calc) -> Scalar>(
    calc: C,
    z: Zone,
    center: Vertex,
    radius_km: Scalar,
    p: Performance,
    start: Geo,
    target: Geo,
) -> bool {
    let top = height_above(z);
    &&& climb_fits(calc, center, radius_km, start, target, p.alt_m, top, p.max_climb_deg)
    &&& p.ceiling_m is Some ==> top <= p.ceiling_m->0
}

/// The height at which to pass a restricted zone: below it where that is
/// possible, else above it. None where neither is, for a polygon, and for a
/// zone without both ends of its band.
pub open spec fn pass_height<C: Fn(Calc) -> Scalar, T: Fn((Scalar, Scalar)) -> Sample>(
    calc: C,
    ground: Option<&T>,
    z: Zone,
    p: Performance,
    start: Geo,
    target: Geo,
    raw: Seq<PathPoint>,
    band: Option<(int, int)>,
) -> Option<Scalar> {
    match z.shape {
        ZoneShape::Polygon { .. } => None,
        ZoneShape::Circle { center, radius_km } => if z.alt_min_m is None || z.alt_max_m is None {
            None
        } else if passes_below(
            calc,
            ground,
            z,
            center,
            radius_km,
            p,
            start,
            target,
            raw,
            band,
        ) {
            Some(height_below(z))
        } else if passes_above(calc, z, center, radius_km, p, start, target) {
            Some(height_above(z))
        } else {
            None
        },
    }
}

/// Whether both ends of the flight leave room for a change of height.
fn climb_has_room<C: Fn(Calc) -> Scalar>(
    center: Vertex,
    radius_km: Scalar,
    start: &Geo,
    target: &Geo,
    alt_m: Scalar,
    pass: Scalar,
    max_climb_deg: Scalar,
    calc: &C,
) -> (r: bool)
    requires
        is_function(*calc),
    ensures
        r == climb_fits(*calc, center, radius_km, *start, *target, alt_m, pass, max_climb_deg),
{
    let need: Scalar = climb_distance(alt_m, pass, max_climb_deg, calc);
    let d_in: Scalar = dist_km(center[0], center[1], start.lon, start.lat, calc) - radius_km;
    let d_out: Scalar = dist_km(center[0], center[1], target.lon, target.lat, calc) - radius_km;
    need.le(&(d_in * number(1000))) && need.le(&(d_out * number(1000)))
}

/// The height at which to pass a restricted zone, if it can be passed.
pub fn restricted_pass_alt<C: Fn(Calc) -> Scalar, T: Fn((Scalar, Scalar)) -> Sample>(
    z: &Zone,
    p: &Performance,
    ground: Option<&T>,
    start: &Geo,
    target: &Geo,
    raw: &Vec<PathPoint>,
    band: Option<Stretch>,
    calc: &C,
) -> (r: Option<Scalar>)
    requires
        is_function(*calc),
        ground is Some ==> is_function(*ground->0),
        band is Some ==> band->0.from < raw@.len() && band->0.to < raw@.len(),
    ensures
        r == pass_height(*calc, ground, *z, *p, *start, *target, raw@, ordered(band)),
{
    match &z.shape {
        ZoneShape::Polygon { .. } => None,
        ZoneShape::Circle { center, radius_km } => match (z.alt_min_m, z.alt_max_m) {
            (Some(lo), Some(hi)) => {
                let bottom: Scalar = lo - number(500);
                let top: Scalar = hi + number(500);
                if number(0).le(&bottom) && bottom.lt(&lo) && climb_has_room(
                    *center,
                    *radius_km,
                    start,
                    target,
                    p.alt_m,
                    bottom,
                    p.max_climb_deg,
                    calc,
                ) && bottom_terrain_ok(z, ground, bottom, start, target, raw, band, calc) {
                    return Some(bottom);
                }
                let under_ceiling: bool = match p.ceiling_m {
                    Some(c) => top.le(&c),
                    None => true,
                };
                if climb_has_room(
                    *center,
                    *radius_km,
                    start,
                    target,
                    p.alt_m,
                    top,
                    p.max_climb_deg,
                    calc,
                ) && under_ceiling {
                    return Some(top);
                }
                None
            },
            _ => None,
        },
    }
}

/// Whether a restricted zone has to be walled off: it blocks the height flown
/// and can be passed neither below nor above.
pub fn restricted_detour_required<C: Fn(Calc) -> Scalar, T: Fn((Scalar, Scalar)) -> Sample>(
    z: &Zone,
    p: &Performance,
    ground: Option<&T>,
    start: &Geo,
    target: &Geo,
    calc: &C,
) -> (r: bool)
    requires
        is_function(*calc),
        ground is Some ==> is_function(*ground->0),
    ensures
        r == (blocks_height(*z, p.alt_m) && pass_height(
            *calc,
            ground,
            *z,
            *p,
            *start,
            *target,
            Seq::<PathPoint>::empty(),
            None,
        ) is None),
{
    if !restricted_blocks_alt(z, p.alt_m) {
        return false;
    }
    let none: Vec<PathPoint> = Vec::new();
    assert(none@ =~= Seq::<PathPoint>::empty());
    match restricted_pass_alt(z, p, ground, start, target, &none, None, calc) {
        Some(_) => false,
        None => true,
    }
}

/// A zone is always passed outside its band, and below it rather than above.
/// (Left out: an upper end so large that 500 metres more is the same double.)
pub proof fn law_pass_height_outside_band<C: Fn(Calc) -> Scalar, T: Fn((Scalar, Scalar)) -> Sample>(
    calc: C,
    ground: Option<&T>,
    z: Zone,
    p: Performance,
    start: Geo,
    target: Geo,
    raw: Seq<PathPoint>,
    band: Option<(int, int)>,
)
    requires
        pass_height(calc, ground, z, p, start, target, raw, band) is Some,
        z.alt_max_m is Some ==> z.alt_max_m->0 < height_above(z),
    ensures
        ({
            let h = pass_height(calc, ground, z, p, start, target, raw, band)->0;
            &&& !forbids_height(z, h)
            &&& {
                ||| h == height_below(z) && h >= whole(0) && h < z.alt_min_m->0
                ||| h == height_above(z) && h > z.alt_max_m->0 && (p.ceiling_m is Some ==> h
                    <= p.ceiling_m->0)
            }
        }),
{
}

/// The point after the first `k` zones have pushed it out: a round wall moves a
/// point that is closer than its radius, the inflation and the margin together
/// outwards to that distance.
pub open spec fn pushed<C: Fn(Calc) -> Scalar>(
    calc: C,
    lon: Scalar,
    lat: Scalar,
    zones: Seq<Zone>,
    inflation_km: Scalar,
    margin_km: Scalar,
    k: int,
) -> (Scalar, Scalar)
    decreases k,
{
    if k <= 0 {
        (lon, lat)
    } else {
        let (x, y) = pushed(calc, lon, lat, zones, inflation_km, margin_km, k - 1);
        push_by(calc, x, y, zones[k - 1], inflation_km, margin_km)
    }
}

/// The point after one zone has pushed it out.
pub open spec fn push_by<C: Fn(Calc) -> Scalar>(
    calc: C,
    x: Scalar,
    y: Scalar,
    z: Zone,
    inflation_km: Scalar,
    margin_km: Scalar,
) -> (Scalar, Scalar) {
    match z.shape {
        ZoneShape::Polygon { .. } => (x, y),
        ZoneShape::Circle { center, radius_km } => {
            let d = flat_km(calc, x, y, center[0], center[1]);
            let goal = radius_km + inflation_km + margin_km;
            if !z.wall() || !(d < goal) {
                (x, y)
            } else if d < frac(1, 1_000_000) {
                (center[0] + goal / frac(11132, 100), y)
            } else {
                let f = goal / d;
                (center[0] + (x - center[0]) * f, center[1] + (y - center[1]) * f)
            }
        },
    }
}

fn push_point<C: Fn(Calc) -> Scalar>(
    x: Scalar,
    y: Scalar,
    z: &Zone,
    inflation_km: Scalar,
    margin_km: Scalar,
    calc: &C,
) -> (r: (Scalar, Scalar))
    requires
        is_function(*calc),
    ensures
        r == push_by(*calc, x, y, *z, inflation_km, margin_km),
{
    match &z.shape {
        ZoneShape::Polygon { .. } => (x, y),
        ZoneShape::Circle { center, radius_km } => {
            if !z.is_wall() {
                return (x, y);
            }
            let d: Scalar = dist_km(x, y, center[0], center[1], calc);
            let goal: Scalar = *radius_km + inflation_km + margin_km;
            if !d.lt(&goal) {
                return (x, y);
            }
            if d.lt(&ratio(1, 1_000_000)) {
                return (center[0] + goal / ratio(11132, 100), y);
            }
            let f: Scalar = goal / d;
            (center[0] + (x - center[0]) * f, center[1] + (y - center[1]) * f)
        },
    }
}

/// Moves each point of a route out of the round walls; heights stay.
pub fn push_out_of_walls<C: Fn(Calc) -> Scalar>(
    pts: &Vec<PathPoint>,
    zones: &Vec<Zone>,
    inflation_km: Scalar,
    margin_km: Scalar,
    calc: &C,
) -> (r: Vec<PathPoint>)
    requires
        is_function(*calc),
    ensures
        r@.len() == pts@.len(),
        forall|i: int|
            0 <= i < r@.len() ==> #[trigger] r@[i] == pushed_point(
                *calc,
                pts@[i],
                zones@,
                inflation_km,
                margin_km,
            ),
{
    let mut out: Vec<PathPoint> = Vec::new();
    let mut i: usize = 0;
    while i < pts.len()
        invariant
            is_function(*calc),
            i <= pts@.len(),
            out@.len() == i,
            forall|k: int|
                0 <= k < i ==> #[trigger] out@[k] == pushed_point(
                    *calc,
                    pts@[k],
                    zones@,
                    inflation_km,
                    margin_km,
                ),
        decreases pts.len() - i,
    {
        let p: PathPoint = pts[i];
        let mut at: (Scalar, Scalar) = (p.lon, p.lat);
        let mut k: usize = 0;
        while k < zones.len()
            invariant
                is_function(*calc),
                k <= zones@.len(),
                at == pushed(
                    *calc,
                    p.lon,
                    p.lat,
                    zones@,
                    inflation_km,
                    margin_km,
                    k as int,
                ),
            decreases zones.len() - k,
        {
            at = push_point(at.0, at.1, &zones[k], inflation_km, margin_km, calc);
            k = k + 1;
        }
        out.push(PathPoint::new(at.0, at.1, p.alt_m));
        i = i + 1;
    }
    out
}

/// A route point after all zones have pushed it out.
pub open spec fn pushed_point<C: Fn(Calc) -> Scalar>(
    calc: C,
    p: PathPoint,
    zones: Seq<Zone>,
    inflation_km: Scalar,
    margin_km: Scalar,
) -> PathPoint {
    let (lon, lat) = pushed(
        calc,
        p.lon,
        p.lat,
        zones,
        inflation_km,
        margin_km,
        zones.len() as int,
    );
    PathPoint { lon, lat, alt_m: p.alt_m, heading_deg: None }
}

} // verus!
