//! Arcs that round off a sharp turn of a route.

use crate::config::Waypoint;
use crate::geometry::{radians, to_radians};
use crate::numeric::{frac, number, ratio, whole};
use crate::oracle::{ask, image, is_function, Calc};
use crate::path::{
    angle_diff_deg, angle_gap, bearing, bearing_deg, haversine_m, sphere_distance_m, PathPoint,
};
use crate::scalar::{Scalar, SIGN_BIT};
use vstd::prelude::*;

verus! {

/// The position and height of a route point.
pub open spec fn fix(p: PathPoint) -> Waypoint {
    Waypoint { lon: p.lon, lat: p.lat, alt_m: p.alt_m }
}

pub fn to_fix(p: &PathPoint) -> (r: Waypoint)
    ensures
        r == fix(*p),
{
    Waypoint { lon: p.lon, lat: p.lat, alt_m: p.alt_m }
}

/// A rule on straight legs.
pub trait LegCheck {
    /// Whether what the rule calls is a function.
    spec fn settled(&self) -> bool;

    /// Whether the leg between two points is allowed.
    spec fn allows(&self, a: Waypoint, b: Waypoint) -> bool;

    fn check(&self, a: &Waypoint, b: &Waypoint) -> (r: bool)
        requires
            self.settled(),
        ensures
            r == self.allows(*a, *b),
    ;
}

/// A rule on straight legs given as a function.
pub struct LegFunction<F: Fn((Waypoint, Waypoint)) -> bool> {
    pub f: F,
}

impl<F: Fn((Waypoint, Waypoint)) -> bool> LegCheck for LegFunction<F> {
    open spec fn settled(&self) -> bool {
        is_function(self.f)
    }

    open spec fn allows(&self, a: Waypoint, b: Waypoint) -> bool {
        image(self.f, (a, b))
    }

    fn check(&self, a: &Waypoint, b: &Waypoint) -> (r: bool) {
        ask(&self.f, (*a, *b))
    }
}

/// Whether the straight leg between two route points is allowed by `check`.
pub open spec fn leg_ok<K: LegCheck>(check: K, a: PathPoint, b: PathPoint) -> bool {
    check.allows(fix(a), fix(b))
}

pub fn is_leg_ok<K: LegCheck>(check: &K, a: &PathPoint, b: &PathPoint) -> (r:
    bool)
    requires
        check.settled(),
    ensures
        r == leg_ok(*check, *a, *b),
{
    check.check(&to_fix(a), &to_fix(b))
}

/// Bearing from one route point to another.
pub open spec fn heading_of<C: Fn(Calc) -> Scalar>(calc: C, a: PathPoint, b: PathPoint) -> Scalar {
    bearing(calc, a.lon, a.lat, b.lon, b.lat)
}

pub fn heading_deg_pts<C: Fn(Calc) -> Scalar>(a: &PathPoint, b: &PathPoint, calc: &C) -> (r: Scalar)
    requires
        is_function(*calc),
    ensures
        r == heading_of(*calc, *a, *b),
{
    bearing_deg(a.lon, a.lat, b.lon, b.lat, calc)
}

/// The turn at `b` on the way from `a` to `c`, between zero and half a turn.
pub open spec fn turn_at<C: Fn(Calc) -> Scalar>(calc: C, a: PathPoint, b: PathPoint, c: PathPoint) -> Scalar {
    angle_gap(heading_of(calc, a, b), heading_of(calc, b, c)).magnitude()
}

/// How an arc is to be laid.
#[derive(Clone, Copy)]
pub struct ArcRule {
    /// Largest turn between two neighbouring legs, in degrees.
    pub max_turn_deg: Scalar,
    /// Smallest radius of the arc, in metres.
    pub min_r_m: Scalar,
    /// Whether the arc starts at the turning point itself, which is then kept.
    pub keep_b: bool,
    /// Fewest legs of the arc.
    pub min_steps: usize,
}

/// Measures of an arc.
pub struct ArcShape {
    pub h_ab: Scalar,
    pub h_bc: Scalar,
    /// Size of the turn in degrees.
    pub theta: Scalar,
    /// One for a right turn, minus one for a left turn.
    pub side: Scalar,
    /// Number of legs.
    pub n: u64,
    /// Distance of the ends of the arc from the turning point, in metres.
    pub d_m: Scalar,
    /// Radius in metres.
    pub r_eff: Scalar,
    /// Metres per degree of longitude.
    pub kx: Scalar,
}

/// Number of legs of an arc: enough for the largest turn, and at least two.
pub open spec fn arc_steps(theta: Scalar, rule: ArcRule) -> int {
    let q = theta / rule.max_turn_deg;
    let need = if q.nan() || q.negative() {
        0
    } else if q.infinite() || q.ceil_value() > SIGN_BIT {
        SIGN_BIT as int
    } else {
        q.ceil_value()
    };
    let least = if rule.min_steps < 2 {
        2
    } else {
        rule.min_steps as int
    };
    if need < least {
        least
    } else {
        need
    }
}

/// The radius of the arc at a turn: the smallest one where the turning point is kept.
/// Else the one with ends `d_m` from the turning point, which falls below the
/// smallest only where the leg behind it was too short for ends `d_raw` away.
pub open spec fn arc_radius(
    rule: ArcRule,
    r_m: Scalar,
    d_raw: Scalar,
    d_m: Scalar,
    tan_half: Scalar,
) -> Scalar {
    if rule.keep_b {
        rule.min_r_m
    } else if d_raw > whole(0) {
        if d_m < d_raw {
            d_m / tan_half
        } else {
            (d_m / tan_half).larger(rule.min_r_m)
        }
    } else {
        r_m
    }
}

fn find_radius(rule: &ArcRule, r_m: Scalar, d_raw: Scalar, d_m: Scalar, tan_half: Scalar) -> (r:
    Scalar)
    ensures
        r == arc_radius(*rule, r_m, d_raw, d_m, tan_half),
{
    if rule.keep_b {
        rule.min_r_m
    } else if number(0).lt(&d_raw) {
        if d_m.lt(&d_raw) {
            d_m / tan_half
        } else {
            (d_m / tan_half).max(&rule.min_r_m)
        }
    } else {
        r_m
    }
}

/// The measures of the arc at `b`, where the turn is too sharp and not a complete
/// reversal, and there is room for the smallest radius.
pub open spec fn arc_shape<C: Fn(Calc) -> Scalar>(
    calc: C,
    a: PathPoint,
    b: PathPoint,
    c: PathPoint,
    rule: ArcRule,
) -> Option<ArcShape> {
    let h_ab = heading_of(calc, a, b);
    let h_bc = heading_of(calc, b, c);
    let signed = angle_gap(h_bc, h_ab);
    let theta = signed.magnitude();
    let n = arc_steps(theta, rule);
    let half_sin = image(calc, Calc::Sin(radians(theta / whole(n) / whole(2))));
    let least_step = if rule.keep_b {
        whole(50)
    } else {
        whole(2000)
    };
    let step_m = (whole(2) * rule.min_r_m * half_sin).larger(least_step);
    let r_m = step_m / (whole(2) * half_sin).larger(frac(1, 1_000_000_000));
    let tan_half = image(calc, Calc::Tan(radians(theta / whole(2))));
    let d_raw = r_m * tan_half;
    let d_m = d_raw.smaller(sphere_distance_m(calc, b.lon, b.lat, c.lon, c.lat) * frac(75, 100));
    let r_eff = arc_radius(rule, r_m, d_raw, d_m, tan_half);
    if theta <= rule.max_turn_deg || theta < frac(1, 1_000_000) || theta > frac(179_999, 1000) || !(
    r_eff >= rule.min_r_m) {
        None
    } else {
        Some(
            ArcShape {
                h_ab,
                h_bc,
                theta,
                side: if signed > whole(0) {
                    whole(1)
                } else {
                    whole(1).opposite()
                },
                n: n as u64,
                d_m,
                r_eff,
                kx: whole(111_320) * image(calc, Calc::Cos(radians(b.lat))),
            },
        )
    }
}

/// The place reached from another by flying a distance on a heading.
pub open spec fn reached<C: Fn(Calc) -> Scalar>(
    calc: C,
    kx: Scalar,
    lon: Scalar,
    lat: Scalar,
    h_deg: Scalar,
    dist_m: Scalar,
) -> (Scalar, Scalar) {
    let e = dist_m * image(calc, Calc::Sin(radians(h_deg)));
    let n = dist_m * image(calc, Calc::Cos(radians(h_deg)));
    (lon + e / kx, lat + n / whole(111_320))
}

fn reach<C: Fn(Calc) -> Scalar>(
    kx: Scalar,
    lon: Scalar,
    lat: Scalar,
    h_deg: Scalar,
    dist_m: Scalar,
    calc: &C,
) -> (r: (Scalar, Scalar))
    requires
        is_function(*calc),
    ensures
        r == reached(*calc, kx, lon, lat, h_deg, dist_m),
{
    let e: Scalar = dist_m * ask(calc, Calc::Sin(to_radians(h_deg)));
    let n: Scalar = dist_m * ask(calc, Calc::Cos(to_radians(h_deg)));
    (lon + e / kx, lat + n / number(111_320))
}

/// A route point at a place, at the height of `b`.
pub open spec fn level_with(at: (Scalar, Scalar), b: PathPoint) -> PathPoint {
    PathPoint { lon: at.0, lat: at.1, alt_m: b.alt_m, heading_deg: None }
}

/// Where the arc starts: at `b` itself, or before it on the way from `a`.
pub open spec fn arc_start<C: Fn(Calc) -> Scalar>(calc: C, s: ArcShape, b: PathPoint, rule: ArcRule) -> (
    Scalar,
    Scalar,
) {
    if rule.keep_b {
        (b.lon, b.lat)
    } else {
        reached(calc, s.kx, b.lon, b.lat, s.h_ab, s.d_m.opposite())
    }
}

/// Point `k` of the circle of an arc.
pub open spec fn arc_point<C: Fn(Calc) -> Scalar>(
    calc: C,
    s: ArcShape,
    b: PathPoint,
    rule: ArcRule,
    k: int,
) -> PathPoint {
    let at = arc_start(calc, s, b, rule);
    let phi = s.h_ab - s.side * whole(90);
    let mid = reached(calc, s.kx, at.0, at.1, phi + whole(180), s.r_eff);
    let h = radians(phi + s.side * (whole(k) / whole(s.n as int)) * s.theta);
    level_with(
        (
            mid.0 + s.r_eff * image(calc, Calc::Sin(h)) / s.kx,
            mid.1 + s.r_eff * image(calc, Calc::Cos(h)) / whole(111_320),
        ),
        b,
    )
}

/// The points of an arc: its start, the points on its circle, and its end, which
/// lies on the way to `c` unless the turning point is kept.
pub open spec fn arc_points<C: Fn(Calc) -> Scalar>(calc: C, s: ArcShape, b: PathPoint, rule: ArcRule) -> Seq<
    PathPoint,
> {
    Seq::new(
        (s.n + 1) as nat,
        |k: int|
            if k == 0 {
                level_with(arc_start(calc, s, b, rule), b)
            } else if k == s.n && !rule.keep_b {
                level_with(reached(calc, s.kx, b.lon, b.lat, s.h_bc, s.d_m), b)
            } else {
                arc_point(calc, s, b, rule, k)
            },
    )
}

/// Whether the way from `a` onto an arc and along it is allowed.
pub open spec fn arc_allowed<K: LegCheck>(
    check: K,
    a: PathPoint,
    pts: Seq<PathPoint>,
) -> bool {
    &&& leg_ok(check, a, pts[0])
    &&& forall|k: int| 0 <= k < pts.len() - 1 ==> #[trigger] arc_leg_ok(check, pts, k)
}

pub open spec fn arc_leg_ok<K: LegCheck>(
    check: K,
    pts: Seq<PathPoint>,
    k: int,
) -> bool {
    leg_ok(check, pts[k], pts[k + 1])
}

/// The first point of a route from number `k` on where it can be rejoined from
/// `e`: without a sharp turn away from the heading, and by an allowed leg.
pub open spec fn rejoin<C: Fn(Calc) -> Scalar, K: LegCheck>(
    calc: C,
    check: K,
    e: PathPoint,
    h_bc: Scalar,
    max_turn_deg: Scalar,
    path: Seq<PathPoint>,
    k: int,
) -> Option<int>
    decreases path.len() - k,
{
    if k >= path.len() {
        None
    } else if angle_gap(h_bc, heading_of(calc, e, path[k])).magnitude() <= max_turn_deg && leg_ok(
        check,
        e,
        path[k],
    ) {
        Some(k)
    } else {
        rejoin(calc, check, e, h_bc, max_turn_deg, path, k + 1)
    }
}

/// An arc at `b`, where one is needed, can be laid and is allowed.
pub open spec fn arc_at<C: Fn(Calc) -> Scalar, K: LegCheck>(
    calc: C,
    check: K,
    a: PathPoint,
    b: PathPoint,
    c: PathPoint,
    rule: ArcRule,
) -> Option<Seq<PathPoint>> {
    match arc_shape(calc, a, b, c, rule) {
        None => None,
        Some(s) => if arc_allowed(check, a, arc_points(calc, s, b, rule)) {
            Some(arc_points(calc, s, b, rule))
        } else {
            None
        },
    }
}

/// An arc at `b` together with the point, behind number `i`, where the route is
/// rejoined.
pub open spec fn arc_and_rejoin<C: Fn(Calc) -> Scalar, K: LegCheck>(
    calc: C,
    check: K,
    a: PathPoint,
    b: PathPoint,
    c: PathPoint,
    rule: ArcRule,
    path: Seq<PathPoint>,
    i: int,
) -> Option<(Seq<PathPoint>, int)> {
    match arc_at(calc, check, a, b, c, rule) {
        None => None,
        Some(pts) => match rejoin(
            calc,
            check,
            pts.last(),
            heading_of(calc, b, c),
            rule.max_turn_deg,
            path,
            i + 1,
        ) {
            None => None,
            Some(k) => Some((pts, k)),
        },
    }
}

fn count_steps(theta: Scalar, rule: &ArcRule) -> (n: u64)
    ensures
        n == arc_steps(theta, *rule),
        n >= 2,
{
    let need: u64 = (theta / rule.max_turn_deg).ceil_u64();
    let least: u64 = if rule.min_steps < 2 { 2 } else { rule.min_steps as u64 };
    if need < least {
        least
    } else {
        need
    }
}

fn make_shape<C: Fn(Calc) -> Scalar>(
    a: &PathPoint,
    b: &PathPoint,
    c: &PathPoint,
    rule: &ArcRule,
    calc: &C,
) -> (r: Option<ArcShape>)
    requires
        is_function(*calc),
    ensures
        r == arc_shape(*calc, *a, *b, *c, *rule),
        r is Some ==> r->0.n >= 2,
{
    let h_ab: Scalar = heading_deg_pts(a, b, calc);
    let h_bc: Scalar = heading_deg_pts(b, c, calc);
    let signed: Scalar = angle_diff_deg(h_bc, h_ab);
    let theta: Scalar = signed.abs();
    if theta.le(&rule.max_turn_deg) || theta.lt(&ratio(1, 1_000_000)) || ratio(179_999, 1000).lt(
        &theta,
    ) {
        return None;
    }
    let n: u64 = count_steps(theta, rule);
    let half_sin: Scalar = ask(calc, Calc::Sin(to_radians(theta / number(n) / number(2))));
    let least_step: Scalar = if rule.keep_b { number(50) } else { number(2000) };
    let step_m: Scalar = (number(2) * rule.min_r_m * half_sin).max(&least_step);
    let r_m: Scalar = step_m / (number(2) * half_sin).max(&ratio(1, 1_000_000_000));
    let tan_half: Scalar = ask(calc, Calc::Tan(to_radians(theta / number(2))));
    let d_raw: Scalar = r_m * tan_half;
    let bc_m: Scalar = haversine_m(b.lon, b.lat, c.lon, c.lat, calc);
    let d_m: Scalar = d_raw.min(&(bc_m * ratio(75, 100)));
    let side: Scalar = if number(0).lt(&signed) { number(1) } else { number(1).neg() };
    let r_eff: Scalar = find_radius(rule, r_m, d_raw, d_m, tan_half);
    if !rule.min_r_m.le(&r_eff) {
        return None;
    }
    let kx: Scalar = number(111_320) * ask(calc, Calc::Cos(to_radians(b.lat)));
    Some(ArcShape { h_ab, h_bc, theta, side, n, d_m, r_eff, kx })
}

fn make_arc_points<C: Fn(Calc) -> Scalar>(s: &ArcShape, b: &PathPoint, rule: &ArcRule, calc: &C) -> (r:
    Vec<PathPoint>)
    requires
        is_function(*calc),
        s.n >= 2,
    ensures
        r@ == arc_points(*calc, *s, *b, *rule),
        r@.len() >= 3,
{
    let at: (Scalar, Scalar) = if rule.keep_b {
        (b.lon, b.lat)
    } else {
        reach(s.kx, b.lon, b.lat, s.h_ab, s.d_m.neg(), calc)
    };
    let phi: Scalar = s.h_ab - s.side * number(90);
    let mid: (Scalar, Scalar) = reach(s.kx, at.0, at.1, phi + number(180), s.r_eff, calc);
    let mut pts: Vec<PathPoint> = Vec::new();
    pts.push(PathPoint::new(at.0, at.1, b.alt_m));
    let mut k: u64 = 1;
    while k < s.n
        invariant
            is_function(*calc),
            s.n >= 2,
            1 <= k <= s.n,
            at == arc_start(*calc, *s, *b, *rule),
            phi == s.h_ab - s.side * whole(90),
            mid == reached(*calc, s.kx, at.0, at.1, phi + whole(180), s.r_eff),
            pts@.len() == k,
            pts@[0] == level_with(at, *b),
            forall|j: int|
                1 <= j < k ==> #[trigger] pts@[j] == arc_point(*calc, *s, *b, *rule, j),
        decreases s.n - k,
    {
        let h: Scalar = to_radians(phi + s.side * (number(k) / number(s.n)) * s.theta);
        let lon: Scalar = mid.0 + s.r_eff * ask(calc, Calc::Sin(h)) / s.kx;
        let lat: Scalar = mid.1 + s.r_eff * ask(calc, Calc::Cos(h)) / number(111_320);
        pts.push(PathPoint::new(lon, lat, b.alt_m));
        k = k + 1;
    }
    if rule.keep_b {
        let h: Scalar = to_radians(phi + s.side * (number(s.n) / number(s.n)) * s.theta);
        let lon: Scalar = mid.0 + s.r_eff * ask(calc, Calc::Sin(h)) / s.kx;
        let lat: Scalar = mid.1 + s.r_eff * ask(calc, Calc::Cos(h)) / number(111_320);
        pts.push(PathPoint::new(lon, lat, b.alt_m));
    } else {
        let end: (Scalar, Scalar) = reach(s.kx, b.lon, b.lat, s.h_bc, s.d_m, calc);
        pts.push(PathPoint::new(end.0, end.1, b.alt_m));
    }
    assert(pts@ =~= arc_points(*calc, *s, *b, *rule));
    pts
}

/// Rounds off the turn at `b` on the way from `a` to `c` with an arc, where the
/// turn is too sharp, and every leg onto and along the arc is allowed.
pub fn lay_arc<C: Fn(Calc) -> Scalar, K: LegCheck>(
    a: &PathPoint,
    b: &PathPoint,
    c: &PathPoint,
    rule: &ArcRule,
    check: &K,
    calc: &C,
) -> (r: Option<Vec<PathPoint>>)
    requires
        is_function(*calc),
        check.settled(),
    ensures
        r is Some <==> arc_at(*calc, *check, *a, *b, *c, *rule) is Some,
        r is Some ==> r->0@ == arc_at(*calc, *check, *a, *b, *c, *rule)->0 && r->0@.len() >= 3,
{
    match make_shape(a, b, c, rule, calc) {
        None => None,
        Some(s) => {
            let pts: Vec<PathPoint> = make_arc_points(&s, b, rule, calc);
            if !is_leg_ok(check, a, &pts[0]) {
                return None;
            }
            let n: usize = pts.len();
            let mut k: usize = 0;
            while k < n - 1
                invariant
                    check.settled(),
                    arc_shape(*calc, *a, *b, *c, *rule) == Some(s),
                    pts@ == arc_points(*calc, s, *b, *rule),
                    n == pts@.len(),
                    n >= 3,
                    k <= n - 1,
                    forall|j: int| 0 <= j < k ==> #[trigger] arc_leg_ok(*check, pts@, j),
                decreases n - 1 - k,
            {
                if !is_leg_ok(check, &pts[k], &pts[k + 1]) {
                    assert(!arc_leg_ok(*check, pts@, k as int));
                    return None;
                }
                k = k + 1;
            }
            Some(pts)
        },
    }
}

/// Rounds off the turn at `b` with an arc and finds where the route behind
/// point number `i` is rejoined.
pub fn arc_transition<C: Fn(Calc) -> Scalar, K: LegCheck>(
    a: &PathPoint,
    b: &PathPoint,
    c: &PathPoint,
    rule: &ArcRule,
    check: &K,
    path: &Vec<PathPoint>,
    i: usize,
    calc: &C,
) -> (r: Option<(Vec<PathPoint>, usize)>)
    requires
        is_function(*calc),
        check.settled(),
    ensures
        ({
            let want = arc_and_rejoin(*calc, *check, *a, *b, *c, *rule, path@, i as int);
            &&& r is Some <==> want is Some
            &&& r is Some ==> (r->0).0@ == (want->0).0 && (r->0).1 == (want->0).1 && i < (r->0).1
                < path@.len() && (r->0).0@.len() > 0
        }),
{
    match lay_arc(a, b, c, rule, check, calc) {
        None => None,
        Some(pts) => {
            let e: PathPoint = pts[pts.len() - 1];
            let h_bc: Scalar = heading_deg_pts(b, c, calc);
            let n: usize = path.len();
            if i >= n {
                return None;
            }
            let mut k: usize = i + 1;
            while k < n
                invariant
                    is_function(*calc),
                    check.settled(),
                    n == path@.len(),
                    i < k <= n,
                    arc_at(*calc, *check, *a, *b, *c, *rule) == Some(pts@),
                    e == pts@.last(),
                    h_bc == heading_of(*calc, *b, *c),
                    rejoin(
                        *calc,
                        *check,
                        e,
                        h_bc,
                        rule.max_turn_deg,
                        path@,
                        i + 1,
                    ) == rejoin(*calc, *check, e, h_bc, rule.max_turn_deg, path@, k as int),
                decreases n - k,
            {
                let h: Scalar = heading_deg_pts(&e, &path[k], calc);
                if angle_diff_deg(h_bc, h).abs().le(&rule.max_turn_deg) && is_leg_ok(
                    check,
                    &e,
                    &path[k],
                ) {
                    return Some((pts, k));
                }
                k = k + 1;
            }
            None
        },
    }
}

/// The circle of an arc that is laid is not smaller than the smallest one, and its
/// points share out the turn in as many steps as the largest turn asks for.
pub proof fn law_arc_is_flyable<C: Fn(Calc) -> Scalar, K: LegCheck>(
    calc: C,
    check: K,
    a: PathPoint,
    b: PathPoint,
    c: PathPoint,
    rule: ArcRule,
    k: int,
)
    requires
        arc_at(calc, check, a, b, c, rule) is Some,
    ensures
        ({
            let pts = arc_at(calc, check, a, b, c, rule)->0;
            let s = arc_shape(calc, a, b, c, rule)->0;
            &&& arc_shape(calc, a, b, c, rule) is Some
            &&& s.r_eff >= rule.min_r_m
            &&& pts.len() == arc_steps(s.theta, rule) + 1
            &&& pts.len() >= 3
            &&& 0 < k < pts.len() - 1 ==> pts[k] == arc_point(calc, s, b, rule, k)
        }),
{
}

/// Every leg of an arc that is laid, and the leg onto it, is allowed; the arc
/// stays at the height of the turning point, and starts at it where it is kept.
pub proof fn law_arc_is_allowed<C: Fn(Calc) -> Scalar, K: LegCheck>(
    calc: C,
    check: K,
    a: PathPoint,
    b: PathPoint,
    c: PathPoint,
    rule: ArcRule,
    k: int,
)
    requires
        arc_at(calc, check, a, b, c, rule) is Some,
    ensures
        ({
            let pts = arc_at(calc, check, a, b, c, rule)->0;
            &&& pts.len() >= 1
            &&& leg_ok(check, a, pts[0])
            &&& 0 <= k < pts.len() - 1 ==> leg_ok(check, pts[k], pts[k + 1])
            &&& 0 <= k < pts.len() ==> pts[k].alt_m == b.alt_m
            &&& rule.keep_b ==> pts[0].above(b)
        }),
{
    let pts = arc_at(calc, check, a, b, c, rule)->0;
    if 0 <= k < pts.len() - 1 {
        assert(arc_leg_ok(check, pts, k));
    }
}

} // verus!
