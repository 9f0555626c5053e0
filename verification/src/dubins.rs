//! Shortest paths of bounded curvature between two poses.
//!
//! A path is two arcs joined by a straight line, or, where the poses are too
//! close for that, three arcs. Angles are in radians, counted anticlockwise.

use crate::geometry::{hypotenuse, PI_BITS};
use crate::numeric::{frac, number, ratio, whole};
use crate::oracle::{ask, image, is_function, Calc};
use crate::scalar::Scalar;
use vstd::prelude::*;

verus! {

/// The double nearest to a full turn.
pub const TAU_BITS: u64 = 0x4019_21fb_5444_2d18;

/// The double nearest to a quarter turn.
pub const QUARTER_BITS: u64 = 0x3ff9_21fb_5444_2d18;

/// A point of the plane.
pub type Spot = (Scalar, Scalar);

/// Direction of a turn: left is anticlockwise.
#[derive(Clone, Copy, Debug, PartialEq, Eq, Structural)]
pub enum Turn {
    L,
    R,
}

/// An angle brought between zero and a full turn.
pub open spec fn full_turn(a: Scalar) -> Scalar {
    let m = a.remainder(Scalar { bits: TAU_BITS });
    if m < whole(0) {
        m + Scalar { bits: TAU_BITS }
    } else {
        m
    }
}

fn norm_angle(a: Scalar) -> (r: Scalar)
    ensures
        r == full_turn(a),
{
    let tau: Scalar = Scalar { bits: TAU_BITS };
    let m: Scalar = a.rem(&tau);
    if m.lt(&number(0)) {
        m + tau
    } else {
        m
    }
}

/// Centre of the circle that a turn from a pose follows.
pub open spec fn turn_center<C: Fn(Calc) -> Scalar>(
    calc: C,
    p: Spot,
    th: Scalar,
    t: Turn,
    r: Scalar,
) -> Spot {
    let (s, c) = (image(calc, Calc::Sin(th)), image(calc, Calc::Cos(th)));
    match t {
        Turn::L => (p.0 - r * s, p.1 + r * c),
        Turn::R => (p.0 + r * s, p.1 - r * c),
    }
}

fn center<C: Fn(Calc) -> Scalar>(p: Spot, th: Scalar, t: Turn, r: Scalar, calc: &C) -> (o: Spot)
    requires
        is_function(*calc),
    ensures
        o == turn_center(*calc, p, th, t, r),
{
    let s: Scalar = ask(calc, Calc::Sin(th));
    let c: Scalar = ask(calc, Calc::Cos(th));
    match t {
        Turn::L => (p.0 - r * s, p.1 + r * c),
        Turn::R => (p.0 + r * s, p.1 - r * c),
    }
}

/// Angle turned through from one heading to another.
pub open spec fn turned(from: Scalar, to: Scalar, t: Turn) -> Scalar {
    match t {
        Turn::L => full_turn(to - from),
        Turn::R => full_turn(from - to),
    }
}

fn arc_angle(from: Scalar, to: Scalar, t: Turn) -> (r: Scalar)
    ensures
        r == turned(from, to, t),
{
    match t {
        Turn::L => norm_angle(to - from),
        Turn::R => norm_angle(from - to),
    }
}

/// The third arc of a path of three arcs, and where its arcs begin and end, as
/// angles seen from the centres of the circles.
#[derive(Clone, Copy, Debug)]
pub struct Ccc {
    pub t3: Turn,
    pub a3: Scalar,
    pub c3: Spot,
    pub phi0: Scalar,
    pub phi_ab: Scalar,
    pub phi_ba: Scalar,
    pub phi_bc: Scalar,
    pub phi_cb: Scalar,
    pub phi1: Scalar,
}

/// A path of bounded curvature.
#[derive(Clone, Copy, Debug)]
pub struct DubinsPath {
    pub t1: Turn,
    pub t2: Turn,
    /// Angle of the first arc.
    pub a1: Scalar,
    /// Length of the straight part.
    pub straight: Scalar,
    /// Angle of the last arc, or of the middle one of three.
    pub a2: Scalar,
    pub c1: Spot,
    pub c2: Spot,
    /// Direction from the first centre to the end of the first arc; on a path of
    /// three arcs to its start.
    pub n1: Spot,
    pub r: Scalar,
    /// Set on a path of three arcs.
    pub ccc: Option<Ccc>,
}

impl DubinsPath {
    pub open spec fn length(self) -> Scalar {
        let a3 = if self.ccc is Some {
            self.ccc->0.a3
        } else {
            whole(0)
        };
        self.r * (self.a1 + self.a2 + a3) + self.straight
    }

    pub fn len(&self) -> (l: Scalar)
        ensures
            l == self.length(),
    {
        let a3: Scalar = match &self.ccc {
            Some(c) => c.a3,
            None => number(0),
        };
        self.r * (self.a1 + self.a2 + a3) + self.straight
    }
}

/// The shorter of the best path so far and another; the one found first wins
/// where neither is shorter.
pub open spec fn shorter(best: Option<DubinsPath>, other: Option<DubinsPath>) -> Option<DubinsPath> {
    match (best, other) {
        (b, None) => b,
        (None, o) => o,
        (Some(b), Some(o)) => if o.length() < b.length() {
            Some(o)
        } else {
            Some(b)
        },
    }
}

fn keep_shorter(best: Option<DubinsPath>, other: Option<DubinsPath>) -> (r: Option<DubinsPath>)
    ensures
        r == shorter(best, other),
{
    match other {
        None => best,
        Some(o) => match best {
            None => Some(o),
            Some(b) => if o.len().lt(&b.len()) {
                Some(o)
            } else {
                Some(b)
            },
        },
    }
}

/// The opposite of a direction.
pub open spec fn reversed(n: Spot) -> Spot {
    (n.0.opposite(), n.1.opposite())
}

/// The two directions from the first centre to a tangent point: at right angles
/// to the line of centres for turns of the same sense, else at the angle whose
/// cosine is the diameter over the distance.
pub open spec fn tangent_normal<C: Fn(Calc) -> Scalar>(
    calc: C,
    vhat: Spot,
    d: Scalar,
    r: Scalar,
    same: bool,
    first: bool,
) -> Spot {
    if same {
        if first {
            (vhat.1.opposite(), vhat.0)
        } else {
            (vhat.1, vhat.0.opposite())
        }
    } else {
        let ang = image(calc, Calc::Acos(whole(2) * r / d));
        let (cs, sn) = (image(calc, Calc::Cos(ang)), image(calc, Calc::Sin(ang)));
        if first {
            (vhat.0 * cs - vhat.1 * sn, vhat.0 * sn + vhat.1 * cs)
        } else {
            (vhat.0 * cs + vhat.1 * sn, vhat.0.opposite() * sn + vhat.1 * cs)
        }
    }
}

/// Heading on a circle at the point seen from its centre under an angle.
pub open spec fn heading_on(phi: Scalar, t: Turn) -> Scalar {
    match t {
        Turn::L => phi + Scalar { bits: QUARTER_BITS },
        Turn::R => phi - Scalar { bits: QUARTER_BITS },
    }
}

fn circle_heading(phi: Scalar, t: Turn) -> (r: Scalar)
    ensures
        r == heading_on(phi, t),
{
    match t {
        Turn::L => phi + Scalar { bits: QUARTER_BITS },
        Turn::R => phi - Scalar { bits: QUARTER_BITS },
    }
}

/// Distance of two headings round the circle.
pub open spec fn heading_gap(a: Scalar, b: Scalar) -> Scalar {
    full_turn(a - b).smaller(full_turn(b - a))
}

fn gap(a: Scalar, b: Scalar) -> (r: Scalar)
    ensures
        r == heading_gap(a, b),
{
    norm_angle(a - b).min(&norm_angle(b - a))
}

/// The path of two arcs of the given senses and the line along one of the two
/// tangents, where it exists and runs without a kink.
pub open spec fn csc_path<C: Fn(Calc) -> Scalar>(
    calc: C,
    p0: Spot,
    th0: Scalar,
    p1: Spot,
    th1: Scalar,
    r: Scalar,
    t1: Turn,
    t2: Turn,
    first: bool,
) -> Option<DubinsPath> {
    let c1 = turn_center(calc, p0, th0, t1, r);
    let c2 = turn_center(calc, p1, th1, t2, r);
    let (vx, vy) = (c2.0 - c1.0, c2.1 - c1.1);
    let d = hypotenuse(vx, vy);
    let n1 = tangent_normal(calc, (vx / d, vy / d), d, r, t1 == t2, first);
    let n2 = if t1 == t2 {
        n1
    } else {
        reversed(n1)
    };
    let a = (c1.0 + r * n1.0, c1.1 + r * n1.1);
    let b = (c2.0 + r * n2.0, c2.1 + r * n2.1);
    let (ux, uy) = (b.0 - a.0, b.1 - a.1);
    let straight = hypotenuse(ux, uy);
    let tangent = image(calc, Calc::Atan2(uy, ux));
    let head_a = heading_on(image(calc, Calc::Atan2(n1.1, n1.0)), t1);
    let head_b = heading_on(image(calc, Calc::Atan2(n2.1, n2.0)), t2);
    let eps = frac(1, 1_000_000_000);
    if d < whole(2) * r - eps || d < eps || straight < eps || heading_gap(head_a, tangent) > frac(
        1,
        1_000_000,
    ) || heading_gap(head_b, tangent) > frac(1, 1_000_000) {
        None
    } else {
        Some(
            DubinsPath {
                t1,
                t2,
                a1: turned(th0, tangent, t1),
                straight,
                a2: turned(tangent, th1, t2),
                c1,
                c2,
                n1,
                r,
                ccc: None,
            },
        )
    }
}

fn make_normal<C: Fn(Calc) -> Scalar>(
    vhat: Spot,
    d: Scalar,
    r: Scalar,
    same: bool,
    first: bool,
    calc: &C,
) -> (n: Spot)
    requires
        is_function(*calc),
    ensures
        n == tangent_normal(*calc, vhat, d, r, same, first),
{
    if same {
        if first {
            (vhat.1.neg(), vhat.0)
        } else {
            (vhat.1, vhat.0.neg())
        }
    } else {
        let ang: Scalar = ask(calc, Calc::Acos(number(2) * r / d));
        let cs: Scalar = ask(calc, Calc::Cos(ang));
        let sn: Scalar = ask(calc, Calc::Sin(ang));
        if first {
            (vhat.0 * cs - vhat.1 * sn, vhat.0 * sn + vhat.1 * cs)
        } else {
            (vhat.0 * cs + vhat.1 * sn, vhat.0.neg() * sn + vhat.1 * cs)
        }
    }
}

fn make_csc<C: Fn(Calc) -> Scalar>(
    p0: Spot,
    th0: Scalar,
    p1: Spot,
    th1: Scalar,
    r: Scalar,
    t1: Turn,
    t2: Turn,
    first: bool,
    calc: &C,
) -> (o: Option<DubinsPath>)
    requires
        is_function(*calc),
    ensures
        o == csc_path(*calc, p0, th0, p1, th1, r, t1, t2, first),
{
    let same: bool = t1 == t2;
    let eps: Scalar = ratio(1, 1_000_000_000);
    let c1: Spot = center(p0, th0, t1, r, calc);
    let c2: Spot = center(p1, th1, t2, r, calc);
    let vx: Scalar = c2.0 - c1.0;
    let vy: Scalar = c2.1 - c1.1;
    let d: Scalar = (vx * vx + vy * vy).sqrt();
    if d.lt(&(number(2) * r - eps)) || d.lt(&eps) {
        return None;
    }
    let n1: Spot = make_normal((vx / d, vy / d), d, r, same, first, calc);
    let n2: Spot = if same { n1 } else { (n1.0.neg(), n1.1.neg()) };
    let a: Spot = (c1.0 + r * n1.0, c1.1 + r * n1.1);
    let b: Spot = (c2.0 + r * n2.0, c2.1 + r * n2.1);
    let ux: Scalar = b.0 - a.0;
    let uy: Scalar = b.1 - a.1;
    let straight: Scalar = (ux * ux + uy * uy).sqrt();
    if straight.lt(&eps) {
        return None;
    }
    let tangent: Scalar = ask(calc, Calc::Atan2(uy, ux));
    let head_a: Scalar = circle_heading(ask(calc, Calc::Atan2(n1.1, n1.0)), t1);
    let head_b: Scalar = circle_heading(ask(calc, Calc::Atan2(n2.1, n2.0)), t2);
    let tol: Scalar = ratio(1, 1_000_000);
    if tol.lt(&gap(head_a, tangent)) || tol.lt(&gap(head_b, tangent)) {
        return None;
    }
    Some(
        DubinsPath {
            t1,
            t2,
            a1: arc_angle(th0, tangent, t1),
            straight,
            a2: arc_angle(tangent, th1, t2),
            c1,
            c2,
            n1,
            r,
            ccc: None,
        },
    )
}

/// The other sense of turn.
pub open spec fn other_turn(t: Turn) -> Turn {
    match t {
        Turn::L => Turn::R,
        Turn::R => Turn::L,
    }
}

/// Angle of a point seen from a centre.
pub open spec fn seen_from<C: Fn(Calc) -> Scalar>(calc: C, c: Spot, p: Spot) -> Scalar {
    image(calc, Calc::Atan2(p.1 - c.1, p.0 - c.0))
}

fn see_from<C: Fn(Calc) -> Scalar>(c: Spot, p: Spot, calc: &C) -> (r: Scalar)
    requires
        is_function(*calc),
    ensures
        r == seen_from(*calc, c, p),
{
    ask(calc, Calc::Atan2(p.1 - c.1, p.0 - c.0))
}

/// The path of three arcs whose outer two turn in the sense `t1`, with the
/// middle circle on one of its two sides, where it exists.
pub open spec fn ccc_path<C: Fn(Calc) -> Scalar>(
    calc: C,
    p0: Spot,
    th0: Scalar,
    p1: Spot,
    th1: Scalar,
    r: Scalar,
    t1: Turn,
    sign: Scalar,
) -> Option<DubinsPath> {
    let t2 = other_turn(t1);
    let c1 = turn_center(calc, p0, th0, t1, r);
    let c3 = turn_center(calc, p1, th1, t1, r);
    let (vx, vy) = (c3.0 - c1.0, c3.1 - c1.1);
    let d = hypotenuse(vx, vy);
    let th = image(calc, Calc::Atan2(vy, vx));
    let gamma = image(
        calc,
        Calc::Acos((d / (whole(4) * r)).clamped(whole(1).opposite(), whole(1))),
    );
    let two_r = whole(2) * r;
    let c2 = (
        c1.0 + two_r * image(calc, Calc::Cos(th + sign * gamma)),
        c1.1 + two_r * image(calc, Calc::Sin(th + sign * gamma)),
    );
    let d23 = hypotenuse(c2.0 - c3.0, c2.1 - c3.1);
    let phi_ab = seen_from(calc, c1, c2);
    let phi_ba = seen_from(calc, c2, c1);
    let phi_bc = seen_from(calc, c2, c3);
    let phi_cb = seen_from(calc, c3, c2);
    let phi0 = seen_from(calc, c1, p0);
    let phi1 = seen_from(calc, c3, p1);
    let eps = frac(1, 1_000_000_000);
    if d < eps || d > whole(4) * r - eps || (d23 - two_r).magnitude() > frac(1, 1_000_000)
        * two_r.larger(whole(1)) {
        None
    } else {
        Some(
            DubinsPath {
                t1,
                t2,
                a1: turned(th0, heading_on(phi_ab, t1), t1),
                straight: whole(0),
                a2: turned(heading_on(phi_ba, t2), heading_on(phi_bc, t2), t2),
                c1,
                c2,
                n1: (image(calc, Calc::Cos(phi0)), image(calc, Calc::Sin(phi0))),
                r,
                ccc: Some(
                    Ccc {
                        t3: t1,
                        a3: turned(heading_on(phi_cb, t1), th1, t1),
                        c3,
                        phi0,
                        phi_ab,
                        phi_ba,
                        phi_bc,
                        phi_cb,
                        phi1,
                    },
                ),
            },
        )
    }
}

fn make_ccc<C: Fn(Calc) -> Scalar>(
    p0: Spot,
    th0: Scalar,
    p1: Spot,
    th1: Scalar,
    r: Scalar,
    t1: Turn,
    sign: Scalar,
    calc: &C,
) -> (o: Option<DubinsPath>)
    requires
        is_function(*calc),
    ensures
        o == ccc_path(*calc, p0, th0, p1, th1, r, t1, sign),
{
    let t2: Turn = match t1 {
        Turn::L => Turn::R,
        Turn::R => Turn::L,
    };
    let eps: Scalar = ratio(1, 1_000_000_000);
    let c1: Spot = center(p0, th0, t1, r, calc);
    let c3: Spot = center(p1, th1, t1, r, calc);
    let vx: Scalar = c3.0 - c1.0;
    let vy: Scalar = c3.1 - c1.1;
    let d: Scalar = (vx * vx + vy * vy).sqrt();
    if d.lt(&eps) || (number(4) * r - eps).lt(&d) {
        return None;
    }
    let th: Scalar = ask(calc, Calc::Atan2(vy, vx));
    let one: Scalar = number(1);
    let gamma: Scalar = ask(calc, Calc::Acos((d / (number(4) * r)).clamp(&one.neg(), &one)));
    let two_r: Scalar = number(2) * r;
    let c2: Spot = (
        c1.0 + two_r * ask(calc, Calc::Cos(th + sign * gamma)),
        c1.1 + two_r * ask(calc, Calc::Sin(th + sign * gamma)),
    );
    let wx: Scalar = c2.0 - c3.0;
    let wy: Scalar = c2.1 - c3.1;
    let d23: Scalar = (wx * wx + wy * wy).sqrt();
    if (ratio(1, 1_000_000) * two_r.max(&one)).lt(&(d23 - two_r).abs()) {
        return None;
    }
    let phi_ab: Scalar = see_from(c1, c2, calc);
    let phi_ba: Scalar = see_from(c2, c1, calc);
    let phi_bc: Scalar = see_from(c2, c3, calc);
    let phi_cb: Scalar = see_from(c3, c2, calc);
    let phi0: Scalar = see_from(c1, p0, calc);
    let phi1: Scalar = see_from(c3, p1, calc);
    Some(
        DubinsPath {
            t1,
            t2,
            a1: arc_angle(th0, circle_heading(phi_ab, t1), t1),
            straight: number(0),
            a2: arc_angle(circle_heading(phi_ba, t2), circle_heading(phi_bc, t2), t2),
            c1,
            c2,
            n1: (ask(calc, Calc::Cos(phi0)), ask(calc, Calc::Sin(phi0))),
            r,
            ccc: Some(
                Ccc {
                    t3: t1,
                    a3: arc_angle(circle_heading(phi_cb, t1), th1, t1),
                    c3,
                    phi0,
                    phi_ab,
                    phi_ba,
                    phi_bc,
                    phi_cb,
                    phi1,
                },
            ),
        },
    )
}

/// The shortest path of two arcs and a line, over the senses of the arcs and
/// the two tangents, in a fixed order.
pub open spec fn best_csc<C: Fn(Calc) -> Scalar>(
    calc: C,
    p0: Spot,
    th0: Scalar,
    p1: Spot,
    th1: Scalar,
    r: Scalar,
) -> Option<DubinsPath> {
    let c = |t1: Turn, t2: Turn, first: bool|
        csc_path(calc, p0, th0, p1, th1, r, t1, t2, first);
    let b = shorter(c(Turn::L, Turn::L, true), c(Turn::L, Turn::L, false));
    let b = shorter(shorter(b, c(Turn::L, Turn::R, true)), c(Turn::L, Turn::R, false));
    let b = shorter(shorter(b, c(Turn::R, Turn::L, true)), c(Turn::R, Turn::L, false));
    shorter(shorter(b, c(Turn::R, Turn::R, true)), c(Turn::R, Turn::R, false))
}

/// The shortest path of three arcs, in a fixed order.
pub open spec fn best_ccc<C: Fn(Calc) -> Scalar>(
    calc: C,
    p0: Spot,
    th0: Scalar,
    p1: Spot,
    th1: Scalar,
    r: Scalar,
) -> Option<DubinsPath> {
    let (plus, minus) = (whole(1), whole(1).opposite());
    let c = |t1: Turn, sign: Scalar| ccc_path(calc, p0, th0, p1, th1, r, t1, sign);
    let b = shorter(c(Turn::L, plus), c(Turn::L, minus));
    shorter(shorter(b, c(Turn::R, plus)), c(Turn::R, minus))
}

fn find_csc<C: Fn(Calc) -> Scalar>(
    p0: Spot,
    th0: Scalar,
    p1: Spot,
    th1: Scalar,
    r: Scalar,
    calc: &C,
) -> (o: Option<DubinsPath>)
    requires
        is_function(*calc),
    ensures
        o == best_csc(*calc, p0, th0, p1, th1, r),
{
    let mut best: Option<DubinsPath> = make_csc(p0, th0, p1, th1, r, Turn::L, Turn::L, true, calc);
    best = keep_shorter(best, make_csc(p0, th0, p1, th1, r, Turn::L, Turn::L, false, calc));
    best = keep_shorter(best, make_csc(p0, th0, p1, th1, r, Turn::L, Turn::R, true, calc));
    best = keep_shorter(best, make_csc(p0, th0, p1, th1, r, Turn::L, Turn::R, false, calc));
    best = keep_shorter(best, make_csc(p0, th0, p1, th1, r, Turn::R, Turn::L, true, calc));
    best = keep_shorter(best, make_csc(p0, th0, p1, th1, r, Turn::R, Turn::L, false, calc));
    best = keep_shorter(best, make_csc(p0, th0, p1, th1, r, Turn::R, Turn::R, true, calc));
    keep_shorter(best, make_csc(p0, th0, p1, th1, r, Turn::R, Turn::R, false, calc))
}

fn find_ccc<C: Fn(Calc) -> Scalar>(
    p0: Spot,
    th0: Scalar,
    p1: Spot,
    th1: Scalar,
    r: Scalar,
    calc: &C,
) -> (o: Option<DubinsPath>)
    requires
        is_function(*calc),
    ensures
        o == best_ccc(*calc, p0, th0, p1, th1, r),
{
    let plus: Scalar = number(1);
    let minus: Scalar = number(1).neg();
    let mut best: Option<DubinsPath> = make_ccc(p0, th0, p1, th1, r, Turn::L, plus, calc);
    best = keep_shorter(best, make_ccc(p0, th0, p1, th1, r, Turn::L, minus, calc));
    best = keep_shorter(best, make_ccc(p0, th0, p1, th1, r, Turn::R, plus, calc));
    keep_shorter(best, make_ccc(p0, th0, p1, th1, r, Turn::R, minus, calc))
}

/// Whether a turning problem is posed at all: all numbers are finite and the
/// radius is positive.
pub open spec fn well_posed(p0: Spot, th0: Scalar, p1: Spot, th1: Scalar, r: Scalar) -> bool {
    &&& !(r <= whole(0))
    &&& p0.0.finite() && p0.1.finite() && th0.finite()
    &&& p1.0.finite() && p1.1.finite() && th1.finite()
    &&& r.finite()
}

/// The path without length at a pose.
pub open spec fn still_path<C: Fn(Calc) -> Scalar>(calc: C, p0: Spot, th0: Scalar, r: Scalar) -> DubinsPath {
    let c = turn_center(calc, p0, th0, Turn::L, r);
    DubinsPath {
        t1: Turn::L,
        t2: Turn::L,
        a1: whole(0),
        straight: whole(0),
        a2: whole(0),
        c1: c,
        c2: c,
        n1: ((p0.0 - c.0) / r, (p0.1 - c.1) / r),
        r,
        ccc: None,
    }
}

/// The single arc that turns on the spot from one heading to another, by the
/// smaller of the two angles. The arc starts at the place.
pub open spec fn pivot_path<C: Fn(Calc) -> Scalar>(
    calc: C,
    p0: Spot,
    th0: Scalar,
    th1: Scalar,
    r: Scalar,
) -> DubinsPath {
    let delta = full_turn(th1 - th0);
    let left = delta <= (Scalar { bits: PI_BITS });
    let t = if left {
        Turn::L
    } else {
        Turn::R
    };
    let c = turn_center(calc, p0, th0, t, r);
    let a1 = if left {
        delta
    } else {
        Scalar { bits: TAU_BITS } - delta
    };
    let phi1 = moved(seen_from(calc, c, p0), a1, t);
    DubinsPath {
        t1: t,
        t2: t,
        a1,
        straight: whole(0),
        a2: whole(0),
        c1: c,
        c2: c,
        n1: (image(calc, Calc::Cos(phi1)), image(calc, Calc::Sin(phi1))),
        r,
        ccc: None,
    }
}

/// The shortest path between two poses: nothing where they are the same, a
/// turn on the spot where only the headings differ, else two arcs and a line,
/// and three arcs only where no such path exists.
pub open spec fn shortest_path<C: Fn(Calc) -> Scalar>(
    calc: C,
    p0: Spot,
    th0: Scalar,
    p1: Spot,
    th1: Scalar,
    r: Scalar,
) -> Option<DubinsPath> {
    let tiny = frac(1, 1_000_000_000_000);
    if !well_posed(p0, th0, p1, th1, r) {
        None
    } else if p0.0.equals(p1.0) && p0.1.equals(p1.1) && full_turn(th0).equals(full_turn(th1)) {
        Some(still_path(calc, p0, th0, r))
    } else if (p0.0 - p1.0).magnitude() < tiny && (p0.1 - p1.1).magnitude() < tiny {
        Some(pivot_path(calc, p0, th0, th1, r))
    } else if best_csc(calc, p0, th0, p1, th1, r) is Some {
        best_csc(calc, p0, th0, p1, th1, r)
    } else {
        best_ccc(calc, p0, th0, p1, th1, r)
    }
}

/// The shortest path of bounded curvature between two poses.
pub fn dubins_path<C: Fn(Calc) -> Scalar>(
    p0: Spot,
    th0: Scalar,
    p1: Spot,
    th1: Scalar,
    r: Scalar,
    calc: &C,
) -> (o: Option<DubinsPath>)
    requires
        is_function(*calc),
    ensures
        o == shortest_path(*calc, p0, th0, p1, th1, r),
{
    if r.le(&number(0)) {
        return None;
    }
    if !p0.0.is_finite() || !p0.1.is_finite() || !th0.is_finite() || !p1.0.is_finite()
        || !p1.1.is_finite() || !th1.is_finite() || !r.is_finite() {
        return None;
    }
    if p0.0.num_eq(&p1.0) && p0.1.num_eq(&p1.1) && norm_angle(th0).num_eq(&norm_angle(th1)) {
        let c: Spot = center(p0, th0, Turn::L, r, calc);
        return Some(
            DubinsPath {
                t1: Turn::L,
                t2: Turn::L,
                a1: number(0),
                straight: number(0),
                a2: number(0),
                c1: c,
                c2: c,
                n1: ((p0.0 - c.0) / r, (p0.1 - c.1) / r),
                r,
                ccc: None,
            },
        );
    }
    let tiny: Scalar = ratio(1, 1_000_000_000_000);
    if (p0.0 - p1.0).abs().lt(&tiny) && (p0.1 - p1.1).abs().lt(&tiny) {
        let delta: Scalar = norm_angle(th1 - th0);
        let left: bool = delta.le(&Scalar { bits: PI_BITS });
        let t: Turn = if left { Turn::L } else { Turn::R };
        let a1: Scalar = if left { delta } else { Scalar { bits: TAU_BITS } - delta };
        let c: Spot = center(p0, th0, t, r, calc);
        let phi1: Scalar = move_on(see_from(c, p0, calc), a1, t);
        return Some(
            DubinsPath {
                t1: t,
                t2: t,
                a1,
                straight: number(0),
                a2: number(0),
                c1: c,
                c2: c,
                n1: (ask(calc, Calc::Cos(phi1)), ask(calc, Calc::Sin(phi1))),
                r,
                ccc: None,
            },
        );
    }
    let best: Option<DubinsPath> = find_csc(p0, th0, p1, th1, r, calc);
    match best {
        Some(p) => Some(p),
        None => find_ccc(p0, th0, p1, th1, r, calc),
    }
}

/// Length of the shortest path between two poses, where there is one.
pub fn dubins_shortest_len<C: Fn(Calc) -> Scalar>(
    p0: Spot,
    th0: Scalar,
    p1: Spot,
    th1: Scalar,
    r: Scalar,
    calc: &C,
) -> (o: Option<Scalar>)
    requires
        is_function(*calc),
    ensures
        o == (match shortest_path(*calc, p0, th0, p1, th1, r) {
            Some(p) => Some(p.length()),
            None => None,
        }),
{
    match dubins_path(p0, th0, p1, th1, r, calc) {
        Some(p) => Some(p.len()),
        None => None,
    }
}

/// Two poses to be joined.
#[derive(Clone, Copy)]
pub struct PosePair {
    pub p0: Spot,
    pub th0: Scalar,
    pub p1: Spot,
    pub th1: Scalar,
}

/// How many of the first `k` pairs can be joined, and the sum of the lengths.
pub open spec fn joined_pairs<C: Fn(Calc) -> Scalar>(
    calc: C,
    samples: Seq<PosePair>,
    r: Scalar,
    k: int,
) -> (int, Scalar)
    decreases k,
{
    if k <= 0 {
        (0, whole(0))
    } else {
        let (ok, sum) = joined_pairs(calc, samples, r, k - 1);
        let s = samples[k - 1];
        match shortest_path(calc, s.p0, s.th0, s.p1, s.th1, r) {
            Some(p) => (ok + 1, sum + p.length()),
            None => (ok, sum),
        }
    }
}

/// How many of a set of pairs of poses can be joined, how many there are, and
/// the mean length of the paths.
pub fn dubins_success_rate<C: Fn(Calc) -> Scalar>(
    samples: &Vec<PosePair>,
    r: Scalar,
    calc: &C,
) -> (o: (usize, usize, Scalar))
    requires
        is_function(*calc),
    ensures
        ({
            let (ok, sum) = joined_pairs(*calc, samples@, r, samples@.len() as int);
            &&& o.0 == ok
            &&& o.1 == samples@.len()
            &&& o.2 == (if ok > 0 {
                sum / whole(ok)
            } else {
                whole(0)
            })
        }),
{
    let n: usize = samples.len();
    let mut ok: usize = 0;
    let mut sum: Scalar = number(0);
    let mut i: usize = 0;
    while i < n
        invariant
            is_function(*calc),
            n == samples@.len(),
            i <= n,
            ok <= i,
            (ok as int, sum) == joined_pairs(*calc, samples@, r, i as int),
        decreases n - i,
    {
        let s: PosePair = samples[i];
        if let Some(len) = dubins_shortest_len(s.p0, s.th0, s.p1, s.th1, r, calc) {
            ok = ok + 1;
            sum = sum + len;
        }
        i = i + 1;
    }
    let mean: Scalar = if ok > 0 { sum / number(ok as u64) } else { number(0) };
    (ok, n, mean)
}

proof fn lemma_shorter(a: Option<DubinsPath>, b: Option<DubinsPath>, c: DubinsPath)
    requires
        a == Some(c) || b == Some(c) || (a is Some && !(c.length() < a->0.length())),
    ensures
        shorter(a, b) is Some,
        !(c.length() < shorter(a, b)->0.length()),
{
}

/// Where the poses differ in place, no path of two arcs and a line is shorter
/// than the one chosen.
pub proof fn law_chosen_path_is_shortest<C: Fn(Calc) -> Scalar>(
    calc: C,
    p0: Spot,
    th0: Scalar,
    p1: Spot,
    th1: Scalar,
    r: Scalar,
    t1: Turn,
    t2: Turn,
    first: bool,
)
    requires
        csc_path(calc, p0, th0, p1, th1, r, t1, t2, first) is Some,
    ensures
        best_csc(calc, p0, th0, p1, th1, r) is Some,
        !(csc_path(calc, p0, th0, p1, th1, r, t1, t2, first)->0.length() < best_csc(
            calc,
            p0,
            th0,
            p1,
            th1,
            r,
        )->0.length()),
{
    let c = csc_path(calc, p0, th0, p1, th1, r, t1, t2, first)->0;
    let x0 = csc_path(calc, p0, th0, p1, th1, r, Turn::L, Turn::L, true);
    let x1 = csc_path(calc, p0, th0, p1, th1, r, Turn::L, Turn::L, false);
    let x2 = csc_path(calc, p0, th0, p1, th1, r, Turn::L, Turn::R, true);
    let x3 = csc_path(calc, p0, th0, p1, th1, r, Turn::L, Turn::R, false);
    let x4 = csc_path(calc, p0, th0, p1, th1, r, Turn::R, Turn::L, true);
    let x5 = csc_path(calc, p0, th0, p1, th1, r, Turn::R, Turn::L, false);
    let x6 = csc_path(calc, p0, th0, p1, th1, r, Turn::R, Turn::R, true);
    let x7 = csc_path(calc, p0, th0, p1, th1, r, Turn::R, Turn::R, false);
    let b1 = shorter(x0, x1);
    let b2 = shorter(b1, x2);
    let b3 = shorter(b2, x3);
    let b4 = shorter(b3, x4);
    let b5 = shorter(b4, x5);
    let b6 = shorter(b5, x6);
    if x0 == Some(c) || x1 == Some(c) {
        lemma_shorter(x0, x1, c);
        lemma_shorter(b1, x2, c);
        lemma_shorter(b2, x3, c);
        lemma_shorter(b3, x4, c);
        lemma_shorter(b4, x5, c);
        lemma_shorter(b5, x6, c);
        lemma_shorter(b6, x7, c);
    } else if x2 == Some(c) || x3 == Some(c) {
        if x2 == Some(c) {
            lemma_shorter(b1, x2, c);
        }
        lemma_shorter(b2, x3, c);
        lemma_shorter(b3, x4, c);
        lemma_shorter(b4, x5, c);
        lemma_shorter(b5, x6, c);
        lemma_shorter(b6, x7, c);
    } else if x4 == Some(c) || x5 == Some(c) {
        if x4 == Some(c) {
            lemma_shorter(b3, x4, c);
        }
        lemma_shorter(b4, x5, c);
        lemma_shorter(b5, x6, c);
        lemma_shorter(b6, x7, c);
    } else {
        if x6 == Some(c) {
            lemma_shorter(b5, x6, c);
        }
        lemma_shorter(b6, x7, c);
    }
}

/// The point of a circle seen from its centre under an angle.
pub open spec fn on_circle<C: Fn(Calc) -> Scalar>(calc: C, c: Spot, r: Scalar, ang: Scalar) -> Spot {
    (c.0 + r * image(calc, Calc::Cos(ang)), c.1 + r * image(calc, Calc::Sin(ang)))
}

fn point_on_circle<C: Fn(Calc) -> Scalar>(c: Spot, r: Scalar, ang: Scalar, calc: &C) -> (o: Spot)
    requires
        is_function(*calc),
    ensures
        o == on_circle(*calc, c, r, ang),
{
    (c.0 + r * ask(calc, Calc::Cos(ang)), c.1 + r * ask(calc, Calc::Sin(ang)))
}

/// An angle moved on by a turn.
pub open spec fn moved(phi: Scalar, by: Scalar, t: Turn) -> Scalar {
    match t {
        Turn::L => phi + by,
        Turn::R => phi - by,
    }
}

fn move_on(phi: Scalar, by: Scalar, t: Turn) -> (r: Scalar)
    ensures
        r == moved(phi, by, t),
{
    match t {
        Turn::L => phi + by,
        Turn::R => phi - by,
    }
}

/// Points `from` to `to` of an arc cut into steps of a fixed angle.
pub open spec fn stepped_arc<C: Fn(Calc) -> Scalar>(
    calc: C,
    c: Spot,
    r: Scalar,
    phi: Scalar,
    step: Scalar,
    t: Turn,
    from: int,
    to: int,
) -> Seq<Spot> {
    Seq::new(
        (to - from + 1) as nat,
        |i: int| on_circle(calc, c, r, moved(phi, step * whole(from + i), t)),
    )
}

/// Points `from` to `n` of an arc cut into `n` parts.
pub open spec fn parted_arc<C: Fn(Calc) -> Scalar>(
    calc: C,
    c: Spot,
    r: Scalar,
    phi: Scalar,
    angle: Scalar,
    t: Turn,
    from: int,
    n: int,
) -> Seq<Spot> {
    Seq::new(
        (n - from + 1) as nat,
        |i: int| on_circle(calc, c, r, moved(phi, angle * (whole(from + i) / whole(n)), t)),
    )
}

fn push_stepped<C: Fn(Calc) -> Scalar>(
    pts: &mut Vec<Spot>,
    c: Spot,
    r: Scalar,
    phi: Scalar,
    step: Scalar,
    t: Turn,
    from: u64,
    to: u64,
    calc: &C,
)
    requires
        is_function(*calc),
        from <= to < u64::MAX,
    ensures
        final(pts)@ == old(pts)@ + stepped_arc(
            *calc,
            c,
            r,
            phi,
            step,
            t,
            from as int,
            to as int,
        ),
{
    let ghost before = pts@;
    let mut i: u64 = from;
    while i <= to
        invariant
            is_function(*calc),
            from <= i <= to + 1,
            to < u64::MAX,
            pts@ == before + stepped_arc(*calc, c, r, phi, step, t, from as int, i - 1),
        decreases to + 1 - i,
    {
        pts.push(point_on_circle(c, r, move_on(phi, step * number(i), t), calc));
        i = i + 1;
        proof {
            assert(pts@ =~= before + stepped_arc(
                *calc,
                c,
                r,
                phi,
                step,
                t,
                from as int,
                i - 1,
            ));
        }
    }
}

fn push_parted<C: Fn(Calc) -> Scalar>(
    pts: &mut Vec<Spot>,
    c: Spot,
    r: Scalar,
    phi: Scalar,
    angle: Scalar,
    t: Turn,
    from: u64,
    n: u64,
    calc: &C,
)
    requires
        is_function(*calc),
        from <= n < u64::MAX,
    ensures
        final(pts)@ == old(pts)@ + parted_arc(
            *calc,
            c,
            r,
            phi,
            angle,
            t,
            from as int,
            n as int,
        ),
{
    let ghost before = pts@;
    let mut i: u64 = from;
    proof {
        assert(pts@ =~= before + parted_arc(
            *calc,
            c,
            r,
            phi,
            angle,
            t,
            from as int,
            n as int,
        ).take(0));
    }
    while i <= n
        invariant
            is_function(*calc),
            from <= i <= n + 1,
            n < u64::MAX,
            pts@ == before + parted_arc(
                *calc,
                c,
                r,
                phi,
                angle,
                t,
                from as int,
                n as int,
            ).take(i - from),
        decreases n + 1 - i,
    {
        pts.push(
            point_on_circle(c, r, move_on(phi, angle * (number(i) / number(n)), t), calc),
        );
        i = i + 1;
        proof {
            assert(pts@ =~= before + parted_arc(
                *calc,
                c,
                r,
                phi,
                angle,
                t,
                from as int,
                n as int,
            ).take(i - from));
        }
    }
    proof {
        let all = parted_arc(*calc, c, r, phi, angle, t, from as int, n as int);
        assert(all.take(all.len() as int) =~= all);
    }
}

/// The points strictly between the ends of a line cut into `segs` parts.
pub open spec fn line_points(a: Spot, b: Spot, segs: int) -> Seq<Spot> {
    Seq::new(
        (segs - 1) as nat,
        |i: int|
            {
                let t = whole(i + 1) / whole(segs);
                (a.0 + (b.0 - a.0) * t, a.1 + (b.1 - a.1) * t)
            },
    )
}

/// How many parts an arc gets out of `n`, by its share; at least one.
pub open spec fn share_of(n: int, share: Scalar) -> int {
    let x = whole(n) * share;
    let c = if x.nan() || x.negative() {
        0
    } else if x.infinite() || x.round_value() > 0x4000_0000_0000_0000 {
        0x4000_0000_0000_0000
    } else {
        x.round_value()
    };
    if c < 1 {
        1
    } else {
        c
    }
}

fn count_share(n: u64, share: Scalar) -> (r: u64)
    ensures
        r == share_of(n as int, share),
        1 <= r <= 0x4000_0000_0000_0000,
{
    let c: u64 = (number(n) * share).round_u64();
    if c < 1 {
        1
    } else {
        c
    }
}

impl DubinsPath {
    /// Samples of a path of two arcs and a line: `segs` parts for each of the
    /// three pieces.
    pub open spec fn csc_samples<C: Fn(Calc) -> Scalar>(self, calc: C, segs: int) -> Seq<Spot> {
        let phi_tan = image(calc, Calc::Atan2(self.n1.1, self.n1.0));
        let phi_start = moved(phi_tan, self.a1, other_turn(self.t1));
        let head = stepped_arc(
            calc,
            self.c1,
            self.r,
            phi_start,
            self.a1 / whole(segs),
            self.t1,
            0,
            segs,
        );
        let n2 = if self.t1 == self.t2 {
            self.n1
        } else {
            reversed(self.n1)
        };
        let b = (self.c2.0 + self.r * n2.0, self.c2.1 + self.r * n2.1);
        let tail = stepped_arc(
            calc,
            self.c2,
            self.r,
            image(calc, Calc::Atan2(n2.1, n2.0)),
            self.a2 / whole(segs),
            self.t2,
            1,
            segs,
        );
        head + line_points(head.last(), b, segs) + tail
    }

    /// Samples of a path of three arcs, the parts dealt out by their angles.
    pub open spec fn ccc_samples<C: Fn(Calc) -> Scalar>(self, calc: C, x: Ccc, n: int) -> Seq<Spot> {
        let total = self.a1 + self.a2 + x.a3;
        let (n1, n2, n3) = if total > whole(0) {
            (
                share_of(n, self.a1 / total),
                share_of(n, self.a2 / total),
                share_of(n, x.a3 / total),
            )
        } else {
            (1, 1, 1)
        };
        parted_arc(calc, self.c1, self.r, x.phi0, self.a1, self.t1, 0, n1) + parted_arc(
            calc,
            self.c2,
            self.r,
            x.phi_ba,
            self.a2,
            self.t2,
            1,
            n2,
        ) + parted_arc(calc, x.c3, self.r, x.phi_cb, x.a3, x.t3, 1, n3)
    }

    /// Points along the path, both ends included.
    pub open spec fn samples<C: Fn(Calc) -> Scalar>(self, calc: C, n: int) -> Seq<Spot> {
        match self.ccc {
            Some(x) => self.ccc_samples(
                calc,
                x,
                if n < 4 {
                    4
                } else {
                    n
                },
            ),
            None => self.csc_samples(
                calc,
                if n < 2 {
                    2
                } else {
                    n
                },
            ),
        }
    }

    fn sample_ccc<C: Fn(Calc) -> Scalar>(&self, x: &Ccc, n: u64, calc: &C) -> (pts: Vec<Spot>)
        requires
            is_function(*calc),
        ensures
            pts@ == self.ccc_samples(*calc, *x, n as int),
    {
        let total: Scalar = self.a1 + self.a2 + x.a3;
        let (n1, n2, n3): (u64, u64, u64) = if number(0).lt(&total) {
            (
                count_share(n, self.a1 / total),
                count_share(n, self.a2 / total),
                count_share(n, x.a3 / total),
            )
        } else {
            (1, 1, 1)
        };
        let mut pts: Vec<Spot> = Vec::new();
        push_parted(&mut pts, self.c1, self.r, x.phi0, self.a1, self.t1, 0, n1, calc);
        push_parted(&mut pts, self.c2, self.r, x.phi_ba, self.a2, self.t2, 1, n2, calc);
        push_parted(&mut pts, x.c3, self.r, x.phi_cb, x.a3, x.t3, 1, n3, calc);
        assert(pts@ =~= self.ccc_samples(*calc, *x, n as int));
        pts
    }

    fn sample_csc<C: Fn(Calc) -> Scalar>(&self, segs: u64, calc: &C) -> (pts: Vec<Spot>)
        requires
            is_function(*calc),
            2 <= segs < u64::MAX,
        ensures
            pts@ == self.csc_samples(*calc, segs as int),
    {
        let phi_tan: Scalar = ask(calc, Calc::Atan2(self.n1.1, self.n1.0));
        let phi_start: Scalar = match self.t1 {
            Turn::L => phi_tan - self.a1,
            Turn::R => phi_tan + self.a1,
        };
        let same: bool = self.t1 == self.t2;
        let n2: Spot = if same { self.n1 } else { (self.n1.0.neg(), self.n1.1.neg()) };
        let b: Spot = (self.c2.0 + self.r * n2.0, self.c2.1 + self.r * n2.1);
        let mut pts: Vec<Spot> = Vec::new();
        let step1: Scalar = self.a1 / number(segs);
        push_stepped(&mut pts, self.c1, self.r, phi_start, step1, self.t1, 0, segs, calc);
        let ghost head = pts@;
        let a: Spot = pts[pts.len() - 1];
        let mut i: u64 = 1;
        proof {
            assert(head =~= head + line_points(a, b, segs as int).take(0));
        }
        while i < segs
            invariant
                1 <= i <= segs,
                segs >= 2,
                pts@ == head + line_points(a, b, segs as int).take(i - 1),
            decreases segs - i,
        {
            let t: Scalar = number(i) / number(segs);
            pts.push((a.0 + (b.0 - a.0) * t, a.1 + (b.1 - a.1) * t));
            i = i + 1;
            proof {
                assert(pts@ =~= head + line_points(a, b, segs as int).take(i - 1));
            }
        }
        proof {
            let line = line_points(a, b, segs as int);
            assert(line.take(line.len() as int) =~= line);
        }
        let phi1: Scalar = ask(calc, Calc::Atan2(n2.1, n2.0));
        let step2: Scalar = self.a2 / number(segs);
        push_stepped(&mut pts, self.c2, self.r, phi1, step2, self.t2, 1, segs, calc);
        pts
    }

    /// Samples points along the path, both ends included.
    pub fn sample<C: Fn(Calc) -> Scalar>(&self, n: usize, calc: &C) -> (pts: Vec<Spot>)
        requires
            is_function(*calc),
            n < usize::MAX,
        ensures
            pts@ == self.samples(*calc, n as int),
    {
        match &self.ccc {
            Some(x) => self.sample_ccc(x, if n < 4 { 4 } else { n as u64 }, calc),
            None => self.sample_csc(if n < 2 { 2 } else { n as u64 }, calc),
        }
    }
}

} // verus!
