//! The way back on a path of three arcs, on a turn on the spot, and on the path chosen, is
//! as long as the way there.

use crate::back::{
    all_firm, as_long, circle_slack, clear_arc, law_way_back_is_as_long, lemma_arc_length,
    lemma_other_way, lemma_rest, lemma_same_arc, lemma_shorter_too, lemma_twin_lengths, no_longer,
    shifted, true_opposite, twin_spots, ways_slack,
};
use crate::cell::lemma_count;
use crate::dubins::{
    best_ccc, best_csc, ccc_path, full_turn, heading_on, other_turn, seen_from, shorter,
    shortest_path, turn_center, turned, Spot, Turn,
};
use crate::ends::{
    apart, grain, half_turn, is_bound, lap, laps, law_way_back_turns_on_the_same_circle,
    lemma_absolute_value, lemma_angle_difference, lemma_angle_sum, lemma_ccc_choice,
    lemma_full_turn, lemma_place_difference, lemma_place_sum, lemma_scale, lemma_signed_value,
    lemma_sizes, moderate_pose, no_turn, quarter, right_angle, speck, tau, true_circle, turnable, within,
};
use crate::geometry::{hypotenuse, PI_BITS};
use crate::hull::lemma_no_difference;
use crate::margin::lemma_small_whole;
use crate::meridian::lemma_quotient;
use crate::numeric::{frac, whole};
use crate::oracle::{image, Calc};
use crate::rounding::{lemma_nearest_exists, nearest};
use crate::scalar::{magnitude_value, units, Scalar, FRACTION_LIMIT};
use vstd::arithmetic::power2::{
    lemma2_to64, lemma2_to64_rest, lemma_pow2_adds, lemma_pow2_pos, pow2,
};
use vstd::prelude::*;

verus! {

/// Centre of the middle circle of a path of three arcs.
pub open spec fn middle<C: Fn(Calc) -> Scalar>(
    calc: C,
    c1: Spot,
    c3: Spot,
    r: Scalar,
    sign: Scalar,
) -> Spot {
    let (vx, vy) = (c3.0 - c1.0, c3.1 - c1.1);
    let d = hypotenuse(vx, vy);
    let th = image(calc, Calc::Atan2(vy, vx));
    let gamma = image(
        calc,
        Calc::Acos((d / (whole(4) * r)).clamped(whole(1).opposite(), whole(1))),
    );
    let two_r = whole(2) * r;
    (
        c1.0 + two_r * image(calc, Calc::Cos(th + sign * gamma)),
        c1.1 + two_r * image(calc, Calc::Sin(th + sign * gamma)),
    )
}

/// Whether two outer circles are neither the same nor too far from each other for a
/// middle one.
pub open spec fn in_reach(c1: Spot, c3: Spot, r: Scalar) -> bool {
    let d = hypotenuse(c3.0 - c1.0, c3.1 - c1.1);
    let eps = frac(1, 1_000_000_000);
    !(d < eps || d > whole(4) * r - eps)
}

/// Whether a circle touches the middle one.
pub open spec fn touches(c2: Spot, c: Spot, r: Scalar) -> bool {
    let d = hypotenuse(c2.0 - c.0, c2.1 - c.1);
    let two_r = whole(2) * r;
    !((d - two_r).magnitude() > frac(1, 1_000_000) * two_r.larger(whole(1)))
}

/// The angles of three arcs round three centres.
pub open spec fn three_arcs<C: Fn(Calc) -> Scalar>(
    calc: C,
    c1: Spot,
    c2: Spot,
    c3: Spot,
    th0: Scalar,
    th1: Scalar,
    t1: Turn,
) -> (Scalar, Scalar, Scalar) {
    let t2 = other_turn(t1);
    (
        turned(th0, heading_on(seen_from(calc, c1, c2), t1), t1),
        turned(
            heading_on(seen_from(calc, c2, c1), t2),
            heading_on(seen_from(calc, c2, c3), t2),
            t2,
        ),
        turned(heading_on(seen_from(calc, c3, c2), t1), th1, t1),
    )
}

/// Between two poses, the outer centres are those of their turning circles.
proof fn lemma_three_arcs<C: Fn(Calc) -> Scalar>(
    calc: C,
    p0: Spot,
    th0: Scalar,
    p1: Spot,
    th1: Scalar,
    r: Scalar,
    t1: Turn,
    sign: Scalar,
)
    ensures
        ({
            let c1 = turn_center(calc, p0, th0, t1, r);
            let c3 = turn_center(calc, p1, th1, t1, r);
            let c2 = middle(calc, c1, c3, r, sign);
            let path = ccc_path(calc, p0, th0, p1, th1, r, t1, sign);
            let a = three_arcs(calc, c1, c2, c3, th0, th1, t1);
            &&& path is Some <==> in_reach(c1, c3, r) && touches(c2, c3, r)
            &&& path is Some ==> path->0.length() == r * (a.0 + a.1 + a.2) + whole(0)
        }),
{
}

/// Whether rounding cannot tip whether there is a path of three arcs round three
/// centres, nor make an arc of it a full turn. Both outer circles touch the middle one
/// where they are in reach of each other.
pub open spec fn steady_arcs<C: Fn(Calc) -> Scalar>(
    calc: C,
    c1: Spot,
    c2: Spot,
    c3: Spot,
    th0: Scalar,
    th1: Scalar,
    r: Scalar,
    t1: Turn,
    d: int,
) -> bool {
    let a = three_arcs(calc, c1, c2, c3, th0, th1, t1);
    &&& (c3.0 - c1.0).finite() && (c3.1 - c1.1).finite()
    &&& in_reach(c1, c3, r) ==> {
        &&& (c2.0 - c1.0).finite() && (c2.1 - c1.1).finite()
        &&& (c2.0 - c3.0).finite() && (c2.1 - c3.1).finite()
        &&& touches(c2, c1, r) && touches(c2, c3, r)
        &&& clear_arc(a.0, d + 2 * speck())
        &&& clear_arc(a.1, d + 2 * speck())
        &&& clear_arc(a.2, d + 2 * speck())
    }
}

/// Whether two ways of three arcs both exist, and are as long as each other but for some
/// slack, or neither exists.
pub open spec fn as_long_arcs(
    f: bool,
    a: (Scalar, Scalar, Scalar),
    g: bool,
    b: (Scalar, Scalar, Scalar),
    r: Scalar,
    slack: int,
) -> bool {
    let (x, y) = (r * (a.0 + a.1 + a.2) + whole(0), r * (b.0 + b.1 + b.2) + whole(0));
    &&& f <==> g
    &&& f ==> x.finite() && y.finite() && apart(
        x.value() * pow2(1074),
        y.value() * pow2(1074),
        slack,
    )
}

/// Whether a path of three arcs stays there, or stays away, and keeps its length but for
/// some slack, when the outer circles are shifted as little as they are on the way back,
/// and the middle one by `mid`; and rounding cannot tip it on the shifted circles either.
/// The middle circle of the way back has to be one of those.
pub open spec fn firm_arcs<C: Fn(Calc) -> Scalar>(
    calc: C,
    p0: Spot,
    th0: Scalar,
    back0: Scalar,
    p1: Spot,
    th1: Scalar,
    back1: Scalar,
    r: Scalar,
    t1: Turn,
    sign: Scalar,
    d: int,
    z: nat,
    mid: int,
    slack: int,
) -> bool {
    let c1 = turn_center(calc, p0, th0, t1, r);
    let c3 = turn_center(calc, p1, th1, t1, r);
    let c2 = middle(calc, c1, c3, r, sign);
    let b1 = turn_center(calc, p0, back0, other_turn(t1), r);
    let b3 = turn_center(calc, p1, back1, other_turn(t1), r);
    let off = circle_slack(r, d, z);
    &&& shifted(c2, middle(calc, b3, b1, r, sign.opposite()), mid)
    &&& forall|e1: Spot, e2: Spot, e3: Spot|
        shifted(c1, e1, off) && shifted(c2, e2, mid) && shifted(c3, e3, off) ==> #[trigger]
            steady_arcs(calc, e1, e2, e3, th0, th1, r, t1, d) && as_long_arcs(
            in_reach(c1, c3, r) && touches(c2, c3, r),
            three_arcs(calc, c1, c2, c3, th0, th1, t1),
            in_reach(e1, e3, r),
            three_arcs(calc, e1, e2, e3, th0, th1, t1),
            r,
            slack,
        )
}

/// An arc, and the one back between the opposite headings.
proof fn lemma_arc_round(
    from: Scalar,
    to: Scalar,
    from2: Scalar,
    to2: Scalar,
    turn: Turn,
    d1: int,
    d2: int,
    e: int,
)
    requires
        from.finite() && to.finite() && from2.finite() && to2.finite(),
        -32 * pow2(1074) <= from.value() <= 32 * pow2(1074),
        -32 * pow2(1074) <= to.value() <= 32 * pow2(1074),
        -32 * pow2(1074) <= from2.value() <= 32 * pow2(1074),
        -32 * pow2(1074) <= to2.value() <= 32 * pow2(1074),
        -60 * pow2(1074) <= to.value() - from.value() <= 60 * pow2(1074),
        -60 * pow2(1074) <= to2.value() - from2.value() <= 60 * pow2(1074),
        0 <= d1 <= pow2(1074) && 0 <= d2 <= pow2(1074) && 0 <= e,
        d1 + d2 <= e + 2 * speck(),
        no_turn(from2.value() - to.value() - 2 * quarter(), d1),
        no_turn(to2.value() - from.value() - 2 * quarter(), d2),
        clear_arc(turned(from, to, turn), e),
    ensures
        turned(from2, to2, other_turn(turn)).finite(),
        0 <= turned(from2, to2, other_turn(turn)).value() <= lap(),
        apart(
            turned(from2, to2, other_turn(turn)).value(),
            turned(from, to, turn).value(),
            e + 8 * speck(),
        ),
{
    lemma_sizes();
    let (s, l) = (speck(), lap());
    let x = from2.value() - to.value() - 2 * quarter();
    let y = to2.value() - from.value() - 2 * quarter();
    let m = choose|m: int| -64 <= m <= 64 && -d1 <= x - #[trigger] laps(m) <= d1;
    let n = choose|n: int| -64 <= n <= 64 && -d2 <= y - #[trigger] laps(n) <= d2;
    lemma_angle_difference(to, from);
    lemma_angle_difference(from, to);
    lemma_angle_difference(to2, from2);
    lemma_angle_difference(from2, to2);
    assert((m - n) * l == m * l - n * l && (n - m) * l == n * l - m * l) by (nonlinear_arith);
    assert(laps(n - m) == laps(n) - laps(m) && laps(m - n) == laps(m) - laps(n));
    assert(-20 <= m <= 20 && -20 <= n <= 20) by (nonlinear_arith)
        requires
            -70 * pow2(1074) <= m * l <= 70 * pow2(1074),
            -70 * pow2(1074) <= n * l <= 70 * pow2(1074),
            6 * pow2(1074) < l,
            pow2(1074) > 0,
    ;
    let k = e + 4 * s;
    if turn == Turn::L {
        assert(-k <= ((from2 - to2).value() - (to - from).value()) - laps(m - n) <= k);
        assert(no_turn((from2 - to2).value() - (to - from).value(), k));
        lemma_same_arc(to - from, from2 - to2, e);
    } else {
        assert(-k <= ((to2 - from2).value() - (from - to).value()) - laps(n - m) <= k);
        assert(no_turn((to2 - from2).value() - (from - to).value(), k));
        lemma_same_arc(from - to, to2 - from2, e);
    }
}

/// The two headings at a place of a circle.
proof fn lemma_two_headings(phi: Scalar, turn: Turn)
    requires
        phi.finite(),
        -4 * pow2(1074) <= phi.value() <= 4 * pow2(1074),
    ensures
        heading_on(phi, turn).finite() && heading_on(phi, other_turn(turn)).finite(),
        -8 * pow2(1074) <= heading_on(phi, turn).value() <= 8 * pow2(1074),
        -8 * pow2(1074) <= heading_on(phi, other_turn(turn)).value() <= 8 * pow2(1074),
        no_turn(
            heading_on(phi, other_turn(turn)).value() - heading_on(phi, turn).value() - 2
                * quarter(),
            2 * speck(),
        ),
{
    lemma_sizes();
    lemma_angle_sum(phi, right_angle());
    lemma_angle_difference(phi, right_angle());
    let l = lap();
    let k: int = if turn == Turn::L {
        -1
    } else {
        0
    };
    assert(laps(k) == k * l);
    assert((-1) * l == -l && 0 * l == 0) by (nonlinear_arith);
    let x = heading_on(phi, other_turn(turn)).value() - heading_on(phi, turn).value() - 2
        * quarter();
    assert(-(2 * speck()) <= x - laps(k) <= 2 * speck());
}

/// The arcs of the way back are those of the way there, the other way round.
#[verifier::spinoff_prover]
#[verifier::rlimit(40)]
proof fn lemma_arcs_back<C: Fn(Calc) -> Scalar>(
    calc: C,
    c1: Spot,
    c2: Spot,
    c3: Spot,
    th0: Scalar,
    back0: Scalar,
    th1: Scalar,
    back1: Scalar,
    r: Scalar,
    t1: Turn,
    d: int,
)
    requires
        true_circle(calc),
        th0.finite() && back0.finite() && th1.finite() && back1.finite(),
        -32 * pow2(1074) <= th0.value() <= 32 * pow2(1074),
        -32 * pow2(1074) <= back0.value() <= 32 * pow2(1074),
        -32 * pow2(1074) <= th1.value() <= 32 * pow2(1074),
        -32 * pow2(1074) <= back1.value() <= 32 * pow2(1074),
        half_turn(th0, back0, d) && half_turn(th1, back1, d),
        0 <= d <= pow2(1074),
        c1.0.finite() && c1.1.finite() && c2.0.finite() && c2.1.finite(),
        c3.0.finite() && c3.1.finite(),
        steady_arcs(calc, c1, c2, c3, th0, th1, r, t1, d),
        in_reach(c1, c3, r),
    ensures
        ({
            let a = three_arcs(calc, c1, c2, c3, th0, th1, t1);
            let b = three_arcs(calc, c3, c2, c1, back1, back0, other_turn(t1));
            let e = d + 10 * speck();
            &&& b.0.finite() && 0 <= b.0.value() <= lap() && apart(b.0.value(), a.2.value(), e)
            &&& b.1.finite() && 0 <= b.1.value() <= lap() && apart(b.1.value(), a.1.value(), e)
            &&& b.2.finite() && 0 <= b.2.value() <= lap() && apart(b.2.value(), a.0.value(), e)
        }),
{
    lemma_sizes();
    lemma_other_way(c2.0, c1.0);
    lemma_other_way(c2.1, c1.1);
    lemma_other_way(c2.0, c3.0);
    lemma_other_way(c2.1, c3.1);
    let (ab, ba) = (seen_from(calc, c1, c2), seen_from(calc, c2, c1));
    let (bc, cb) = (seen_from(calc, c2, c3), seen_from(calc, c3, c2));
    let t2 = other_turn(t1);
    assert(other_turn(t2) == t1);
    let e = d + 2 * speck();
    lemma_two_headings(ab, t1);
    lemma_two_headings(cb, t1);
    lemma_two_headings(ba, t2);
    lemma_two_headings(bc, t2);
    let two = 2 * speck();
    lemma_arc_round(th0, heading_on(ab, t1), heading_on(ab, t2), back0, t1, two, d, e);
    lemma_arc_round(heading_on(cb, t1), th1, back1, heading_on(cb, t2), t1, d, two, e);
    lemma_arc_round(
        heading_on(ba, t2),
        heading_on(bc, t2),
        heading_on(bc, t1),
        heading_on(ba, t1),
        t2,
        two,
        two,
        e,
    );
}

/// How far the lengths of two ways of three arcs may be apart, in square units of
/// 2^-1074.
pub open spec fn arcs_slack(r: Scalar, d: int, z: nat) -> int {
    r.value() * (3 * d + 40 * speck()) + 4 * (pow2(1074) * grain(z + 5))
}

/// Three angles that are not negative have no negative sum.
proof fn lemma_three_angles(a: (Scalar, Scalar, Scalar))
    requires
        a.0.finite() && 0 <= a.0.value() <= lap(),
        a.1.finite() && 0 <= a.1.value() <= lap(),
        a.2.finite() && 0 <= a.2.value() <= lap(),
    ensures
        (a.0 + a.1 + a.2).finite(),
        0 <= (a.0 + a.1 + a.2).value() <= 24 * pow2(1074),
        apart(
            (a.0 + a.1 + a.2).value(),
            a.0.value() + a.1.value() + a.2.value(),
            2 * speck(),
        ),
{
    lemma_sizes();
    lemma_angle_sum(a.0, a.1);
    lemma_angle_sum(a.0 + a.1, a.2);
    lemma_none_below(a.0, a.1);
    lemma_none_below(a.0 + a.1, a.2);
}

/// Two numbers that are not negative have no negative sum.
proof fn lemma_none_below(a: Scalar, b: Scalar)
    requires
        a.finite() && b.finite() && (a + b).finite(),
        0 <= a.value() && 0 <= b.value(),
    ensures
        (a + b).value() >= 0,
{
    reveal(Scalar::plus);
    assert(magnitude_value(0) == 0);
    let v = a.value() + b.value();
    if v != 0 {
        lemma_nearest_exists(v, 1);
        lemma_signed_value(a + b, false, nearest(v, 1));
        lemma_absolute_value(a + b);
    }
}

/// The way back over three arcs is as long.
proof fn lemma_arcs_as_long(
    a: (Scalar, Scalar, Scalar),
    b: (Scalar, Scalar, Scalar),
    r: Scalar,
    d: int,
    z: nat,
)
    requires
        turnable(r, z) && z <= 2080,
        0 <= d <= pow2(1074),
        a.0.finite() && 0 <= a.0.value() <= lap(),
        a.1.finite() && 0 <= a.1.value() <= lap(),
        a.2.finite() && 0 <= a.2.value() <= lap(),
        b.0.finite() && 0 <= b.0.value() <= lap(),
        b.1.finite() && 0 <= b.1.value() <= lap(),
        b.2.finite() && 0 <= b.2.value() <= lap(),
        apart(
            b.0.value() + b.1.value() + b.2.value(),
            a.0.value() + a.1.value() + a.2.value(),
            3 * d + 30 * speck(),
        ),
    ensures
        as_long_arcs(true, a, true, b, r, arcs_slack(r, d, z)),
{
    lemma_sizes();
    lemma_pow2_pos(1074);
    lemma_count(0);
    assert(whole(0).value() == 0) by {
        assert(units(0) == 0) by (nonlinear_arith)
            requires
                units(0) == 0 * pow2(1074),
        ;
    }
    lemma_three_angles(a);
    lemma_three_angles(b);
    let (p, q) = (a.0 + a.1 + a.2, b.0 + b.1 + b.2);
    let y = z + 5;
    lemma2_to64();
    lemma_pow2_adds(5, z);
    lemma_scale(y);
    let (top, one, rv) = (pow2(z) as int, pow2(1074) as int, r.value());
    let (pv, qv) = (p.value(), q.value());
    let (rp, rq) = (rv * pv, rv * qv);
    assert(rp <= (32 * top) * one && rq <= (32 * top) * one) by (nonlinear_arith)
        requires
            rp == rv * pv,
            rq == rv * qv,
            0 <= pv <= 24 * one,
            0 <= qv <= 24 * one,
            0 <= rv <= top,
            one > 0,
    ;
    lemma_arc_length(r, p, y);
    lemma_arc_length(r, q, y);
    lemma_place_sum(r * p, whole(0), y);
    lemma_place_sum(r * q, whole(0), y);
    let g = grain(y);
    let (x, w) = ((r * p).value(), (r * q).value());
    let (lf, lg) = ((r * p + whole(0)).value(), (r * q + whole(0)).value());
    let k = 3 * d + 40 * speck();
    assert(apart(lf * one, lg * one, rv * k + 4 * (one * g))) by (nonlinear_arith)
        requires
            apart(lf * one, lg * one, rv * k + 4 * (one * g)) == (-(rv * k + 4 * (one * g)) <= lf
                * one - lg * one && lf * one - lg * one <= rv * k + 4 * (one * g)),
            -g <= lf - x <= g,
            -g <= lg - w <= g,
            -(one * g) <= x * one - rv * pv <= one * g,
            -(one * g) <= w * one - rv * qv <= one * g,
            -k <= pv - qv <= k,
            rv > 0,
            one > 0,
    ;
}

/// A path of three arcs there, and the one back.
#[verifier::spinoff_prover]
proof fn lemma_arcs_there_and_back<C: Fn(Calc) -> Scalar>(
    calc: C,
    p0: Spot,
    th0: Scalar,
    back0: Scalar,
    p1: Spot,
    th1: Scalar,
    back1: Scalar,
    r: Scalar,
    t1: Turn,
    sign: Scalar,
    d: int,
    z: nat,
    mid: int,
    slack: int,
)
    requires
        true_circle(calc),
        moderate_pose(p0, th0, z) && moderate_pose(p0, back0, z),
        moderate_pose(p1, th1, z) && moderate_pose(p1, back1, z),
        turnable(r, z) && z <= 2080,
        half_turn(th0, back0, d) && half_turn(th1, back1, d),
        d <= pow2(1074),
        firm_arcs(calc, p0, th0, back0, p1, th1, back1, r, t1, sign, d, z, mid, slack),
    ensures
        as_long(
            ccc_path(calc, p0, th0, p1, th1, r, t1, sign),
            ccc_path(calc, p1, back1, p0, back0, r, other_turn(t1), sign.opposite()),
            slack + arcs_slack(r, d, z),
        ),
{
    let t2 = other_turn(t1);
    assert(other_turn(t2) == t1);
    let c1 = turn_center(calc, p0, th0, t1, r);
    let c3 = turn_center(calc, p1, th1, t1, r);
    let e1 = turn_center(calc, p0, back0, t2, r);
    let e3 = turn_center(calc, p1, back1, t2, r);
    let e2 = middle(calc, e3, e1, r, sign.opposite());
    law_way_back_turns_on_the_same_circle(calc, p0, th0, back0, t1, r, d, z);
    law_way_back_turns_on_the_same_circle(calc, p1, th1, back1, t1, r, d, z);
    assert(steady_arcs(calc, e1, e2, e3, th0, th1, r, t1, d));
    lemma_three_arcs(calc, p0, th0, p1, th1, r, t1, sign);
    lemma_three_arcs(calc, p1, back1, p0, back0, r, t2, sign.opposite());
    lemma_other_way(e3.0, e1.0);
    lemma_other_way(e3.1, e1.1);
    let (u, v) = ((e3.0 - e1.0, e3.1 - e1.1), (e1.0 - e3.0, e1.1 - e3.1));
    assert(twin_spots(u, v, true));
    lemma_twin_lengths(u, v, true);
    assert(in_reach(e3, e1, r) == in_reach(e1, e3, r));
    if in_reach(e1, e3, r) {
        lemma_sizes();
        lemma_arcs_back(calc, e1, e2, e3, th0, back0, th1, back1, r, t1, d);
        lemma_arcs_as_long(
            three_arcs(calc, e1, e2, e3, th0, th1, t1),
            three_arcs(calc, e3, e2, e1, back1, back0, t2),
            r,
            d,
            z,
        );
    }
}

/// Whether all paths of three arcs are firm.
pub open spec fn all_firm_arcs<C: Fn(Calc) -> Scalar>(
    calc: C,
    p0: Spot,
    th0: Scalar,
    back0: Scalar,
    p1: Spot,
    th1: Scalar,
    back1: Scalar,
    r: Scalar,
    d: int,
    z: nat,
    mid: int,
    slack: int,
) -> bool {
    forall|t1: Turn, sign: Scalar| #[trigger]
        firm_arcs(calc, p0, th0, back0, p1, th1, back1, r, t1, sign, d, z, mid, slack) || (sign
            != whole(1) && sign != whole(1).opposite())
}

/// No path of three arcs is shorter than the one chosen of them.
pub proof fn law_chosen_arcs_are_shortest<C: Fn(Calc) -> Scalar>(
    calc: C,
    p0: Spot,
    th0: Scalar,
    p1: Spot,
    th1: Scalar,
    r: Scalar,
    t1: Turn,
    sign: Scalar,
)
    requires
        sign == whole(1) || sign == whole(1).opposite(),
        ccc_path(calc, p0, th0, p1, th1, r, t1, sign) is Some,
    ensures
        best_ccc(calc, p0, th0, p1, th1, r) is Some,
        !(ccc_path(calc, p0, th0, p1, th1, r, t1, sign)->0.length() < best_ccc(
            calc,
            p0,
            th0,
            p1,
            th1,
            r,
        )->0.length()),
{
    let (plus, minus) = (whole(1), whole(1).opposite());
    let x0 = ccc_path(calc, p0, th0, p1, th1, r, Turn::L, plus);
    let x1 = ccc_path(calc, p0, th0, p1, th1, r, Turn::L, minus);
    let x2 = ccc_path(calc, p0, th0, p1, th1, r, Turn::R, plus);
    let x3 = ccc_path(calc, p0, th0, p1, th1, r, Turn::R, minus);
    let b1 = shorter(x0, x1);
    let b2 = shorter(b1, x2);
    assert(best_ccc(calc, p0, th0, p1, th1, r) == shorter(b2, x3));
}

/// The way back over three arcs is not longer, nor is the way there.
#[verifier::spinoff_prover]
proof fn lemma_arcs_no_longer<C: Fn(Calc) -> Scalar>(
    calc: C,
    p0: Spot,
    th0: Scalar,
    back0: Scalar,
    p1: Spot,
    th1: Scalar,
    back1: Scalar,
    r: Scalar,
    d: int,
    z: nat,
    mid: int,
    slack: int,
)
    requires
        true_circle(calc),
        moderate_pose(p0, th0, z) && moderate_pose(p0, back0, z),
        moderate_pose(p1, th1, z) && moderate_pose(p1, back1, z),
        turnable(r, z) && z <= 2080,
        half_turn(th0, back0, d) && half_turn(th1, back1, d),
        d <= pow2(1074),
        all_firm_arcs(calc, p0, th0, back0, p1, th1, back1, r, d, z, mid, slack),
    ensures
        ({
            let f = best_ccc(calc, p0, th0, p1, th1, r);
            let g = best_ccc(calc, p1, back1, p0, back0, r);
            &&& f is Some ==> g is Some && no_longer(g->0, f->0, slack + arcs_slack(r, d, z))
            &&& g is Some ==> f is Some && no_longer(f->0, g->0, slack + arcs_slack(r, d, z))
        }),
{
    let f = best_ccc(calc, p0, th0, p1, th1, r);
    let g = best_ccc(calc, p1, back1, p0, back0, r);
    let total = slack + arcs_slack(r, d, z);
    lemma_signs();
    if f is Some {
        let k = lemma_ccc_choice(calc, p0, th0, p1, th1, r);
        let (t, sign) = (other_turn(k.0), k.1.opposite());
        assert(firm_arcs(calc, p0, th0, back0, p1, th1, back1, r, k.0, k.1, d, z, mid, slack));
        lemma_arcs_there_and_back(
            calc,
            p0,
            th0,
            back0,
            p1,
            th1,
            back1,
            r,
            k.0,
            k.1,
            d,
            z,
            mid,
            slack,
        );
        law_chosen_arcs_are_shortest(calc, p1, back1, p0, back0, r, t, sign);
        let x = ccc_path(calc, p1, back1, p0, back0, r, t, sign)->0;
        lemma_shorter_too(g->0, x, f->0, total);
    }
    if g is Some {
        let k = lemma_ccc_choice(calc, p1, back1, p0, back0, r);
        let (t, sign) = (other_turn(k.0), k.1.opposite());
        assert(other_turn(t) == k.0 && sign.opposite() == k.1);
        assert(firm_arcs(calc, p0, th0, back0, p1, th1, back1, r, t, sign, d, z, mid, slack));
        lemma_arcs_there_and_back(
            calc,
            p0,
            th0,
            back0,
            p1,
            th1,
            back1,
            r,
            t,
            sign,
            d,
            z,
            mid,
            slack,
        );
        law_chosen_arcs_are_shortest(calc, p0, th0, p1, th1, r, t, sign);
        let x = ccc_path(calc, p0, th0, p1, th1, r, t, sign)->0;
        lemma_shorter_too(f->0, x, g->0, total);
    }
}

/// The opposite of minus one is one.
proof fn lemma_signs()
    ensures
        whole(1).opposite().opposite() == whole(1),
{
}

/// Whether two places are so near to each other that the path between them is a turn on
/// the spot.
pub open spec fn on_the_spot(p0: Spot, p1: Spot) -> bool {
    let tiny = frac(1, 1_000_000_000_000);
    (p0.0 - p1.0).magnitude() < tiny && (p0.1 - p1.1).magnitude() < tiny
}

/// The smallest distance of places is not none.
proof fn lemma_tiny()
    ensures
        frac(1, 1_000_000_000_000).finite(),
        frac(1, 1_000_000_000_000).value() > 0,
{
    lemma_sizes();
    lemma2_to64();
    lemma2_to64_rest();
    lemma_pow2_pos(1074);
    lemma_count(1);
    lemma_small_whole(1_000_000_000_000, 13);
    lemma_scale(1074);
    let (x, y) = (whole(1), whole(1_000_000_000_000));
    let (one, v, g) = (pow2(1074) as int, y.value(), grain(1074));
    assert(x.value() == one) by {
        assert(units(1) == one) by (nonlinear_arith)
            requires
                units(1) == 1 * one,
        ;
    }
    assert(one * one <= one * v) by (nonlinear_arith)
        requires
            v == 1_000_000_000_000 * one,
            one > 0,
    ;
    lemma_quotient(x, y, 1074);
    let q = (x / y).value();
    assert(q > 0) by (nonlinear_arith)
        requires
            -(v * g) <= q * v - one * one,
            v == 1_000_000_000_000 * one,
            one == 0x4_0000_0000_0000 * g,
            g > 0,
    ;
}

/// Two places are as near to each other the other way round, and a place is near itself.
proof fn lemma_on_the_spot(p0: Spot, p1: Spot, z: nat)
    requires
        is_bound(z),
        within(p0.0, z) && within(p0.1, z) && within(p1.0, z) && within(p1.1, z),
    ensures
        on_the_spot(p0, p1) == on_the_spot(p1, p0),
        p0.0.equals(p1.0) && p0.1.equals(p1.1) ==> on_the_spot(p0, p1),
{
    lemma_place_difference(p0.0, p1.0, z);
    lemma_place_difference(p0.1, p1.1, z);
    lemma_other_way(p0.0, p1.0);
    lemma_other_way(p0.1, p1.1);
    lemma_absolute_value(p0.0 - p1.0);
    lemma_absolute_value(p0.1 - p1.1);
    lemma_absolute_value(p1.0 - p0.0);
    lemma_absolute_value(p1.1 - p0.1);
    lemma_tiny();
    if p0.0.equals(p1.0) && p0.1.equals(p1.1) {
        lemma_no_difference(p0.0, p1.0);
        lemma_no_difference(p0.1, p1.1);
    }
}

/// Half a turn, in units of 2^-1074.
pub proof fn lemma_half()
    ensures
        (Scalar { bits: PI_BITS }).finite(),
        (Scalar { bits: PI_BITS }).value() == 2 * quarter(),
{
    lemma_pow2_adds(1, 1022);
    lemma2_to64();
    let h: int = 0x4009_21fb_5444_2d18;
    let q: int = 0x3ff9_21fb_5444_2d18;
    let f: int = FRACTION_LIMIT as int;
    assert(h / f == 1024 && h % f == 0x9_21fb_5444_2d18);
    assert(q / f == 1023 && q % f == 0x9_21fb_5444_2d18);
    let x = pow2(1022) as int;
    assert((Scalar { bits: PI_BITS }).value() == (f + 0x9_21fb_5444_2d18) * (2 * x));
    assert(quarter() == (f + 0x9_21fb_5444_2d18) * x);
    assert((f + 0x9_21fb_5444_2d18) * (2 * x) == 2 * ((f + 0x9_21fb_5444_2d18) * x))
        by (nonlinear_arith);
}

/// The angle of a turn on the spot, or at the same place.
pub open spec fn spot_angle(same: bool, th0: Scalar, th1: Scalar) -> Scalar {
    let delta = full_turn(th1 - th0);
    if same && full_turn(th0).equals(full_turn(th1)) {
        whole(0)
    } else if delta <= (Scalar { bits: PI_BITS }) {
        delta
    } else {
        tau() - delta
    }
}

/// Whether an angle is `a` or its opposite, but for full turns and `d`.
spec fn swings(x: int, a: int, k: int, up: bool, d: int) -> bool {
    apart(x, laps(k) + (if up {
        a
    } else {
        -a
    }), d)
}

/// The angle of a turn on the spot is the one between the headings, and at most half a
/// turn.
proof fn lemma_spot_angle(same: bool, th0: Scalar, th1: Scalar) -> (o: (int, bool))
    requires
        th0.finite() && th1.finite(),
        -32 * pow2(1074) <= th0.value() <= 32 * pow2(1074),
        -32 * pow2(1074) <= th1.value() <= 32 * pow2(1074),
    ensures
        spot_angle(same, th0, th1).finite(),
        0 <= spot_angle(same, th0, th1).value() <= 2 * quarter() + 2 * speck(),
        swings(
            th1.value() - th0.value(),
            spot_angle(same, th0, th1).value(),
            o.0,
            o.1,
            4 * speck(),
        ),
{
    lemma_sizes();
    lemma_half();
    lemma_count(0);
    assert(whole(0).value() == 0) by {
        assert(units(0) == 0) by (nonlinear_arith)
            requires
                units(0) == 0 * pow2(1074),
        ;
    }
    lemma_angle_difference(th1, th0);
    let x = th1 - th0;
    let k = lemma_full_turn(x);
    let i = lemma_full_turn(th0);
    let j = lemma_full_turn(th1);
    lemma_rest(x);
    let (l, s) = (lap(), speck());
    let delta = full_turn(x);
    lemma_angle_difference(tau(), delta);
    assert((-k) * l == -(k * l) && (-k - 1) * l == -(k * l) - l && (1 - k) * l == l - k * l)
        by (nonlinear_arith);
    assert((i - j) * l == i * l - j * l) by (nonlinear_arith);
    assert(laps(-k) == (-k) * l && laps(1 - k) == (1 - k) * l && laps(i - j) == (i - j) * l);
    if same && full_turn(th0).equals(full_turn(th1)) {
        (i - j, true)
    } else if delta <= (Scalar { bits: PI_BITS }) {
        (-k, true)
    } else {
        lemma_not_past(delta);
        (1 - k, false)
    }
}

/// What is left of a full turn is not below none.
pub proof fn lemma_not_past(a: Scalar)
    requires
        a.finite(),
        0 <= a.value() <= lap(),
        (tau() - a).finite(),
    ensures
        (tau() - a).value() >= 0,
{
    lemma_sizes();
    assert(a.opposite().magnitude_bits() == a.magnitude_bits());
    reveal(Scalar::plus);
    assert(magnitude_value(0) == 0);
    let v = lap() - a.value();
    if v != 0 {
        lemma_nearest_exists(v, 1);
        lemma_signed_value(tau() - a, false, nearest(v, 1));
        lemma_absolute_value(tau() - a);
    }
}

/// The angles of turns on the spot between two headings, and between their opposites the
/// other way round.
proof fn lemma_spot_back(
    same: bool,
    th0: Scalar,
    back0: Scalar,
    th1: Scalar,
    back1: Scalar,
    d: int,
)
    requires
        th0.finite() && back0.finite() && th1.finite() && back1.finite(),
        -32 * pow2(1074) <= th0.value() <= 32 * pow2(1074),
        -32 * pow2(1074) <= back0.value() <= 32 * pow2(1074),
        -32 * pow2(1074) <= th1.value() <= 32 * pow2(1074),
        -32 * pow2(1074) <= back1.value() <= 32 * pow2(1074),
        half_turn(th0, back0, d) && half_turn(th1, back1, d),
        d <= pow2(1074),
    ensures
        apart(
            spot_angle(same, back1, back0).value(),
            spot_angle(same, th0, th1).value(),
            2 * d + 12 * speck(),
        ),
{
    lemma_sizes();
    let (l, s) = (lap(), speck());
    let (k, up) = lemma_spot_angle(same, th0, th1);
    let (m, high) = lemma_spot_angle(same, back1, back0);
    let x = back0.value() - th0.value() - 2 * quarter();
    let y = back1.value() - th1.value() - 2 * quarter();
    let i = choose|i: int| -64 <= i <= 64 && -d <= x - #[trigger] laps(i) <= d;
    let j = choose|j: int| -64 <= j <= 64 && -d <= y - #[trigger] laps(j) <= d;
    let (a, b) = (spot_angle(same, th0, th1).value(), spot_angle(same, back1, back0).value());
    let n = i - j - k - m;
    assert((i - j - k - m) * l == i * l - j * l - k * l - m * l) by (nonlinear_arith);
    let e = 2 * d + 8 * s;
    let (p, q) = (if up {
        a
    } else {
        -a
    }, if high {
        b
    } else {
        -b
    });
    let off = p + q - n * l;
    assert(-e <= off <= e);
    assert(-1 <= n <= 1) by (nonlinear_arith)
        requires
            p + q == n * l + off,
            -e <= off <= e,
            -(l + 4 * s) <= p + q <= l + 4 * s,
            e + 4 * s < l,
            l > 0,
    ;
    assert(0 * l == 0 && 1 * l == l && (-1) * l == -l) by (nonlinear_arith);
    assert(n == 0 || n == 1 || n == -1);
}

/// The path between poses at one place.
proof fn lemma_spot_path<C: Fn(Calc) -> Scalar>(
    calc: C,
    p0: Spot,
    th0: Scalar,
    p1: Spot,
    th1: Scalar,
    r: Scalar,
    z: nat,
)
    requires
        moderate_pose(p0, th0, z) && moderate_pose(p1, th1, z),
        turnable(r, z),
        on_the_spot(p0, p1),
    ensures
        ({
            let path = shortest_path(calc, p0, th0, p1, th1, r);
            let same = p0.0.equals(p1.0) && p0.1.equals(p1.1);
            let a = spot_angle(same, th0, th1);
            path is Some && path->0.length() == r * (a + whole(0) + whole(0)) + whole(0)
        }),
{
    lemma_count(0);
    assert(whole(0).value() == 0) by {
        assert(units(0) == 0) by (nonlinear_arith)
            requires
                units(0) == 0 * pow2(1074),
        ;
    }
}

/// The way back of a turn on the spot, with half a turn between the headings of each
/// end, is there, and as long as the way there, but for the part of the radius by which
/// the half turns are off, and for rounding.
#[verifier::spinoff_prover]
pub proof fn law_way_back_on_the_spot_is_as_long<C: Fn(Calc) -> Scalar>(
    calc: C,
    p0: Spot,
    th0: Scalar,
    back0: Scalar,
    p1: Spot,
    th1: Scalar,
    back1: Scalar,
    r: Scalar,
    d: int,
    z: nat,
)
    requires
        moderate_pose(p0, th0, z) && moderate_pose(p0, back0, z),
        moderate_pose(p1, th1, z) && moderate_pose(p1, back1, z),
        turnable(r, z) && z <= 2080,
        half_turn(th0, back0, d) && half_turn(th1, back1, d),
        d <= pow2(1074),
        on_the_spot(p0, p1),
    ensures
        shortest_path(calc, p0, th0, p1, th1, r) is Some,
        as_long(
            shortest_path(calc, p0, th0, p1, th1, r),
            shortest_path(calc, p1, back1, p0, back0, r),
            arcs_slack(r, d, z),
        ),
{
    lemma_on_the_spot(p0, p1, z);
    lemma_spot_path(calc, p0, th0, p1, th1, r, z);
    lemma_spot_path(calc, p1, back1, p0, back0, r, z);
    lemma_sizes();
    lemma_count(0);
    assert(whole(0).value() == 0) by {
        assert(units(0) == 0) by (nonlinear_arith)
            requires
                units(0) == 0 * pow2(1074),
        ;
    }
    let same = p0.0.equals(p1.0) && p0.1.equals(p1.1);
    let o = lemma_spot_angle(same, th0, th1);
    let u = lemma_spot_angle(same, back1, back0);
    lemma_spot_back(same, th0, back0, th1, back1, d);
    lemma_arcs_as_long(
        (spot_angle(same, th0, th1), whole(0), whole(0)),
        (spot_angle(same, back1, back0), whole(0), whole(0)),
        r,
        d,
        z,
    );
}

/// The way back, with half a turn between the headings of each end: there is a path if
/// and only if there is one for the way there, and the two chosen are as long as each
/// other, but for the part of the radius by which the half turns are off, for rounding,
/// and for what a shift of the turning circles by so little makes of the length of a
/// path. The places have to lie apart, and no path may be so near to the limits of its
/// circles, tangents and arcs that such a shift, or rounding, could tip it.
#[verifier::spinoff_prover]
pub proof fn law_chosen_way_back_is_as_long<C: Fn(Calc) -> Scalar>(
    calc: C,
    p0: Spot,
    th0: Scalar,
    back0: Scalar,
    p1: Spot,
    th1: Scalar,
    back1: Scalar,
    r: Scalar,
    d: int,
    z: nat,
    mid: int,
    slack: int,
)
    requires
        true_circle(calc) && true_opposite(calc),
        moderate_pose(p0, th0, z) && moderate_pose(p0, back0, z),
        moderate_pose(p1, th1, z) && moderate_pose(p1, back1, z),
        turnable(r, z) && z <= 2080,
        half_turn(th0, back0, d) && half_turn(th1, back1, d),
        d <= pow2(1074),
        !on_the_spot(p0, p1),
        all_firm(calc, p0, th0, p1, th1, r, d, z, slack),
        best_csc(calc, p0, th0, p1, th1, r) is None ==> all_firm_arcs(
            calc,
            p0,
            th0,
            back0,
            p1,
            th1,
            back1,
            r,
            d,
            z,
            mid,
            slack,
        ),
    ensures
        as_long(
            shortest_path(calc, p0, th0, p1, th1, r),
            shortest_path(calc, p1, back1, p0, back0, r),
            if best_csc(calc, p0, th0, p1, th1, r) is Some {
                ways_slack(r, d, z, slack)
            } else {
                slack + arcs_slack(r, d, z)
            },
        ),
{
    law_way_back_is_as_long(calc, p0, th0, back0, p1, th1, back1, r, d, z, slack);
    lemma_count(0);
    assert(whole(0).value() == 0) by {
        assert(units(0) == 0) by (nonlinear_arith)
            requires
                units(0) == 0 * pow2(1074),
        ;
    }
    lemma_on_the_spot(p0, p1, z);
    if best_csc(calc, p0, th0, p1, th1, r) is None {
        lemma_arcs_no_longer(
            calc,
            p0,
            th0,
            back0,
            p1,
            th1,
            back1,
            r,
            d,
            z,
            mid,
            slack,
        );
    }
}

} // verus!
