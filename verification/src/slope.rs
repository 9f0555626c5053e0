//! Changes of height at restricted zones are not too steep.

use crate::arith::absolute;
use crate::cell::{lemma_at_most, lemma_count, lemma_rounding};
use crate::config::Zone;
use crate::coord::Geo;
use crate::ends::{lemma_absolute_value, lemma_scale, lemma_signed_value, lemma_sizes};
use crate::geometry::radians;
use crate::meridian::{lemma_motes, lemma_quotient, mote};
use crate::numeric::{frac, whole};
use crate::oracle::{image, Calc};
use crate::passage::{flat_km, pass_height, Performance};
use crate::path::PathPoint;
use crate::profile::{
    at_height, climb_anchor, climb_base_km, cut_parts, descent_anchor, first_touch, hit_order,
    hit_outcome, last_touch, lemma_last_touch_reaches, lemma_touches_agree, level_stretch,
    profiles_from, restricted_profiles, HitOutcome,
};
use crate::rounding::{lemma_nearest_exists, nearest};
use crate::scalar::{lemma_magnitude_monotone, magnitude_value, units, Scalar, INFINITY_BITS};
use crate::terrain::Sample;
use vstd::arithmetic::power2::{lemma2_to64, lemma2_to64_rest, lemma_pow2_pos, pow2};
use vstd::prelude::*;

verus! {

/// Whether a part of a route is a straight change between the height flown and another
/// one, over the ground that it needs.
pub open spec fn eases<C: Fn(Calc) -> Scalar>(
    calc: C,
    p: Performance,
    part: Seq<PathPoint>,
    pass: Scalar,
) -> bool {
    let (a, b) = (part[0], part[1]);
    &&& part.len() == 2
    &&& (a.alt_m == p.alt_m && b.alt_m == pass) || (a.alt_m == pass && b.alt_m == p.alt_m)
    &&& !(flat_km(calc, a.lon, a.lat, b.lon, b.lat) < climb_base_km(calc, p, pass))
}

/// Whether a route was cut at a zone that it crosses, with easy changes of height, or it
/// ends in the straight profile of a zone that it misses.
pub open spec fn eases_or_straight<C: Fn(Calc) -> Scalar>(
    calc: C,
    p: Performance,
    parts: Seq<Seq<PathPoint>>,
    mask: Seq<bool>,
    i: int,
) -> bool {
    ||| exists|pass: Scalar| eases(calc, p, parts[i], pass)
    ||| {
        let n = mask.len() as int;
        i >= n - 5 && n >= 5 && mask[n - 5] && mask[n - 4] && mask[n - 3] && mask[n - 2]
            && mask[n - 1]
    }
}

spec fn all_ease<C: Fn(Calc) -> Scalar>(
    calc: C,
    p: Performance,
    parts: Seq<Seq<PathPoint>>,
    mask: Seq<bool>,
) -> bool {
    &&& parts.len() == mask.len() && parts.len() > 0
    &&& forall|i: int|
        0 <= i < mask.len() && #[trigger] mask[i] ==> exists|pass: Scalar|
            eases(calc, p, parts[i], pass)
}

/// The changes of height of a route that is cut.
proof fn lemma_cut_eases<C: Fn(Calc) -> Scalar, T: Fn((Scalar, Scalar)) -> Sample>(
    calc: C,
    ground: Option<&T>,
    raw: Seq<PathPoint>,
    tail: Seq<PathPoint>,
    zones: Seq<Zone>,
    own: int,
    p: Performance,
    start: Geo,
    target: Geo,
    inflation_km: Scalar,
)
    requires
        hit_outcome(calc, ground, raw, tail, zones, own, p, start, target, inflation_km) is Cut,
    ensures
        ({
            let five = hit_outcome(
                calc,
                ground,
                raw,
                tail,
                zones,
                own,
                p,
                start,
                target,
                inflation_km,
            )->Cut_0;
            &&& five.len() == 5
            &&& exists|pass: Scalar| eases(calc, p, five[1], pass)
            &&& exists|pass: Scalar| eases(calc, p, five[3], pass)
        }),
{
    let z = zones[own];
    let i_in = first_touch(calc, tail, z, 0)->0;
    lemma_touches_agree(calc, tail, z, 0);
    lemma_last_touch_reaches(calc, tail, z, tail.len() - 1, i_in);
    let i_out = last_touch(calc, tail, z, tail.len() - 1)->0 + 1;
    let pass = pass_height(calc, ground, z, p, start, target, tail, Some((i_in, i_out)))->0;
    let base = climb_base_km(calc, p, pass);
    let level = level_stretch(calc, tail, i_in, i_out, pass, zones, inflation_km);
    assert(level.len() > 0);
    assert(level[0].alt_m == pass && level.last().alt_m == pass);
    let i_desc = descent_anchor(calc, tail, level[0], zones, own, p.alt_m, base, i_in, i_in);
    let i_climb = climb_anchor(
        calc,
        tail,
        level.last(),
        zones,
        own,
        p.alt_m,
        base,
        i_out + 1,
        i_out,
    );
    let five = cut_parts(tail, level, i_desc, i_climb, p.alt_m);
    assert(five[1] == seq![at_height(tail[i_desc], p.alt_m), level[0]]);
    assert(five[3] == seq![level.last(), at_height(tail[i_climb], p.alt_m)]);
    assert(eases(calc, p, five[1], pass));
    assert(eases(calc, p, five[3], pass));
}

proof fn lemma_profiles_ease<C: Fn(Calc) -> Scalar, T: Fn((Scalar, Scalar)) -> Sample>(
    calc: C,
    ground: Option<&T>,
    raw: Seq<PathPoint>,
    zones: Seq<Zone>,
    p: Performance,
    start: Geo,
    target: Geo,
    inflation_km: Scalar,
    order: Seq<usize>,
    k: int,
    parts: Seq<Seq<PathPoint>>,
    mask: Seq<bool>,
    i: int,
)
    requires
        0 <= k,
        all_ease(calc, p, parts, mask),
    ensures
        ({
            let r = profiles_from(
                calc,
                ground,
                raw,
                zones,
                p,
                start,
                target,
                inflation_km,
                order,
                k,
                parts,
                mask,
            );
            &&& r.0.len() == r.1.len()
            &&& 0 <= i < r.1.len() && r.1[i] ==> eases_or_straight(calc, p, r.0, r.1, i)
        }),
    decreases order.len() - k,
{
    if k < order.len() {
        let (tail, own) = (parts.last(), order[k] as int);
        match hit_outcome(
            calc,
            ground,
            raw,
            tail,
            zones,
            own,
            p,
            start,
            target,
            inflation_km,
        ) {
            HitOutcome::Skip => {
                lemma_profiles_ease(
                    calc,
                    ground,
                    raw,
                    zones,
                    p,
                    start,
                    target,
                    inflation_km,
                    order,
                    k + 1,
                    parts,
                    mask,
                    i,
                );
            },
            HitOutcome::NeedWall => {},
            HitOutcome::Straight(five) => {
                assert(five.len() == 5);
                let all = parts.drop_last() + five;
                let marks = mask.drop_last() + seq![true, true, true, true, true];
                let n = parts.len() - 1;
                if 0 <= i < n && marks[i] {
                    assert(mask[i]);
                    assert(all[i] == parts[i]);
                }
            },
            HitOutcome::Cut(five) => {
                lemma_cut_eases(
                    calc,
                    ground,
                    raw,
                    tail,
                    zones,
                    own,
                    p,
                    start,
                    target,
                    inflation_km,
                );
                let all = parts.drop_last() + five;
                let marks = mask.drop_last() + seq![false, true, false, true, false];
                let n = parts.len() - 1;
                assert forall|j: int| 0 <= j < marks.len() && #[trigger] marks[j] implies exists|
                    pass: Scalar,
                |
                    eases(calc, p, all[j], pass) by {
                    if j < n {
                        assert(mask[j]);
                        assert(all[j] == parts[j]);
                    } else {
                        assert(all[j] == five[j - n]);
                        assert(j - n == 1 || j - n == 3);
                    }
                }
                lemma_profiles_ease(
                    calc,
                    ground,
                    raw,
                    zones,
                    p,
                    start,
                    target,
                    inflation_km,
                    order,
                    k + 1,
                    all,
                    marks,
                    i,
                );
            },
        }
    }
}

/// A part of a route that is left unsmoothed changes height over the ground that it
/// needs, with a tenth to spare. The exception are the last five parts where they are the
/// straight profile of a zone that the route itself misses.
pub proof fn law_changes_of_height_ease<C: Fn(Calc) -> Scalar, T: Fn((Scalar, Scalar)) -> Sample>(
    calc: C,
    ground: Option<&T>,
    raw: Seq<PathPoint>,
    zones: Seq<Zone>,
    p: Performance,
    start: Geo,
    target: Geo,
    inflation_km: Scalar,
    i: int,
)
    ensures
        ({
            let (parts, mask, need_wall) = restricted_profiles(
                calc,
                ground,
                raw,
                zones,
                p,
                start,
                target,
                inflation_km,
            );
            &&& parts.len() == mask.len()
            &&& 0 <= i < mask.len() && mask[i] ==> eases_or_straight(calc, p, parts, mask, i)
        }),
{
    if raw.len() >= 2 {
        lemma_profiles_ease(
            calc,
            ground,
            raw,
            zones,
            p,
            start,
            target,
            inflation_km,
            hit_order(calc, raw, zones, p.alt_m, zones.len() as int),
            0,
            seq![raw],
            seq![false],
            i,
        );
    }
}

/// A quotient of numbers that are not negative loses little.
proof fn lemma_little_lost(a: Scalar, b: Scalar)
    requires
        a.finite() && b.finite(),
        0 <= a.value() && 0 < b.value(),
        (a / b).finite(),
    ensures
        (a / b).value() >= 0,
        (a.value() * pow2(1074) - (a / b).value() * b.value()) * 0x10_0000_0000_0000 <= a.value()
            * pow2(1074) + b.value() * 0x10_0000_0000_0000,
{
    reveal(Scalar::over);
    lemma_pow2_pos(1074);
    lemma_absolute_value(a);
    lemma_absolute_value(b);
    assert(magnitude_value(0) == 0);
    let (one, bv) = (pow2(1074) as int, b.value());
    let n = absolute(a.value()) * one;
    assert(n == a.value() * one && n >= 0) by (nonlinear_arith)
        requires
            n == absolute(a.value()) * one,
            absolute(a.value()) == a.value(),
            a.value() >= 0,
            one > 0,
    ;
    lemma_nearest_exists(n, bv);
    let m = nearest(n, bv);
    let negative = a.negative() != b.negative();
    lemma_signed_value(a / b, negative, m);
    lemma_rounding(n, bv);
    if a.negative() {
        assert(a.value() == 0);
        assert(0 * one == 0 && 0 * bv == 0);
        lemma_at_most(0, bv, 0);
    }
}

/// A product of numbers that are not negative loses little.
proof fn lemma_little_lost_in_product(a: Scalar, b: Scalar)
    requires
        a.finite() && b.finite(),
        0 <= a.value() && 0 <= b.value(),
        !b.negative(),
        (a * b).finite(),
    ensures
        (a * b).value() >= 0,
        (a.value() * b.value() - (a * b).value() * pow2(1074)) * 0x10_0000_0000_0000 <= a.value()
            * b.value() + pow2(1074) * 0x10_0000_0000_0000,
{
    reveal(Scalar::times);
    lemma_pow2_pos(1074);
    lemma_absolute_value(a);
    lemma_absolute_value(b);
    assert(magnitude_value(0) == 0);
    let one = pow2(1074) as int;
    let n = absolute(a.value()) * absolute(b.value());
    assert(n == a.value() * b.value() && n >= 0) by (nonlinear_arith)
        requires
            n == absolute(a.value()) * absolute(b.value()),
            absolute(a.value()) == a.value(),
            absolute(b.value()) == b.value(),
            a.value() >= 0,
            b.value() >= 0,
    ;
    lemma_nearest_exists(n, one);
    let m = nearest(n, one);
    lemma_signed_value(a * b, a.negative(), m);
    lemma_rounding(n, one);
    if a.negative() {
        assert(a.value() == 0);
        assert(0 * one == 0 && 0 * b.value() == 0);
        lemma_at_most(0, one, 0);
    }
}

/// A tenth more than one.
proof fn lemma_tenth_more()
    ensures
        frac(11, 10).finite() && !frac(11, 10).negative(),
        109 * pow2(1074) <= 100 * frac(11, 10).value(),
{
    reveal(Scalar::over);
    lemma_motes();
    lemma_pow2_pos(1074);
    lemma_count(11);
    lemma_count(10);
    let (a, b, q) = (whole(11), whole(10), frac(11, 10));
    let (one, g) = (pow2(1074) as int, mote());
    lemma_scale(1078);
    assert(units(11) == 11 * one && units(10) == 10 * one);
    assert(absolute(a.value()) * one <= pow2(1078) * b.value()) by (nonlinear_arith)
        requires
            absolute(a.value()) == 11 * one,
            b.value() == 10 * one,
            pow2(1078) == 16 * one,
            one > 0,
    ;
    lemma_quotient(a, b, 1078);
    let v = q.value();
    assert(109 * one <= 100 * v) by (nonlinear_arith)
        requires
            -(10 * one * g) <= v * (10 * one) - 11 * one * one,
            one == 0x4000_0000_0000 * g,
            one > 0,
            g > 0,
    ;
    lemma_absolute_value(q);
}

/// The ground that a change of height needs is enough for the steepest climb: the height
/// is at most that ground times the tangent of the climb. Heights that differ have to
/// differ by at least 2^-1044 metres, and the tangent is a number up to 2^10.
pub proof fn law_easy_change_is_flyable<C: Fn(Calc) -> Scalar>(
    calc: C,
    p: Performance,
    part: Seq<PathPoint>,
    pass: Scalar,
)
    requires
        eases(calc, p, part, pass),
        p.max_climb_deg > frac(1, 10),
        ({
            let tan = image(calc, Calc::Tan(radians(p.max_climb_deg)));
            let high = (p.alt_m - pass).magnitude();
            let flat = flat_km(calc, part[0].lon, part[0].lat, part[1].lon, part[1].lat);
            &&& tan.finite() && 0 < tan.value() <= 1024 * pow2(1074)
            &&& high.finite() && (high.value() == 0 || high.value() >= 0x4000_0000)
            &&& flat.finite() && flat.value() >= 0
        }),
    ensures
        ({
            let tan = image(calc, Calc::Tan(radians(p.max_climb_deg)));
            let high = (p.alt_m - pass).magnitude();
            let flat = flat_km(calc, part[0].lon, part[0].lat, part[1].lon, part[1].lat);
            high.value() * pow2(1074) <= 1000 * (flat.value() * tan.value())
        }),
{
    lemma_sizes();
    lemma_pow2_pos(1074);
    lemma_tenth_more();
    lemma2_to64();
    lemma2_to64_rest();
    lemma_count(1000);
    let tan = image(calc, Calc::Tan(radians(p.max_climb_deg)));
    let high = (p.alt_m - pass).magnitude();
    let flat = flat_km(calc, part[0].lon, part[0].lat, part[1].lon, part[1].lat);
    let (one, h, t, f) = (pow2(1074) as int, high.value(), tan.value(), flat.value());
    lemma_absolute_value(high);
    assert(f * t >= 0) by (nonlinear_arith)
        requires
            f >= 0,
            t > 0,
    ;
    if h > 0 {
        let (q, k, m) = (high / tan, high / tan / whole(1000), frac(11, 10));
        let b = k * m;
        assert(b == climb_base_km(calc, p, pass));
        lemma_no_nan(high, tan);
        lemma_no_nan(q, whole(1000));
        lemma_no_nan_product(k, m);
        assert(!b.nan());
        // The base is not above the ground, so it is finite.
        lemma_below_finite(b, flat);
        lemma_finite_factor(k, m);
        lemma_finite_part(q, whole(1000));
        lemma_little_lost(high, tan);
        lemma_little_lost(q, whole(1000));
        lemma_little_lost_in_product(k, m);
        let (qv, kv, mv, bv) = (q.value(), k.value(), m.value(), b.value());
        let big: int = 0x10_0000_0000_0000;
        let (ho, qt) = (h * one, qv * t);
        let (ko, bo) = (kv * one, bv * one);
        assert(units(1000) == 1000 * one);
        // What each step loses.
        assert((ho - qt) * big <= ho + t * big);
        assert(qv * one * (big - 1) <= (1000 * ko + 1000 * one) * big) by (nonlinear_arith)
            requires
                (qv * one - kv * (1000 * one)) * big <= qv * one + (1000 * one) * big,
                ko == kv * one,
        ;
        assert(qv * (big - 1) <= (1000 * kv + 1000) * big) by (nonlinear_arith)
            requires
                qv * one * (big - 1) <= (1000 * ko + 1000 * one) * big,
                ko == kv * one,
                one > 0,
        ;
        assert(109 * kv * (big - 1) <= 100 * (bv + 1) * big) by (nonlinear_arith)
            requires
                (kv * mv - bv * one) * big <= kv * mv + one * big,
                109 * one <= 100 * mv,
                kv >= 0,
                one > 0,
                big == 0x10_0000_0000_0000,
        ;
        lemma_enough(ho, qt, t, qv, kv, bv, big);
        assert(ho >= 0x4000_0000 * one) by (nonlinear_arith)
            requires
                ho == h * one,
                h >= 0x4000_0000,
                one > 0,
        ;
        assert(ho <= 1000 * (bv * t));
        assert(bv * t <= f * t) by (nonlinear_arith)
            requires
                bv <= f,
                t > 0,
        ;
    }
}

/// The steps together.
proof fn lemma_enough(ho: int, qt: int, t: int, qv: int, kv: int, bv: int, big: int)
    requires
        big == 0x10_0000_0000_0000,
        qt == qv * t,
        0 < t,
        0 <= qv && 0 <= kv && 0 <= bv,
        (ho - qt) * big <= ho + t * big,
        qv * (big - 1) <= (1000 * kv + 1000) * big,
        109 * kv * (big - 1) <= 100 * (bv + 1) * big,
    ensures
        ho >= 0x10_0000 * t ==> ho <= 1000 * (bv * t),
{
    // In turn: ho (1 - 1 / big) <= qt + t.
    assert(ho * (big - 1) <= (qt + t) * big) by (nonlinear_arith)
        requires
            (ho - qt) * big <= ho + t * big,
    ;
    assert(108 * kv <= 100 * bv + 101);
    assert(100 * qv <= 100_001 * kv + 100_001);
    let (kt, bt) = (kv * t, bv * t);
    assert(108 * kt <= 100 * bt + 101 * t && 100 * qt <= 100_001 * kt + 100_001 * t)
        by (nonlinear_arith)
        requires
            kt == kv * t,
            bt == bv * t,
            qt == qv * t,
            108 * kv <= 100 * bv + 101,
            100 * qv <= 100_001 * kv + 100_001,
            t > 0,
    ;
}

proof fn lemma_no_nan(a: Scalar, b: Scalar)
    requires
        !a.nan() && !a.negative(),
        b.finite() && b.value() > 0,
    ensures
        !(a / b).nan() && !(a / b).negative(),
{
    reveal(Scalar::over);
    lemma_absolute_value(b);
    assert(magnitude_value(0) == 0);
    lemma_pow2_pos(1074);
    if a.finite() {
        lemma_absolute_value(a);
        let n = absolute(a.value()) * pow2(1074);
        assert(n >= 0) by (nonlinear_arith)
            requires
                n == absolute(a.value()) * pow2(1074),
                absolute(a.value()) >= 0,
                pow2(1074) > 0,
        ;
        lemma_nearest_exists(n, absolute(b.value()));
    }
}

proof fn lemma_no_nan_product(a: Scalar, b: Scalar)
    requires
        !a.nan() && !a.negative(),
        b.finite() && !b.negative() && b.value() > 0,
    ensures
        !(a * b).nan() && !(a * b).negative(),
{
    reveal(Scalar::times);
    lemma_absolute_value(b);
    assert(magnitude_value(0) == 0);
    lemma_pow2_pos(1074);
    if a.finite() {
        lemma_absolute_value(a);
        let n = absolute(a.value()) * absolute(b.value());
        assert(n >= 0) by (nonlinear_arith)
            requires
                n == absolute(a.value()) * absolute(b.value()),
                absolute(a.value()) >= 0,
                absolute(b.value()) >= 0,
        ;
        lemma_nearest_exists(n, pow2(1074) as int);
    }
}

/// What is not above a finite number is finite.
proof fn lemma_below_finite(b: Scalar, f: Scalar)
    requires
        !b.nan() && !b.negative(),
        f.finite(),
        !(f < b),
    ensures
        b.finite(),
        b.value() <= f.value(),
{
    if !b.finite() {
        let m = f.magnitude_bits();
        lemma_absolute_value(f);
        lemma_magnitude_monotone(m, INFINITY_BITS as int);
    }
}

/// A finite product has finite factors.
proof fn lemma_finite_factor(a: Scalar, b: Scalar)
    requires
        !a.nan(),
        b.finite() && b.value() > 0,
        (a * b).finite(),
    ensures
        a.finite(),
{
    reveal(Scalar::times);
    lemma_absolute_value(b);
    assert(magnitude_value(0) == 0);
}

/// A finite quotient has a finite dividend.
proof fn lemma_finite_part(a: Scalar, b: Scalar)
    requires
        !a.nan(),
        b.finite() && b.value() > 0,
        (a / b).finite(),
    ensures
        a.finite(),
{
    reveal(Scalar::over);
}

} // verus!
