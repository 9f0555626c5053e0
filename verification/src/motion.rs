//! What climbs, banks and turns come to.

use crate::arith::absolute;
use crate::cell::{lemma_at_most, lemma_rounding};
use crate::ends::{lemma_absolute_value, lemma_signed_value};
use crate::exact::{
    about, far, least, lemma_add, lemma_least, lemma_num, lemma_order, lemma_sub, lemma_units,
    lemma_whole_product, num, part, size,
};
use crate::geometry::radians;
use crate::margin::power_pattern;
use crate::numeric::{frac, whole};
use crate::oracle::{image, Calc};
use crate::passage::Performance;
use crate::path::angle_gap;
use crate::plane::{lemma_part, lemma_sizes};
use crate::profile::climb_base_km;
use crate::ring::{
    lemma_bound, lemma_is, lemma_minus, lemma_plus, lemma_product, lemma_quotient, lemma_turn,
    prod,
};
use crate::room::{climbs, lemma_height};
use crate::rounding::{lemma_nearest_exists, nearest};
use crate::scalar::{magnitude_value, units, Scalar};
use crate::spacing::moderate;
use crate::values::{lemma_num_frac, lemma_num_whole};
use vstd::arithmetic::div_mod::lemma_fundamental_div_mod;
use vstd::arithmetic::power2::pow2;
use vstd::prelude::*;

verus! {

/// A part of a factor, and a little.
proof fn lemma_lost(t: real, x: real, q: real, z: real)
    requires
        size(x) <= part() * size(q) + z,
        0real <= size(t) <= 1000real,
        0real <= z,
    ensures
        size(prod(t, x)) <= part() * size(prod(t, q)) + 1000real * z,
{
    let s = size(t);
    lemma_bound(t, x, s, part() * size(q) + z);
    lemma_plus(s, part() * size(q), z);
    lemma_part(s, size(q));
    lemma_sizes(t, q);
    lemma_bound(s, z, 1000real, z);
    lemma_is(1000real, z);
}

/// A tenth more than one.
proof fn lemma_tenth()
    ensures
        frac(11, 10).finite(),
        about(num(frac(11, 10)), 11real / 10real, 1real / 1000000000000000real),
{
    lemma_least();
    lemma_num_frac(11, 10);
    let (f, t, l) = (num(frac(11, 10)), 10int as real, least());
    assert(t == 10real && 11int as real == 11real);
    let (ft, lt) = (f * t, l * t);
    assert(ft == 10real * f && lt == 10real * l) by (nonlinear_arith)
        requires
            ft == f * t,
            lt == l * t,
            t == 10real,
    ;
}

/// The ground that a change of height takes is the change over the slope, and a tenth
/// more; but for a part in 10^10.
#[verifier::rlimit(50)]
pub proof fn law_ground_of_a_climb<C: Fn(Calc) -> Scalar>(calc: C, p: Performance, pass: Scalar)
    requires
        moderate(p.alt_m) && moderate(pass),
        climbs(calc, p.max_climb_deg),
    ensures
        ({
            let base = climb_base_km(calc, p, pass);
            let tan = num(image(calc, Calc::Tan(radians(p.max_climb_deg))));
            let high = size(num(p.alt_m) - num(pass));
            &&& base.finite()
            &&& about(
                10000real * prod(tan, num(base)),
                11real * high,
                high / 10000000000real + 1real / 10000000000real,
            )
        }),
{
    lemma_least();
    lemma_height(p.alt_m, pass);
    lemma_tenth();
    lemma_num_whole(1000);
    let tan = image(calc, Calc::Tan(radians(p.max_climb_deg)));
    let (mag, c) = ((p.alt_m - pass).magnitude(), frac(11, 10));
    let (a, t, high) = (num(mag), num(tan), size(num(p.alt_m) - num(pass)));
    let small = 1real / 1000000real;
    lemma_is(far(), small);
    lemma_quotient(mag, tan, small);
    let q = num(mag / tan);
    lemma_turn(t, q);
    lemma_slope_bound(q, t);
    lemma_is(far(), 1000real);
    lemma_quotient(mag / tan, whole(1000), 1000real);
    let k = num(mag / tan / whole(1000));
    lemma_turn(k, 1000real);
    lemma_is(1000real, k);
    let z = 1real / 1000000000000000000000000real;
    lemma_lost(t, 1000real * k - q, q, z);
    lemma_minus(t, 1000real * k, q);
    lemma_thousandfold(t, k);
    // A tenth more.
    let d = num(c) - 11real / 10real;
    let e = 1real / 1000000000000000real;
    lemma_bound(k, d, size(k), e);
    lemma_turn(size(k), e);
    lemma_is(e, size(k));
    lemma_minus(k, num(c), 11real / 10real);
    lemma_turn(k, 11real / 10real);
    lemma_is(11real / 10real, k);
    assert(size(prod(k, num(c))) <= 3000000000real);
    lemma_product(mag / tan / whole(1000), c);
    let b = num(mag / tan / whole(1000) * c);
    lemma_lost_more(t, b, k);
}

proof fn lemma_slope_bound(q: real, t: real)
    requires
        t >= 1real / 1000000real,
        size(prod(t, q)) <= 2000010real,
    ensures
        size(q) <= 2000010000000real,
{
    lemma_is(t, q);
    let s = size(q);
    assert(size(t * q) == t * s) by (nonlinear_arith)
        requires
            t > 0real,
            s == size(q),
    ;
    if s > 2000010000000real {
        assert(t * s > 2000010real) by (nonlinear_arith)
            requires
                s > 2000010000000real,
                t >= 1real / 1000000real,
        ;
    }
}

proof fn lemma_thousandfold(t: real, k: real)
    ensures
        prod(t, 1000real * k) == 1000real * prod(t, k),
{
    lemma_is(t, 1000real * k);
    lemma_is(t, k);
    assert(t * (1000real * k) == 1000real * (t * k)) by (nonlinear_arith);
}

/// The last step, along the slope.
#[verifier::rlimit(50)]
proof fn lemma_lost_more(t: real, b: real, k: real)
    requires
        size(b - 11real / 10real * k) <= 10real * (part() * size(k)) + 1real
            / 1000000000000000000000000real,
        0real <= size(t) <= 1000real,
    ensures
        about(
            10real * prod(t, b),
            11real * prod(t, k),
            100real * (part() * size(prod(t, k))) + 1real / 10000000000000000000real,
        ),
{
    let x = b - 11real / 10real * k;
    let y = x / 10real;
    let z = 1real / 1000000000000000000000000real;
    lemma_lost(t, y, k, z);
    lemma_minus(t, b, 11real / 10real * k);
    lemma_is(t, 11real / 10real * k);
    lemma_is(t, k);
    lemma_is(t, y);
    lemma_is(t, x);
    assert(t * (11real / 10real * k) == 11real / 10real * (t * k)) by (nonlinear_arith);
    assert(10real * (t * (x / 10real)) == t * x) by (nonlinear_arith);
}

/// What is left of an angle after whole turns.
#[verifier::rlimit(50)]
proof fn lemma_turns(d: Scalar) -> (k: int)
    requires
        d.finite(),
        size(num(d)) <= 10000000real,
    ensures
        d.remainder(whole(360)).finite(),
        about(
            num(d.remainder(whole(360))),
            num(d) - 360real * (k as real),
            1real / 1000000000000real,
        ),
        size(num(d.remainder(whole(360)))) <= 360real + 1real / 1000000000000real,
{
    reveal(Scalar::remainder);
    lemma_least();
    lemma_units();
    lemma_num_whole(360);
    lemma_absolute_value(d);
    lemma_absolute_value(whole(360));
    assert(magnitude_value(0) == 0);
    let one = pow2(1074) as int;
    let (v, o) = (absolute(d.value()), 360 * one);
    assert(whole(360).value() == o);
    lemma_fundamental_div_mod(v, o);
    let (q, r) = (v / o, v % o);
    assert(0 <= r < o);
    assert(r <= pow2(1174));
    lemma_at_most(r, 1, power_pattern(1122));
    lemma_rounding(r, 1);
    lemma_nearest_exists(r, 1);
    let m = nearest(r, 1);
    let rem = d.remainder(whole(360));
    lemma_signed_value(rem, d.negative(), m);
    lemma_num(rem);
    lemma_num(d);
    let x = magnitude_value(m);
    let u = one as real;
    lemma_whole_product(o, q);
    lemma_whole_product(360, one);
    let (rr, xr, qr) = (r as real, x as real, q as real);
    assert(v as real == (360real * u) * qr + rr);
    let k = if d.negative() {
        -q
    } else {
        q
    };
    let (dn, rn) = (num(d), num(rem));
    // The sizes, in units.
    let (ds, rs) = (size(dn), size(rn));
    assert(ds * u == v as real && rs * u == xr) by (nonlinear_arith)
        requires
            ds == size(dn),
            rs == size(rn),
            (dn * u == v as real && rn * u == xr) || (dn * u == -(v as real) && rn * u == -xr),
            v as real >= 0real,
            xr >= 0real,
            u > 0real,
    ;
    let w = rr / u;
    assert(w * u == rr) by (nonlinear_arith)
        requires
            w == rr / u,
            u > 0real,
    ;
    assert(0real <= w <= 360real) by (nonlinear_arith)
        requires
            w * u == rr,
            0real <= rr <= 360real * u,
            u > 0real,
    ;
    let l = least();
    assert(l * u == 1real) by (nonlinear_arith)
        requires
            l == 1real / u,
            u > 0real,
    ;
    let e = rs - w;
    assert((xr - rr) * 4503599627370496real <= rr + 4503599627370496real && (rr - xr)
        * 4503599627370496real <= rr + 4503599627370496real);
    assert(e * 4503599627370496real <= w + 4503599627370496real * l && -e * 4503599627370496real
        <= w + 4503599627370496real * l) by (nonlinear_arith)
        requires
            e == rs - w,
            rs * u == xr,
            w * u == rr,
            l * u == 1real,
            (xr - rr) * 4503599627370496real <= rr + 4503599627370496real,
            (rr - xr) * 4503599627370496real <= rr + 4503599627370496real,
            u > 0real,
    ;
    assert(ds == 360real * qr + w) by (nonlinear_arith)
        requires
            ds * u == (360real * u) * qr + rr,
            w * u == rr,
            u > 0real,
    ;
    assert(d.negative() ==> dn <= 0real && rn <= 0real);
    assert(!d.negative() ==> dn >= 0real && rn >= 0real);
    assert(k as real == (if d.negative() {
        -qr
    } else {
        qr
    }));
    k
}

/// The gap between two angles is their difference but for whole turns, and never more
/// than half a turn either way; but for 1e-8 degrees.
#[verifier::rlimit(50)]
pub proof fn law_angle_gap_is_a_difference(a: Scalar, b: Scalar) -> (k: int)
    requires
        moderate(a) && moderate(b),
    ensures
        angle_gap(a, b).finite(),
        size(num(angle_gap(a, b))) <= 180real + 1real / 100000000real,
        about(
            num(angle_gap(a, b)),
            num(a) - num(b) - 360real * (k as real),
            1real / 100000000real,
        ),
{
    lemma_least();
    lemma_sub(a, b);
    lemma_num_whole(180);
    lemma_num_whole(360);
    let k = lemma_turns(a - b);
    let d = (a - b).remainder(whole(360));
    let c = whole(180).opposite();
    assert(c.magnitude_bits() == whole(180).magnitude_bits());
    assert(c.value() == -whole(180).value());
    lemma_num(c);
    lemma_num(whole(180));
    let u = pow2(1074) as real;
    assert(num(c) == -180real) by (nonlinear_arith)
        requires
            num(c) * u == -(180real * u),
            u > 0real,
    ;
    lemma_order(whole(180), d);
    lemma_order(d, c);
    lemma_sub(d, whole(360));
    lemma_add(d, whole(360));
    if d >= whole(180) {
        k + 1
    } else if d < c {
        k - 1
    } else {
        k
    }
}

} // verus!
