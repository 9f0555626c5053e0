//! The region of a search has room round every place that it is made for.

use crate::arith::{absolute, signed};
use crate::coord::{legal_coordinate, Geo};
use crate::mission::VehicleSpec;
use crate::numeric::{frac, lemma_whole_exact, whole};
use crate::passage::infinity;
use crate::region::{extent_of, search_region, Extent};
use crate::rounding::{lemma_nearest_exists, lemma_pattern_value, nearest, pattern};
use crate::scalar::{
    lemma_magnitude_monotone, magnitude_value, units, Scalar, FRACTION_LIMIT, INFINITY_BITS,
};
use vstd::arithmetic::power2::{
    lemma2_to64, lemma2_to64_rest, lemma_pow2_adds, lemma_pow2_pos, lemma_pow2_strictly_increases,
    lemma_pow2_unfold, pow2,
};
use vstd::prelude::*;

verus! {

/// The distance of doubles just above 1024, in units of 2^-1074.
spec fn tiny() -> int {
    pow2(1032) as int
}

proof fn lemma_scale()
    ensures
        tiny() > 0,
        pow2(1074) == 4398046511104 * tiny(),
{
    lemma_pow2_adds(1032, 42);
    lemma_pow2_pos(1032);
    lemma2_to64_rest();
    assert(pow2(1032) * 4398046511104 == 4398046511104 * tiny());
}

/// How far the number above a pattern is away.
pub open spec fn step_size(m: int) -> int {
    if m / (FRACTION_LIMIT as int) == 0 {
        1
    } else {
        pow2((m / (FRACTION_LIMIT as int) - 1) as nat) as int
    }
}

pub proof fn lemma_step_size(m: int)
    requires
        0 <= m,
    ensures
        magnitude_value(m + 1) - magnitude_value(m) == step_size(m),
        step_size(m) > 0,
{
    let f: int = FRACTION_LIMIT as int;
    let e: int = m / f;
    let r: int = m % f;
    if e == 0 {
        if m + 1 >= f {
            assert((m + 1) / f == 1 && (m + 1) % f == 0);
            lemma2_to64();
            assert(f * pow2(0) == f) by (nonlinear_arith)
                requires
                    pow2(0) == 1,
            ;
        } else {
            assert((m + 1) / f == 0);
        }
    } else {
        let p: int = pow2((e - 1) as nat) as int;
        lemma_pow2_pos((e - 1) as nat);
        if r + 1 < f {
            assert((m + 1) / f == e && (m + 1) % f == r + 1);
            assert((f + r + 1) * p - (f + r) * p == p) by (nonlinear_arith);
        } else {
            assert((m + 1) / f == e + 1 && (m + 1) % f == 0);
            lemma_pow2_unfold(e as nat);
            assert(pow2(e as nat) == 2 * p);
            assert(f * (2 * p) - (f + r) * p == p) by (nonlinear_arith)
                requires
                    r == f - 1,
            ;
        }
    }
}

pub proof fn lemma_steps_grow(a: int, b: int)
    requires
        0 <= a <= b,
    ensures
        step_size(a) <= step_size(b),
{
    let f: int = FRACTION_LIMIT as int;
    let (ea, eb) = (a / f, b / f);
    assert(ea <= eb) by (nonlinear_arith)
        requires
            ea == a / f,
            eb == b / f,
            0 <= a <= b,
            f == 0x10_0000_0000_0000,
    ;
    if ea == 0 {
        if eb > 0 {
            lemma_pow2_pos((eb - 1) as nat);
        }
    } else if ea < eb {
        lemma_pow2_strictly_increases((ea - 1) as nat, (eb - 1) as nat);
    }
}

/// The pattern of 2^(t - 1022), for a step exponent `t`.
pub open spec fn power_pattern(t: int) -> int {
    pattern(FRACTION_LIMIT as int, t)
}

pub proof fn lemma_power_pattern(t: int)
    requires
        0 < t < 2046,
    ensures
        0 < power_pattern(t) < INFINITY_BITS,
        magnitude_value(power_pattern(t)) == pow2((t + 52) as nat),
        step_size(power_pattern(t)) == pow2(t as nat),
{
    let m = power_pattern(t);
    lemma_pattern_value(FRACTION_LIMIT as int, t);
    lemma_step_size(m);
    lemma_pow2_adds(52, t as nat);
    lemma2_to64_rest();
    let p: int = pow2(t as nat) as int;
    assert((FRACTION_LIMIT + 1) * p - FRACTION_LIMIT * p == p) by (nonlinear_arith);
    assert(m == (t + 1) * FRACTION_LIMIT);
    assert(0 < (t + 1) * FRACTION_LIMIT < 2047 * 0x10_0000_0000_0000) by (nonlinear_arith)
        requires
            0 < t < 2046,
            FRACTION_LIMIT == 0x10_0000_0000_0000,
    ;
}

/// Up to 1024, rounding moves a number by less than the distance of doubles there.
proof fn lemma_near(n: int)
    requires
        0 <= n <= 1024 * pow2(1074),
    ensures
        nearest(n, 1) < INFINITY_BITS,
        -tiny() <= magnitude_value(nearest(n, 1)) - n <= tiny(),
{
    lemma_scale();
    lemma_nearest_exists(n, 1);
    let m = nearest(n, 1);
    let top = power_pattern(1032);
    lemma_power_pattern(1032);
    lemma_pow2_adds(10, 1074);
    lemma2_to64();
    assert(magnitude_value(top) == 1024 * pow2(1074));
    if m > top {
        if m - 1 > top {
            lemma_magnitude_monotone(top, m - 1);
        }
        lemma_magnitude_monotone(m - 1, m);
    }
    assert(m <= top);
    if m > 0 {
        lemma_step_size(m - 1);
        lemma_steps_grow(m - 1, top);
    } else {
        assert(magnitude_value(0) == 0);
    }
    lemma_step_size(m);
    lemma_steps_grow(m, top);
}

/// A sum up to 1024 is off by less than the distance of doubles there.
proof fn lemma_sum_close(a: Scalar, b: Scalar)
    requires
        a.finite(),
        b.finite(),
        -1024 * pow2(1074) <= a.value() + b.value() <= 1024 * pow2(1074),
    ensures
        (a + b).finite(),
        -tiny() <= (a + b).value() - (a.value() + b.value()) <= tiny(),
{
    reveal(Scalar::plus);
    lemma_scale();
    let v = a.value() + b.value();
    lemma_near(absolute(v));
    lemma_nearest_exists(absolute(v), 1);
    if v == 0 {
        assert(magnitude_value(0) == 0);
    }
}

proof fn lemma_difference_close(a: Scalar, b: Scalar)
    requires
        a.finite(),
        b.finite(),
        -1024 * pow2(1074) <= a.value() - b.value() <= 1024 * pow2(1074),
    ensures
        (a - b).finite(),
        -tiny() <= (a - b).value() - (a.value() - b.value()) <= tiny(),
{
    let c = b.opposite();
    assert(c.magnitude_bits() == b.magnitude_bits());
    assert(c.value() == -b.value());
    lemma_sum_close(a, c);
}

/// A small whole number `n`, shifted to the significand `n * 2^s`.
pub proof fn lemma_small_whole(n: int, s: int)
    requires
        0 < n,
        0 <= s < 53,
        FRACTION_LIMIT <= n * pow2(s as nat) < 2 * FRACTION_LIMIT,
    ensures
        whole(n).finite(),
        !whole(n).negative(),
        whole(n).value() == units(n),
{
    let q = n * pow2(s as nat);
    let t = 1074 - s;
    let m = pattern(q, t);
    lemma_pattern_value(q, t);
    lemma_pow2_adds(s as nat, t as nat);
    let (a, b) = (pow2(s as nat) as int, pow2(t as nat) as int);
    assert((n * a) * b == n * (a * b)) by (nonlinear_arith);
    let r = signed(false, m);
    assert(0 <= m < INFINITY_BITS) by (nonlinear_arith)
        requires
            m == (t + 1) * FRACTION_LIMIT + (q - FRACTION_LIMIT),
            FRACTION_LIMIT <= q < 2 * FRACTION_LIMIT,
            1021 < t <= 1074,
            FRACTION_LIMIT == 0x10_0000_0000_0000,
            INFINITY_BITS == 0x7ff0_0000_0000_0000,
    ;
    lemma_whole_exact(n, r);
}

/// A fraction rounds to at least a power of two that it is not below.
pub proof fn lemma_at_least_power(n: int, d: int, t: int)
    requires
        n >= 0,
        d > 0,
        0 < t < 2046,
        pow2((t + 52) as nat) * d <= n,
    ensures
        magnitude_value(nearest(n, d)) >= pow2((t + 52) as nat),
{
    lemma_nearest_exists(n, d);
    lemma_power_pattern(t);
    let m = nearest(n, d);
    let p = power_pattern(t);
    let (v, w) = (magnitude_value(m), magnitude_value(p));
    if m < p {
        lemma_magnitude_monotone(m, p);
        if m + 1 < p {
            lemma_magnitude_monotone(m + 1, p);
        }
        let u = magnitude_value(m + 1);
        assert((v + u) * d < 2 * (w * d)) by (nonlinear_arith)
            requires
                v < w,
                u <= w,
                d > 0,
        ;
    } else if p < m {
        lemma_magnitude_monotone(p, m);
    }
}

/// A fraction rounds to at most a power of two that it is not above.
pub proof fn lemma_at_most_power(n: int, d: int, t: int)
    requires
        n >= 0,
        d > 0,
        0 < t < 2046,
        n <= pow2((t + 52) as nat) * d,
    ensures
        magnitude_value(nearest(n, d)) <= pow2((t + 52) as nat),
        nearest(n, d) < INFINITY_BITS,
{
    lemma_nearest_exists(n, d);
    lemma_power_pattern(t);
    let m = nearest(n, d);
    let p = power_pattern(t);
    let (v, w) = (magnitude_value(m), magnitude_value(p));
    if p < m {
        lemma_magnitude_monotone(p, m);
        if p < m - 1 {
            lemma_magnitude_monotone(p, m - 1);
        }
        let u = magnitude_value(m - 1);
        assert((u + v) * d > 2 * (w * d)) by (nonlinear_arith)
            requires
                w < v,
                w <= u,
                d > 0,
        ;
    } else if m < p {
        lemma_magnitude_monotone(m, p);
    }
}

/// The margin is between a sixteenth of a degree and a degree, and so is twice the
/// margin, but for a factor.
proof fn lemma_margin()
    ensures
        ({
            let pad = frac(15, 100);
            let twice = whole(2) * pad;
            &&& pad.finite() && twice.finite()
            &&& pow2(1074) <= 16 * pad.value() && pad.value() <= pow2(1074)
            &&& pow2(1074) <= 16 * twice.value() && twice.value() <= 2 * pow2(1074)
        }),
{
    reveal(Scalar::over);
    reveal(Scalar::times);
    lemma2_to64_rest();
    lemma2_to64();
    lemma_small_whole(15, 49);
    lemma_small_whole(100, 46);
    lemma_small_whole(2, 51);
    lemma_pow2_pos(1070);
    lemma_pow2_adds(4, 1070);
    lemma_pow2_unfold(1075);
    let s = pow2(1070) as int;
    let u = pow2(1074) as int;
    assert(u == 16 * s);
    let (n, d) = (units(15) * u, units(100));
    assert(s * d <= n && n <= u * d && n >= 0 && d > 0) by (nonlinear_arith)
        requires
            u == 16 * s,
            s > 0,
            n == 15 * u * u,
            d == 100 * u,
    ;
    lemma_at_least_power(n, d, 1018);
    lemma_at_most_power(n, d, 1022);
    let pad = frac(15, 100);
    lemma_nearest_exists(n, d);
    lemma_value_of(pad, nearest(n, d));
    let p = pad.value();
    let (k, e) = (units(2) * p, u);
    assert(s * e <= k && k <= (2 * u) * e && k >= 0) by (nonlinear_arith)
        requires
            u == 16 * s,
            s > 0,
            s <= p <= u,
            k == 2 * u * p,
            e == u,
    ;
    lemma_at_least_power(k, e, 1018);
    lemma_at_most_power(k, e, 1023);
    let twice = whole(2) * pad;
    lemma_nearest_exists(k, e);
    assert(twice == signed(false, nearest(k, e)));
    lemma_value_of(twice, nearest(k, e));
}

pub proof fn lemma_value_of(x: Scalar, m: int)
    requires
        x == signed(false, m),
        0 <= m < INFINITY_BITS,
    ensures
        x.finite(),
        !x.negative(),
        x.value() == magnitude_value(m),
        x.value() >= 0,
{
    if m > 0 {
        lemma_magnitude_monotone(0, m);
    }
    assert(magnitude_value(0) == 0);
}

/// Whether a place lies in an extent.
spec fn spans(e: Extent, g: Geo) -> bool {
    &&& e.min_lon.value() <= g.lon.value() <= e.max_lon.value()
    &&& e.min_lat.value() <= g.lat.value() <= e.max_lat.value()
}

/// Whether the sides of an extent are legal coordinates.
spec fn sane(e: Extent) -> bool {
    legal_coordinate(e.min_lon, e.min_lat) && legal_coordinate(e.max_lon, e.max_lat)
}

proof fn lemma_extent_with(e: Extent, g: Geo)
    requires
        e == Extent::nothing() || sane(e),
        legal_coordinate(g.lon, g.lat),
    ensures
        sane(e.with(g)),
        spans(e.with(g), g),
        forall|p: Geo| sane(e) && #[trigger] spans(e, p) ==> spans(e.with(g), p),
{
    let top = INFINITY_BITS as int;
    if e == Extent::nothing() {
        lemma_below_infinity(g.lon);
        lemma_below_infinity(g.lat);
        assert(infinity().value() == magnitude_value(top));
        assert(infinity().opposite().value() == -magnitude_value(top));
        assert(!infinity().opposite().nan());
    }
}

proof fn lemma_below_infinity(x: Scalar)
    requires
        x.finite(),
    ensures
        -magnitude_value(INFINITY_BITS as int) < x.value() < magnitude_value(INFINITY_BITS as int),
{
    let m = x.magnitude_bits();
    lemma_magnitude_monotone(m, INFINITY_BITS as int);
    if m > 0 {
        lemma_magnitude_monotone(0, m);
    }
    assert(magnitude_value(0) == 0);
}

/// Whether the places of a flight are legal coordinates.
pub open spec fn legal_ends(v: VehicleSpec) -> bool {
    legal_coordinate(v.start.lon, v.start.lat) && legal_coordinate(v.target.lon, v.target.lat)
}

proof fn lemma_extent(specs: Seq<VehicleSpec>, k: int, i: int)
    requires
        0 <= i < k <= specs.len(),
        forall|j: int| 0 <= j < specs.len() ==> legal_ends(#[trigger] specs[j]),
    ensures
        sane(extent_of(specs, k)),
        spans(extent_of(specs, k), specs[i].start),
        spans(extent_of(specs, k), specs[i].target),
    decreases k,
{
    let e = extent_of(specs, k - 1);
    let v = specs[k - 1];
    assert(legal_ends(v));
    if k > 1 {
        lemma_extent(specs, k - 1, if i < k - 1 {
            i
        } else {
            0
        });
    }
    lemma_extent_with(e, v.start);
    lemma_extent_with(e.with(v.start), v.target);
}

/// How wide the places lie apart, margin included, is a number of moderate size.
proof fn lemma_width(lo: Scalar, hi: Scalar)
    requires
        lo.finite() && hi.finite(),
        -units(180) <= lo.value() <= hi.value() <= units(180),
    ensures
        (hi - (lo - frac(15, 100))).finite(),
        0 <= (hi - (lo - frac(15, 100))).value() <= units(400),
{
    lemma_margin();
    lemma_scale();
    let from = lo - frac(15, 100);
    lemma_difference_close(lo, frac(15, 100));
    lemma_difference_close(hi, from);
}

/// A side that is as long as the places lie apart, and a margin more, ends beyond
/// all of them.
proof fn lemma_side(lo: Scalar, hi: Scalar, most: Scalar, x: Scalar)
    requires
        lo.finite() && hi.finite() && x.finite() && most.finite(),
        -units(180) <= lo.value() <= hi.value() <= units(180),
        lo.value() <= x.value() <= hi.value(),
        (hi - (lo - frac(15, 100))).value() <= most.value() <= units(400),
    ensures
        ({
            let from = lo - frac(15, 100);
            let span = most + whole(2) * frac(15, 100);
            from < x && x < from + span
        }),
{
    lemma_margin();
    lemma_scale();
    lemma_width(lo, hi);
    let pad = frac(15, 100);
    let twice = whole(2) * pad;
    let from = lo - pad;
    lemma_difference_close(lo, pad);
    lemma_difference_close(hi, from);
    let span = most + twice;
    lemma_sum_close(most, twice);
    lemma_sum_close(from, span);
}

/// Every start and every target lies inside the region that is searched, and none
/// of them on its edge.
pub proof fn law_places_inside_region(specs: Seq<VehicleSpec>, target: Geo, g: Geo)
    requires
        forall|j: int| 0 <= j < specs.len() ==> legal_ends(#[trigger] specs[j]),
        legal_coordinate(target.lon, target.lat),
        g == target || exists|j: int|
            0 <= j < specs.len() && (g == (#[trigger] specs[j]).start || g == specs[j].target),
    ensures
        ({
            let r = search_region(specs, target);
            &&& r.min_lon < g.lon && g.lon < r.min_lon + r.span_deg
            &&& r.min_lat < g.lat && g.lat < r.min_lat + r.span_deg
        }),
{
    let n = specs.len() as int;
    let before = extent_of(specs, n);
    let e = before.with(target);
    if g != target {
        let j = choose|j: int|
            0 <= j < specs.len() && (g == (#[trigger] specs[j]).start || g == specs[j].target);
        lemma_extent(specs, n, j);
    } else if n > 0 {
        lemma_extent(specs, n, 0);
    }
    lemma_extent_with(before, target);
    assert(spans(e, g));
    let pad = frac(15, 100);
    lemma_scale();
    let wide = e.max_lon - (e.min_lon - pad);
    let tall = e.max_lat - (e.min_lat - pad);
    lemma_width(e.min_lon, e.max_lon);
    lemma_width(e.min_lat, e.max_lat);
    let most = wide.larger(tall);
    lemma_side(e.min_lon, e.max_lon, most, g.lon);
    lemma_side(e.min_lat, e.max_lat, most, g.lat);
}

} // verus!
