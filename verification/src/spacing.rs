//! How closely legs are sampled, and where the samples lie.

use crate::curves::between;
use crate::ends::lemma_absolute_value;
use crate::exact::{
    about, least, lemma_add, lemma_div, lemma_least, lemma_mul, lemma_num, lemma_sub, num, part,
    size,
};
use crate::numeric::whole;
use crate::options::SmoothOptions;
use crate::oracle::{image, Calc};
use crate::path::{sphere_distance_m, PathPoint};
use crate::rounding::{lemma_nearest_exists, nearest};
use crate::scalar::{magnitude_value, Scalar};
use crate::segment::ground_pieces;
use crate::task::line_pieces;
use crate::terrain::Sample;
use crate::values::lemma_num_whole;
use crate::verify::{law_accepted_route_is_safe, leg_pieces, route_findings, VerifyContext};
use vstd::arithmetic::div_mod::lemma_fundamental_div_mod;
use vstd::arithmetic::power2::{lemma_pow2_pos, pow2};
use vstd::prelude::*;

verus! {

/// A quotient of numbers without a sign has none.
pub proof fn lemma_no_sign(a: Scalar, b: Scalar)
    requires
        a.finite() && b.finite(),
        !a.negative() && !b.negative(),
        b.value() > 0,
    ensures
        !(a / b).negative(),
{
    reveal(Scalar::over);
    lemma_absolute_value(a);
    lemma_absolute_value(b);
    assert(magnitude_value(0) == 0);
    lemma_pow2_pos(1074);
    let n = crate::arith::absolute(a.value()) * pow2(1074);
    assert(n >= 0) by (nonlinear_arith)
        requires
            n == crate::arith::absolute(a.value()) * pow2(1074),
            crate::arith::absolute(a.value()) >= 0,
            pow2(1074) > 0,
    ;
    lemma_nearest_exists(n, crate::arith::absolute(b.value()));
}

/// The whole number that is not below a number.
pub proof fn lemma_ceiling(x: Scalar)
    requires
        x.finite(),
        num(x) >= 0real,
    ensures
        num(x) <= x.ceil_value() as real,
        x.ceil_value() as real - 1real < num(x),
        x.ceil_value() >= 0,
{
    lemma_num(x);
    lemma_least();
    lemma_pow2_pos(1074);
    let (v, u, c) = (x.value(), pow2(1074) as int, x.ceil_value());
    lemma_fundamental_div_mod(-v, u);
    let q = (-v) / u;
    assert(c * u >= v && v > (c - 1) * u) by (nonlinear_arith)
        requires
            c == -q,
            -v == u * q + (-v) % u,
            0 <= (-v) % u < u,
    ;
    assert(c >= 0) by (nonlinear_arith)
        requires
            c * u >= v,
            v >= 0,
            u > 0,
    ;
    crate::exact::lemma_whole_product(c, u);
    crate::exact::lemma_whole_product(c - 1, u);
    let (xn, ur, cr) = (num(x), u as real, c as real);
    assert((c - 1) as real == cr - 1real);
    assert(xn <= cr && cr - 1real < xn) by (nonlinear_arith)
        requires
            xn * ur <= cr * ur,
            (cr - 1real) * ur < xn * ur,
            ur > 0real,
    ;
}

/// A length in pieces.
#[verifier::rlimit(50)]
pub proof fn lemma_pieces(length_m: Scalar, k: int)
    requires
        length_m.finite(),
        0real <= num(length_m) <= 1000000000000000real,
        k == 200 || k == 1000,
    ensures
        ({
            let x = length_m / whole(k);
            let c = x.ceil_value();
            let kr = k as real;
            &&& x.finite()
            &&& num(length_m) > 0real ==> !x.negative()
            &&& num(length_m) == 0real ==> x.negative() || c == 0
            &&& 0 <= c < 0x10_0000_0000_0000
            &&& num(length_m) <= (c as real) * kr + num(length_m) * part() + 1real / 1000000000real
            &&& (c as real - 1real) * kr <= num(length_m) + num(length_m) * part() + 1real
                / 1000000000real
        }),
{
    lemma_num_whole(k);
    lemma_least();
    lemma_num(length_m);
    lemma_div(length_m, whole(k));
    let x = length_m / whole(k);
    let (l, q, kr, c) = (num(length_m), num(x), k as real, x.ceil_value());
    lemma_num(whole(k));
    lemma_absolute_value(length_m);
    if l > 0real {
        lemma_no_sign(length_m, whole(k));
    }
    lemma_num(x);
    lemma_absolute_value(x);
    assert(least() * kr <= 1real / 1000000000000real) by (nonlinear_arith)
        requires
            least() <= 1real / 1267650600228229401496703205376real,
            0real < kr <= 1000real,
    ;
    lemma_zero_length(length_m, k);
    if q >= 0real {
        lemma_ceiling(x);
        let cr = c as real;
        assert(q * kr <= cr * kr && (cr - 1real) * kr <= q * kr) by (nonlinear_arith)
            requires
                q <= cr,
                cr - 1real <= q,
                kr > 0real,
        ;
    }
}

/// No length has no pieces.
proof fn lemma_zero_length(length_m: Scalar, k: int)
    requires
        length_m.finite(),
        k == 200 || k == 1000,
    ensures
        length_m.value() == 0 ==> (length_m / whole(k)).value() == 0,
        (length_m / whole(k)).value() == 0 ==> (length_m / whole(k)).ceil_value() == 0,
{
    lemma_num_whole(k);
    lemma_num(whole(k));
    lemma_pow2_pos(1074);
    reveal(Scalar::over);
    lemma_absolute_value(length_m);
    lemma_absolute_value(whole(k));
    assert(magnitude_value(0) == 0);
    let u = pow2(1074) as int;
    assert((-0int) / u == 0) by (nonlinear_arith)
        requires
            u > 0,
    ;
    if length_m.value() == 0 {
        assert(crate::arith::absolute(length_m.value()) * pow2(1074) == 0) by (nonlinear_arith)
            requires
                crate::arith::absolute(length_m.value()) == 0,
        ;
        let d = crate::arith::absolute(whole(k).value());
        assert(0 * d == 0);
        crate::cell::lemma_at_most(0, d, 0);
        lemma_nearest_exists(0, d);
        crate::ends::lemma_signed_value(
            length_m / whole(k),
            length_m.negative() != whole(k).negative(),
            nearest(0, d),
        );
    }
}

/// The samples at which a leg is verified are at most 200 metres apart, but for a
/// micrometre; there are at least two pieces and as many as asked for, and not one more
/// than that takes.
pub proof fn law_leg_is_sampled_closely(length_m: Scalar, opts: SmoothOptions)
    requires
        length_m.finite(),
        0real <= num(length_m) <= 1000000000000000real,
    ensures
        ({
            let n = leg_pieces(length_m, opts);
            let asked = if opts.verify_seg_samples < 2 {
                2int
            } else {
                opts.verify_seg_samples as int
            };
            &&& n >= asked
            &&& 1000000real * num(length_m) <= 200000001real * (n as real)
            &&& n == asked || 199999999real * (n as real - 1real) <= 1000000real * num(length_m)
        }),
{
    lemma_pieces(length_m, 200);
    let x = length_m / whole(200);
    let c = x.ceil_value();
    assert(x.finite() && !x.nan() && !x.infinite());
    assert(num(length_m) > 0real || x.negative() || c == 0);
}

/// A leg is sampled over the ground at most every 200 metres, but for a micrometre, or at
/// the largest number of samples.
pub proof fn law_ground_is_sampled_closely(length_m: Scalar)
    requires
        length_m.finite(),
        0real <= num(length_m) <= 1000000000000000real,
    ensures
        ({
            let n = ground_pieces(length_m);
            &&& 2 <= n <= 1024
            &&& n == 1024 || 1000000real * num(length_m) <= 200000001real * (n as real)
            &&& n == 2 || 199999999real * (n as real - 1real) <= 1000000real * num(length_m)
        }),
{
    lemma_pieces(length_m, 200);
    let x = length_m / whole(200);
    assert(x.finite() && !x.nan() && !x.infinite());
}

/// A line is sampled for its highest ground at least every kilometre, but for a
/// micrometre.
pub proof fn law_line_is_sampled_closely(length_m: Scalar)
    requires
        length_m.finite(),
        0real <= num(length_m) <= 1000000000000000real,
    ensures
        ({
            let n = line_pieces(length_m);
            &&& n >= 2
            &&& 1000000real * num(length_m) <= 1000000001real * (n as real)
            &&& n == 2 || 999999999real * (n as real - 1real) <= 1000000real * num(length_m)
        }),
{
    lemma_pieces(length_m, 1000);
    let x = length_m / whole(1000);
    assert(x.finite() && !x.nan() && !x.infinite());
}

/// A number that is not too large for a coordinate or a height.
pub open spec fn moderate(x: Scalar) -> bool {
    x.finite() && size(num(x)) <= 1000000real
}

/// A number at a share of the way between two others.
#[verifier::rlimit(50)]
pub proof fn lemma_share(a: Scalar, b: Scalar, k: int, n: int)
    requires
        moderate(a) && moderate(b),
        0 <= k <= n,
        1 <= n < 0x10_0000_0000_0000,
    ensures
        ({
            let s = a + (b - a) * (whole(k) / whole(n));
            &&& s.finite()
            &&& about(
                num(s) * (n as real),
                num(a) * ((n - k) as real) + num(b) * (k as real),
                (n as real) / 100000000real,
            )
        }),
{
    lemma_least();
    lemma_num_whole(k);
    lemma_num_whole(n);
    let t = whole(k) / whole(n);
    let (kr, nr) = (k as real, n as real);
    lemma_div(whole(k), whole(n));
    let (tr, x, y) = (num(t), num(a), num(b));
    let share = kr / nr;
    assert(share * nr == kr) by (nonlinear_arith)
        requires
            share == kr / nr,
            nr > 0real,
    ;
    assert(0real <= share <= 1real) by (nonlinear_arith)
        requires
            share * nr == kr,
            0real <= kr <= nr,
            nr > 0real,
    ;
    let e = tr - share;
    assert(size(e) <= part() + least()) by (nonlinear_arith)
        requires
            -(part() * kr + least() * nr) <= tr * nr - share * nr <= part() * kr + least() * nr,
            e == tr - share,
            kr <= nr,
            nr > 0real,
            least() > 0real,
    ;
    lemma_sub(b, a);
    let d = num(b - a);
    assert(size(d) <= 2000001real);
    let (dt, ds, de) = (d * tr, d * share, d * e);
    assert(dt == ds + de) by (nonlinear_arith)
        requires
            dt == d * tr,
            ds == d * share,
            de == d * e,
            e == tr - share,
    ;
    lemma_size_product(d, e, 2000001real, 1real / 4000000000000000real);
    lemma_size_product(d, share, 2000001real, 1real);
    lemma_mul(b - a, t);
    let m = num((b - a) * t);
    lemma_add(a, (b - a) * t);
    let s = num(a + (b - a) * t);
    let f = d - (y - x);
    lemma_size_product(f, share, 1real / 1000000000real, 1real);
    let fs = f * share;
    let ys = (y - x) * share;
    assert(ds == ys + fs) by (nonlinear_arith)
        requires
            ds == d * share,
            ys == (y - x) * share,
            fs == f * share,
            f == d - (y - x),
    ;
    let off = s - x - ys;
    assert(size(off) <= 1real / 100000000real);
    let mid = x * ((n - k) as real) + y * kr;
    assert((n - k) as real == nr - kr);
    assert(mid == (x + ys) * nr) by (nonlinear_arith)
        requires
            mid == x * (nr - kr) + y * kr,
            ys == (y - x) * share,
            share * nr == kr,
    ;
    assert(s * nr - mid == off * nr) by (nonlinear_arith)
        requires
            mid == (x + ys) * nr,
            off == s - x - ys,
    ;
    let h = nr / 100000000real;
    assert(-h <= off * nr && off * nr <= h) by (nonlinear_arith)
        requires
            h == nr / 100000000real,
            -1real / 100000000real <= off <= 1real / 100000000real,
            nr > 0real,
    ;
}

/// The size of a product.
pub proof fn lemma_size_product(x: real, y: real, a: real, b: real)
    requires
        size(x) <= a,
        size(y) <= b,
    ensures
        size(x * y) <= a * b,
{
    let (sx, sy) = (size(x), size(y));
    assert(sx * sy <= a * b) by (nonlinear_arith)
        requires
            0real <= sx <= a,
            0real <= sy <= b,
    ;
    assert(size(x * y) == sx * sy) by (nonlinear_arith)
        requires
            sx == size(x),
            sy == size(y),
    ;
}

/// Whether a point lies at the share `k` of `n` of the way from `a` to `b`, but for 1e-8
/// in each coordinate and in height.
pub open spec fn at_share(p: PathPoint, a: PathPoint, b: PathPoint, k: int, n: int) -> bool {
    &&& shares(p.lon, a.lon, b.lon, k, n)
    &&& shares(p.lat, a.lat, b.lat, k, n)
    &&& shares(p.alt_m, a.alt_m, b.alt_m, k, n)
}

pub open spec fn shares(s: Scalar, a: Scalar, b: Scalar, k: int, n: int) -> bool {
    s.finite() && about(
        num(s) * (n as real),
        num(a) * ((n - k) as real) + num(b) * (k as real),
        (n as real) / 100000000real,
    )
}

/// Whether the coordinates and the height of a point are not too large.
pub open spec fn moderate_point(p: PathPoint) -> bool {
    moderate(p.lon) && moderate(p.lat) && moderate(p.alt_m)
}

/// The samples of a leg lie on it, evenly from one end to the other.
pub proof fn law_samples_lie_on_leg(a: PathPoint, b: PathPoint, k: int, n: int)
    requires
        moderate_point(a) && moderate_point(b),
        0 <= k <= n,
        1 <= n < 0x10_0000_0000_0000,
    ensures
        at_share(between(a, b, whole(k) / whole(n)), a, b, k, n),
{
    lemma_share(a.lon, b.lon, k, n);
    lemma_share(a.lat, b.lat, k, n);
    lemma_share(a.alt_m, b.alt_m, k, n);
}

/// Whether there is a point at a share of a leg that is high enough over the ground, as
/// far as that is known.
pub open spec fn clears_ground<T: Fn((Scalar, Scalar)) -> Sample>(
    terrain: T,
    clearance_m: Scalar,
    a: PathPoint,
    b: PathPoint,
    k: int,
    n: int,
) -> bool {
    exists|p: PathPoint| #[trigger]
        at_share(p, a, b, k, n) && match image(terrain, (p.lon, p.lat)) {
            Sample::Land(h) => !(p.alt_m < h + clearance_m),
            Sample::Water | Sample::Lake(_) => !(p.alt_m < clearance_m),
            Sample::Forbidden => false,
            Sample::NoData | Sample::OutOfBounds => true,
        }
}

/// A route that is accepted is high enough over the ground at evenly spaced points of
/// each leg that are at most 200 metres apart, but for a micrometre.
pub proof fn law_accepted_route_clears_ground_closely<
    C: Fn(Calc) -> Scalar,
    T: Fn((Scalar, Scalar)) -> Sample,
    N: Fn((Scalar, Scalar)) -> bool,
>(
    calc: C,
    ctx: VerifyContext<T, N>,
    opts: SmoothOptions,
    pts: Seq<PathPoint>,
    reference: Option<Seq<PathPoint>>,
    phys_min_radius_m: Option<Scalar>,
    i: int,
) -> (n: int)
    requires
        route_findings(calc, ctx, opts, pts, reference, phys_min_radius_m).issues.len() == 0,
        1 <= i < pts.len(),
        ctx.terrain is Some,
        moderate_point(pts[i - 1]) && moderate_point(pts[i]),
        ({
            let (a, b) = (pts[i - 1], pts[i]);
            let length = sphere_distance_m(calc, a.lon, a.lat, b.lon, b.lat);
            length.finite() && 0real <= num(length) <= 1000000000000000real
        }),
        opts.verify_seg_samples < 0x10_0000_0000_0000,
    ensures
        n >= 2,
        ({
            let (a, b) = (pts[i - 1], pts[i]);
            let length = sphere_distance_m(calc, a.lon, a.lat, b.lon, b.lat);
            &&& 1000000real * num(length) <= 200000001real * (n as real)
            &&& forall|k: int|
                0 <= k <= n ==> #[trigger] clears_ground(
                    *ctx.terrain->0,
                    opts.clearance_m,
                    a,
                    b,
                    k,
                    n,
                )
        }),
{
    let (a, b) = (pts[i - 1], pts[i]);
    let length = sphere_distance_m(calc, a.lon, a.lat, b.lon, b.lat);
    law_leg_is_sampled_closely(length, opts);
    lemma_pieces(length, 200);
    let n = leg_pieces(length, opts);
    assert forall|k: int| 0 <= k <= n implies #[trigger] clears_ground(
        *ctx.terrain->0,
        opts.clearance_m,
        a,
        b,
        k,
        n,
    ) by {
        let p = between(a, b, whole(k) / whole(n));
        law_samples_lie_on_leg(a, b, k, n);
        law_accepted_route_is_safe(calc, ctx, opts, pts, reference, phys_min_radius_m, i, k);
        assert(at_share(p, a, b, k, n));
    }
    n
}

} // verus!
