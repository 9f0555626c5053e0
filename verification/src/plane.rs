//! Plane distances in kilometres are what they are called.

use crate::exact::{about, least, lemma_add, lemma_least, lemma_num, lemma_sub, num, part, size};
use crate::geometry::{hypotenuse, radians};
use crate::numeric::{frac, whole};
use crate::oracle::{image, Calc};
use crate::passage::flat_km;
use crate::ring::{lemma_bound, lemma_is, lemma_minus, lemma_plus, lemma_product, lemma_turn, prod};
use crate::scalar::Scalar;
use crate::values::{lemma_num_frac, lemma_root};
use vstd::prelude::*;

verus! {

/// A square is not negative.
pub proof fn lemma_square_sign(x: real)
    ensures
        prod(x, x) >= 0real,
        prod(x, x) == prod(size(x), size(x)),
{
    lemma_is(x, x);
    lemma_is(size(x), size(x));
    assert(x * x >= 0real) by (nonlinear_arith);
    assert(size(x) * size(x) == x * x) by (nonlinear_arith);
}

/// The square of a number that is nearly known.
#[verifier::rlimit(50)]
pub proof fn lemma_near_square(v: real, x: real)
    requires
        about(v, x, size(x) / 100000000000000real + 1real / 100000000000000000000real),
        size(x) <= 1000000real,
    ensures
        about(
            prod(v, v),
            prod(x, x),
            prod(x, x) / 20000000000000real + 1real / 1000000000000real,
        ),
{
    let d = v - x;
    let s = size(x);
    let e = s / 100000000000000real + 1real / 100000000000000000000real;
    lemma_square_sign(x);
    // v v == x x + x d + v d.
    lemma_minus(x, v, x);
    lemma_minus(v, v, x);
    lemma_turn(x, v);
    lemma_bound(x, d, s, e);
    lemma_bound(v, d, s + 1real / 1000real, e);
    let z = 1real / 100000000000000000000real;
    let g = s / 100000000000000real;
    lemma_plus(s, g, z);
    lemma_tenfold(s, s);
    lemma_is(s, z);
    lemma_turn(s, z);
    lemma_is(z, s);
    let f = 1real / 1000real;
    lemma_turn(s + f, e);
    lemma_plus(e, s, f);
    lemma_turn(e, s);
    lemma_is(e, f);
    lemma_is(f, e);
    lemma_turn(e, f);
    assert(prod(s, z) == s / 100000000000000000000real);
    assert(prod(e, f) == e / 1000real);
    // The remainder is small beside a square, or beside one.
    lemma_small_beside(s);
}

/// A part of a factor.
proof fn lemma_tenfold(s: real, t: real)
    ensures
        prod(s, t / 100000000000000real) == prod(s, t) / 100000000000000real,
{
    lemma_is(s, t / 100000000000000real);
    lemma_is(s, t);
    assert(s * (t / 100000000000000real) == (s * t) / 100000000000000real) by (nonlinear_arith);
}

/// A number is at most its square and one.
proof fn lemma_small_beside(s: real)
    ensures
        s <= prod(s, s) + 1real,
{
    lemma_is(s, s);
    assert(s <= s * s + 1real) by (nonlinear_arith);
}

/// A square of a double that is nearly known.
#[verifier::rlimit(50)]
pub proof fn lemma_square_near(x: Scalar, big: real)
    requires
        x.finite(),
        about(num(x), big, size(big) / 100000000000000real + 1real / 100000000000000000000real),
        size(big) <= 1000000real,
    ensures
        (x * x).finite(),
        num(x * x) >= 0real,
        about(
            num(x * x),
            prod(big, big),
            prod(big, big) / 10000000000000real + 1real / 500000000000real,
        ),
{
    lemma_least();
    lemma_near_square(num(x), big);
    lemma_square_sign(num(x));
    lemma_bound(big, big, 1000000real, 1000000real);
    lemma_is(1000000real, 1000000real);
    lemma_square_sign(big);
    lemma_product(x, x);
    crate::detection::lemma_square_not_negative(x);
    lemma_num(x * x);
}

/// The length of a vector whose sides are nearly known.
#[verifier::rlimit(50)]
pub proof fn lemma_hypotenuse(x: Scalar, y: Scalar, bx: real, by: real)
    requires
        x.finite() && y.finite(),
        about(num(x), bx, size(bx) / 100000000000000real + 1real / 100000000000000000000real),
        about(num(y), by, size(by) / 100000000000000real + 1real / 100000000000000000000real),
        size(bx) <= 1000000real && size(by) <= 1000000real,
    ensures
        hypotenuse(x, y).finite(),
        num(hypotenuse(x, y)) >= 0real,
        ({
            let (r, d) = (num(hypotenuse(x, y)), prod(bx, bx) + prod(by, by));
            about(prod(r, r), d, d / 1000000000000real + 1real / 50000000000real)
        }),
{
    lemma_least();
    lemma_square_near(x, bx);
    lemma_square_near(y, by);
    lemma_square_sign(bx);
    lemma_square_sign(by);
    lemma_bound(bx, bx, 1000000real, 1000000real);
    lemma_bound(by, by, 1000000real, 1000000real);
    lemma_is(1000000real, 1000000real);
    let s = x * x + y * y;
    lemma_add(x * x, y * y);
    let d = prod(bx, bx) + prod(by, by);
    let ss = num(s);
    assert(about(ss, d, d / 5000000000000real + 1real / 100000000000real));
    lemma_sum_sign(x, y);
    lemma_root(s);
    lemma_root_near(s.root(), ss);
    let r = num(s.root());
    assert(about(prod(r, r), ss, ss / 1000000000000000real + 1real / 1000000000000real));
}

proof fn lemma_sum_sign(x: Scalar, y: Scalar)
    requires
        (x * x).finite() && (y * y).finite(),
        (x * x + y * y).finite(),
        num(x * x) >= 0real && num(y * y) >= 0real,
    ensures
        num(x * x + y * y) >= 0real,
{
    lemma_num(x * x);
    lemma_num(y * y);
    crate::order::lemma_whole_zero();
    crate::detection::lemma_sums_in_order(whole(0), whole(0), x * x, y * y);
    crate::order::law_sum_not_below(whole(0), whole(0));
    lemma_num(x * x + y * y);
}

/// A root, by its square.
pub proof fn lemma_root_near(root: Scalar, a: real)
    requires
        num(root) >= 0real,
        0real <= a <= 10000000000000real,
        ({
            let r = num(root);
            let e = part() * r + least();
            about(r * r, a, r * e + e * e)
        }),
    ensures
        ({
            let r = num(root);
            about(prod(r, r), a, a / 1000000000000000real + 1real / 1000000000000real)
        }),
{
    lemma_least();
    let r = num(root);
    let e = part() * r + least();
    lemma_is(r, r);
    lemma_is(r, e);
    lemma_is(e, e);
    lemma_root_rest(r, e, a);
}

#[verifier::rlimit(50)]
proof fn lemma_root_rest(r: real, e: real, a: real)
    requires
        r >= 0real,
        0real <= a <= 10000000000000real,
        0real < least() <= 1real / 1267650600228229401496703205376real,
        e == part() * r + least(),
        about(prod(r, r), a, prod(r, e) + prod(e, e)),
    ensures
        about(prod(r, r), a, a / 1000000000000000real + 1real / 1000000000000real),
{
    let (p, l) = (part() * r, least());
    lemma_plus(r, p, l);
    lemma_plus(e, p, l);
    lemma_turn(e, p);
    lemma_plus(p, p, l);
    lemma_part(r, r);
    lemma_part(p, r);
    lemma_turn(p, r);
    lemma_square_sign(r);
    lemma_small_beside(r);
    lemma_bound(r, l, r, 1real / 1267650600228229401496703205376real);
    lemma_is(r, 1real / 1267650600228229401496703205376real);
    lemma_turn(r, 1real / 1267650600228229401496703205376real);
    lemma_is(1real / 1267650600228229401496703205376real, r);
    lemma_bound(e, l, e, 1real / 1267650600228229401496703205376real);
    lemma_turn(e, 1real / 1267650600228229401496703205376real);
    lemma_is(1real / 1267650600228229401496703205376real, e);
    lemma_bound(p, l, p, 1real / 1267650600228229401496703205376real);
    lemma_turn(p, 1real / 1267650600228229401496703205376real);
    lemma_is(1real / 1267650600228229401496703205376real, p);
}

/// A part of a factor.
pub proof fn lemma_part(s: real, t: real)
    ensures
        prod(s, part() * t) == part() * prod(s, t),
{
    lemma_is(s, part() * t);
    lemma_is(s, t);
    assert(s * (part() * t) == part() * (s * t)) by (nonlinear_arith);
}

/// Kilometres in a degree.
pub proof fn lemma_degree()
    ensures
        frac(11132, 100).finite(),
        about(num(frac(11132, 100)), 11132real / 100real, 1real / 20000000000000real),
{
    lemma_least();
    lemma_num_frac(11132, 100);
    let (f, h, l) = (num(frac(11132, 100)), 100int as real, least());
    assert(h == 100real && 11132int as real == 11132real);
    let (fh, lh) = (f * h, l * h);
    assert(fh == 100real * f && lh == 100real * l) by (nonlinear_arith)
        requires
            fh == f * h,
            lh == l * h,
            h == 100real,
    ;
}

/// Degrees in kilometres.
#[verifier::rlimit(50)]
proof fn lemma_in_km(p: Scalar, big: real)
    requires
        p.finite(),
        size(big) <= 1000real,
        about(num(p), big, 3real * (part() * size(big)) + 1real / 1000000000000000000000000000real),
    ensures
        (p * frac(11132, 100)).finite(),
        about(
            num(p * frac(11132, 100)),
            11132real / 100real * big,
            size(11132real / 100real * big) / 100000000000000real + 1real / 100000000000000000000real,
        ),
        size(11132real / 100real * big) <= 1000000real,
{
    lemma_least();
    lemma_degree();
    let (v, k) = (num(p), num(frac(11132, 100)));
    let c = 11132real / 100real;
    lemma_minus(v, k, c);
    let e = 1real / 20000000000000real;
    lemma_bound(v, k - c, size(v), e);
    lemma_turn(size(v), e);
    lemma_is(e, size(v));
    lemma_turn(v, c);
    lemma_is(c, v);
    assert(prod(size(v), e) == size(v) / 20000000000000real);
    assert(size(prod(v, k)) <= 200000real);
    lemma_product(p, frac(11132, 100));
}

/// A product of a difference that is nearly known.
#[verifier::rlimit(50)]
proof fn lemma_times_cosine(d: Scalar, c: Scalar, big: real)
    requires
        d.finite() && c.finite(),
        size(num(c)) <= 1real,
        size(big) <= 1000real,
        about(num(d), big, part() * size(big) + least()),
    ensures
        (d * c).finite(),
        size(prod(big, num(c))) <= 1000real,
        about(
            num(d * c),
            prod(big, num(c)),
            3real * (part() * size(prod(big, num(c)))) + 1real / 1000000000000000000000000000real,
        ),
{
    lemma_least();
    let (v, k) = (num(d), num(c));
    let off = v - big;
    lemma_bound(big, k, 1000real, 1real);
    lemma_is(1000real, 1real);
    let (sk, sb) = (size(k), size(big));
    lemma_bound(k, off, sk, part() * sb + least());
    lemma_plus(sk, part() * sb, least());
    lemma_part(sk, sb);
    lemma_sizes(k, big);
    lemma_bound(sk, least(), 1real, least());
    lemma_is(1real, least());
    lemma_minus(k, v, big);
    lemma_turn(k, v);
    lemma_turn(k, big);
    lemma_product(d, c);
}

/// The size of a product is the product of the sizes.
pub proof fn lemma_sizes(x: real, y: real)
    ensures
        prod(size(x), size(y)) == size(prod(x, y)),
{
    lemma_is(x, y);
    lemma_is(size(x), size(y));
    assert(size(x) * size(y) == size(x * y)) by (nonlinear_arith);
}

/// Whether a number is one of degrees.
pub open spec fn in_degrees(x: Scalar) -> bool {
    x.finite() && size(num(x)) <= 400real
}

/// The plane distance of two places in kilometres: 111.32 km for each degree, longitudes
/// shortened by the cosine; by its square, but for a part in 10^12.
#[verifier::rlimit(50)]
pub proof fn law_flat_distance<C: Fn(Calc) -> Scalar>(
    calc: C,
    lon1: Scalar,
    lat1: Scalar,
    lon2: Scalar,
    lat2: Scalar,
)
    requires
        in_degrees(lon1) && in_degrees(lat1) && in_degrees(lon2) && in_degrees(lat2),
        ({
            let c = image(calc, Calc::Cos(radians((lat1 + lat2) / whole(2))));
            c.finite() && size(num(c)) <= 1real
        }),
    ensures
        ({
            let c = num(image(calc, Calc::Cos(radians((lat1 + lat2) / whole(2)))));
            let r = num(flat_km(calc, lon1, lat1, lon2, lat2));
            let x = 11132real / 100real * prod(num(lon2) - num(lon1), c);
            let y = 11132real / 100real * (num(lat2) - num(lat1));
            let d = prod(x, x) + prod(y, y);
            &&& flat_km(calc, lon1, lat1, lon2, lat2).finite()
            &&& r >= 0real
            &&& about(prod(r, r), d, d / 1000000000000real + 1real / 50000000000real)
        }),
{
    lemma_least();
    let c = image(calc, Calc::Cos(radians((lat1 + lat2) / whole(2))));
    let k = frac(11132, 100);
    lemma_sub(lon2, lon1);
    lemma_sub(lat2, lat1);
    let (dx, dy) = (num(lon2) - num(lon1), num(lat2) - num(lat1));
    lemma_times_cosine(lon2 - lon1, c, dx);
    lemma_in_km((lon2 - lon1) * c, prod(dx, num(c)));
    lemma_in_km(lat2 - lat1, dy);
    lemma_hypotenuse(
        (lon2 - lon1) * c * k,
        (lat2 - lat1) * k,
        11132real / 100real * prod(dx, num(c)),
        11132real / 100real * dy,
    );
}

} // verus!
