//! The radius of a level turn.

use crate::exact::{about, far, least, lemma_least, num, part, size};
use crate::geometry::radians;
use crate::numeric::frac;
use crate::options::bank_radius;
use crate::oracle::{image, Calc};
use crate::plane::{lemma_sizes, lemma_square_sign};
use crate::ring::{
    lemma_bound, lemma_is, lemma_minus, lemma_product, lemma_quotient, lemma_turn, prod,
};
use crate::scalar::Scalar;
use crate::values::lemma_num_frac;
use vstd::prelude::*;

verus! {

/// The pull of the earth.
proof fn lemma_pull()
    ensures
        frac(981, 100).finite(),
        about(num(frac(981, 100)), 981real / 100real, 1real / 100000000000000real),
{
    lemma_least();
    lemma_num_frac(981, 100);
    let (f, t, l) = (num(frac(981, 100)), 100int as real, least());
    assert(t == 100real && 981int as real == 981real);
    let (ft, lt) = (f * t, l * t);
    assert(ft == 100real * f && lt == 100real * l) by (nonlinear_arith)
        requires
            ft == f * t,
            lt == l * t,
            t == 100real,
    ;
}

/// The pull along a bank.
proof fn lemma_pull_along(tan: Scalar)
    requires
        tan.finite() && 1real / 1000real <= num(tan) <= 100real,
    ensures
        (frac(981, 100) * tan).finite(),
        about(
            num(frac(981, 100) * tan),
            981real / 100real * num(tan),
            num(tan) / 50000000000000real,
        ),
{
    lemma_least();
    lemma_pull();
    let (f, t) = (num(frac(981, 100)), num(tan));
    let e = 1real / 100000000000000real;
    lemma_bound(t, f - 981real / 100real, t, e);
    lemma_turn(t, e);
    lemma_is(e, t);
    lemma_minus(t, f, 981real / 100real);
    lemma_turn(t, f);
    lemma_turn(t, 981real / 100real);
    lemma_is(981real / 100real, t);
    lemma_product(frac(981, 100), tan);
}

/// A part of a factor.
proof fn lemma_scaled(r: real, t: real)
    ensures
        prod(r, 981real / 100real * t) == 981real / 100real * prod(r, t),
        prod(r, t / 50000000000000real) == prod(r, t) / 50000000000000real,
{
    lemma_is(r, 981real / 100real * t);
    lemma_is(r, t);
    lemma_is(r, t / 50000000000000real);
    assert(r * (981real / 100real * t) == 981real / 100real * (r * t)) by (nonlinear_arith);
    assert(r * (t / 50000000000000real) == (r * t) / 50000000000000real) by (nonlinear_arith);
}

/// A level turn at a speed and a bank has the radius at which the pull to the side is that
/// of the bank: the radius times 9.81 times the tangent is the square of the speed, but
/// for a part in 10^10.
#[verifier::rlimit(50)]
pub proof fn law_radius_of_a_bank<C: Fn(Calc) -> Scalar>(calc: C, v: Scalar, bank_deg: Scalar)
    requires
        v.finite() && size(num(v)) <= 1000real,
        ({
            let tan = image(calc, Calc::Tan(radians(bank_deg)));
            tan.finite() && 1real / 1000real <= num(tan) <= 100real
        }),
    ensures
        bank_radius(calc, v, bank_deg).finite(),
        ({
            let t = num(image(calc, Calc::Tan(radians(bank_deg))));
            let r = num(bank_radius(calc, v, bank_deg));
            about(
                981real * prod(r, t),
                100real * prod(num(v), num(v)),
                prod(num(v), num(v)) / 10000000000real + 1real / 10000000000real,
            )
        }),
{
    lemma_least();
    let tan = image(calc, Calc::Tan(radians(bank_deg)));
    let t = num(tan);
    lemma_pull_along(tan);
    let g = num(frac(981, 100) * tan);
    lemma_bound(num(v), num(v), 1000real, 1000real);
    lemma_is(1000real, 1000real);
    lemma_square_sign(num(v));
    lemma_product(v, v);
    let small = 9real / 1000real;
    lemma_is(far(), small);
    lemma_quotient(v * v, frac(981, 100) * tan, small);
    let r = num(bank_radius(calc, v, bank_deg));
    // The pull as it is.
    let c = 981real / 100real * t;
    lemma_minus(r, c, g);
    lemma_scaled(r, t);
    lemma_bound(r, c - g, size(r), t / 50000000000000real);
    lemma_scaled(size(r), t);
    lemma_sizes(r, g);
    lemma_minus(size(r), g, t);
    crate::crossing::lemma_sign(size(r), g - t);
    crate::crossing::lemma_sign(size(r), t);
}

} // verus!
