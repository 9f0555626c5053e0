//! Products of real numbers, step by step.

use crate::exact::{about, far, least, lemma_div, lemma_mul, num, part, size};
use crate::scalar::Scalar;
use crate::spacing::lemma_size_product;
use vstd::prelude::*;

verus! {

/// The product of two real numbers.
#[verifier::opaque]
pub open spec fn prod(x: real, y: real) -> real {
    x * y
}

pub proof fn lemma_is(x: real, y: real)
    ensures
        prod(x, y) == x * y,
{
    reveal(prod);
}

pub proof fn lemma_minus(a: real, x: real, y: real)
    ensures
        prod(a, x - y) == prod(a, x) - prod(a, y),
{
    reveal(prod);
    assert(a * (x - y) == a * x - a * y) by (nonlinear_arith);
}

pub proof fn lemma_plus(a: real, x: real, y: real)
    ensures
        prod(a, x + y) == prod(a, x) + prod(a, y),
{
    reveal(prod);
    assert(a * (x + y) == a * x + a * y) by (nonlinear_arith);
}

pub proof fn lemma_turn(a: real, x: real)
    ensures
        prod(a, x) == prod(x, a),
{
    reveal(prod);
    assert(a * x == x * a) by (nonlinear_arith);
}

pub proof fn lemma_swap(a: real, b: real, c: real)
    ensures
        prod(a, prod(b, c)) == prod(b, prod(a, c)),
{
    reveal(prod);
    assert(a * (b * c) == b * (a * c)) by (nonlinear_arith);
}

/// The size of a product.
pub proof fn lemma_bound(x: real, y: real, a: real, b: real)
    requires
        size(x) <= a,
        size(y) <= b,
    ensures
        size(prod(x, y)) <= prod(a, b),
{
    reveal(prod);
    lemma_size_product(x, y, a, b);
}

/// A product of two doubles.
pub proof fn lemma_product(a: Scalar, b: Scalar)
    requires
        a.finite() && b.finite(),
        size(prod(num(a), num(b))) <= far(),
    ensures
        (a * b).finite(),
        about(
            num(a * b),
            prod(num(a), num(b)),
            part() * size(prod(num(a), num(b))) + least(),
        ),
{
    reveal(prod);
    lemma_mul(a, b);
}

/// A quotient of two doubles, by what it is times the divisor.
pub proof fn lemma_quotient(a: Scalar, b: Scalar, small: real)
    requires
        a.finite() && b.finite(),
        0real < small <= size(num(b)) <= 1000000real,
        size(num(a)) <= prod(far(), small),
    ensures
        (a / b).finite(),
        about(
            prod(num(a / b), num(b)),
            num(a),
            part() * size(num(a)) + 1000000real * least(),
        ),
{
    reveal(prod);
    let d = size(num(b));
    assert(far() * small <= far() * d);
    crate::exact::lemma_least();
    lemma_div(a, b);
    assert(least() * d <= least() * 1000000real) by (nonlinear_arith)
        requires
            0real < least(),
            d <= 1000000real,
    ;
}

} // verus!
