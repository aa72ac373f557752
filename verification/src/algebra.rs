//! The field and order rules of the mathematical numbers that proofs cite by name.

use vstd::prelude::*;

verus! {

pub proof fn lemma_comm(a: real, b: real)
    ensures
        a * b == b * a,
{
}

pub proof fn lemma_zero(a: real)
    by (nonlinear_arith)
    ensures
        a * 0real == 0real,
        0real * a == 0real,
{
}

pub proof fn lemma_one(a: real)
    by (nonlinear_arith)
    ensures
        a * 1real == a,
        1real * a == a,
        a * (-1real) == -a,
        (-1real) * a == -a,
{
}

pub proof fn lemma_assoc(a: real, b: real, c: real)
    by (nonlinear_arith)
    ensures
        (a * b) * c == a * (b * c),
{
}

pub proof fn lemma_spread(a: real, b: real, c: real)
    by (nonlinear_arith)
    ensures
        a * (b + c) == a * b + a * c,
{
}

pub proof fn lemma_spread_sub(a: real, b: real, c: real)
    by (nonlinear_arith)
    ensures
        a * (b - c) == a * b - a * c,
{
}

pub proof fn lemma_spread_scaled(t: real, p: real, a: real, q: real)
    by (nonlinear_arith)
    ensures
        t * (p + a * q) == t * p + a * (t * q),
{
}

pub proof fn lemma_negate(a: real, b: real)
    by (nonlinear_arith)
    ensures
        (-a) * b == -(a * b),
{
}

/// Four factors, the middle two exchanged.
pub proof fn lemma_regroup(a: real, b: real, c: real, d: real)
    by (nonlinear_arith)
    ensures
        (a * b) * (c * d) == (a * c) * (b * d),
{
}

pub proof fn lemma_inverse(x: real)
    by (nonlinear_arith)
    requires
        x != 0real,
    ensures
        (1real / x) * x == 1real,
{
}

/// Division is multiplication by the inverse.
pub proof fn lemma_over(y: real, x: real)
    by (nonlinear_arith)
    requires
        x != 0real,
    ensures
        y / x == (1real / x) * y,
{
}

pub proof fn lemma_square(x: real)
    by (nonlinear_arith)
    ensures
        x * x >= 0real,
{
}

pub proof fn lemma_no_divisors(x: real, y: real)
    by (nonlinear_arith)
    requires
        x * y == 0real,
    ensures
        x == 0real || y == 0real,
{
}

pub proof fn lemma_positive(x: real, y: real)
    by (nonlinear_arith)
    requires
        x > 0real,
        y > 0real,
    ensures
        x * y > 0real,
{
}

pub proof fn lemma_not_negative(x: real, y: real)
    by (nonlinear_arith)
    requires
        x >= 0real,
        y >= 0real,
    ensures
        x * y >= 0real,
{
}

/// A quotient undoes a product.
pub proof fn lemma_over_times(y: real, x: real)
    by (nonlinear_arith)
    requires
        x != 0real,
    ensures
        (y / x) * x == y,
{
}

/// Products with a common factor that is not 0.
pub proof fn lemma_cancel(x: real, y: real, z: real)
    requires
        x != 0real,
        x * y == x * z,
    ensures
        y == z,
{
    lemma_spread_sub(x, y, z);
    lemma_no_divisors(x, y - z);
}

} // verus!
