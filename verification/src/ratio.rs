//! Numbers that agree up to a factor.
//!
//! A rounded product, quotient or root agrees with the exact one up to a factor close to 1, and so
//! does a rounded sum of two numbers of one sign. The factors of the operations of a computation
//! multiply.

use crate::algebra::{
    lemma_assoc, lemma_comm, lemma_inverse, lemma_negate, lemma_not_negative, lemma_one, lemma_over,
    lemma_positive, lemma_regroup, lemma_spread, lemma_spread_sub, lemma_zero,
};
use crate::error_laws::{abs, lemma_abs_times, lemma_times_order, power, within};
use crate::exact::lemma_root;
use crate::scalar::{roots_exist, Number};
use crate::sweep_laws::lemma_squares_strict;
use vstd::prelude::*;

verus! {

/// `x` and `y` have one sign, and neither is larger than `w` times the other.
pub open spec fn agree(x: real, y: real, w: real) -> bool {
    &&& (x > 0real) == (y > 0real)
    &&& (x < 0real) == (y < 0real)
    &&& abs(x) <= w * abs(y)
    &&& abs(y) <= w * abs(x)
}

/// A number agrees with itself.
pub proof fn lemma_agree_self(x: real, w: real)
    requires
        w >= 1real,
    ensures
        agree(x, x, w),
{
    lemma_comm(w, abs(x));
    lemma_times_order(abs(x), 1real, w);
    lemma_one(abs(x));
}

/// A number with a small relative error agrees.
pub proof fn lemma_agree_within(x: real, y: real, eps: real, b: real)
    requires
        0real <= eps < 1real,
        b >= 1real,
        (1real - eps) * b >= 1real,
        within(x, y, eps * abs(y)),
    ensures
        agree(x, y, b),
{
    let a = abs(y);
    let ea = eps * a;
    lemma_comm(eps, a);
    lemma_times_order(a, eps, 1real);
    lemma_one(a);
    if a > 0real {
        lemma_positive(a, 1real - eps);
        lemma_spread_sub(a, 1real, eps);
    } else {
        lemma_zero(eps);
    }
    // (1 - eps) |y| <= |x| <= (1 + eps) |y|
    let lo = 1real - eps;
    lemma_comm(lo, a);
    lemma_spread_sub(a, 1real, eps);
    assert(lo * a <= abs(x));
    // |y| <= b (1 - eps) |y| <= b |x|
    lemma_times_order(b, lo * a, abs(x));
    lemma_assoc(b, lo, a);
    lemma_comm(b, lo);
    lemma_comm(lo * b, a);
    lemma_times_order(a, 1real, lo * b);
    // 1 + eps <= b, since (1 + eps) (1 - eps) <= 1 <= b (1 - eps)
    assert(1real + eps <= b) by {
        if 1real + eps > b {
            lemma_positive(lo, 1real + eps - b);
            lemma_spread_sub(lo, 1real + eps, b);
            lemma_spread(lo, 1real, eps);
            lemma_one(lo);
            lemma_comm(lo, eps);
            lemma_spread_sub(eps, 1real, eps);
            lemma_one(eps);
            lemma_not_negative(eps, eps);
        }
    }
    lemma_comm(b, a);
    lemma_times_order(a, 1real + eps, b);
    lemma_spread(a, 1real, eps);
}

/// Agreement up to a larger factor.
pub proof fn lemma_agree_more(x: real, y: real, w: real, w2: real)
    requires
        agree(x, y, w),
        w <= w2,
    ensures
        agree(x, y, w2),
{
    lemma_comm(w, abs(y));
    lemma_comm(w2, abs(y));
    lemma_times_order(abs(y), w, w2);
    lemma_comm(w, abs(x));
    lemma_comm(w2, abs(x));
    lemma_times_order(abs(x), w, w2);
}

/// Agreement passes on.
pub proof fn lemma_agree_on(x: real, y: real, z: real, v: real, w: real)
    requires
        v >= 0real,
        w >= 0real,
        agree(x, y, v),
        agree(y, z, w),
    ensures
        agree(x, z, v * w),
{
    lemma_times_order(v, abs(y), w * abs(z));
    lemma_assoc(v, w, abs(z));
    lemma_times_order(w, abs(y), v * abs(x));
    lemma_assoc(w, v, abs(x));
    lemma_comm(v, w);
}

/// Products of numbers that agree agree.
pub proof fn lemma_agree_times(x: real, y: real, v: real, p: real, q: real, w: real)
    requires
        v >= 0real,
        w >= 0real,
        agree(x, y, v),
        agree(p, q, w),
    ensures
        agree(x * p, y * q, v * w),
{
    lemma_abs_times(x, p);
    lemma_abs_times(y, q);
    let (ax, ay, ap, aq) = (abs(x), abs(y), abs(p), abs(q));
    // |x| |p| <= (v |y|) (w |q|)
    lemma_times_order(ax, ap, w * aq);
    lemma_not_negative(w, aq);
    lemma_comm(ax, w * aq);
    lemma_comm(v * ay, w * aq);
    lemma_times_order(w * aq, ax, v * ay);
    lemma_regroup(v, ay, w, aq);
    lemma_times_order(ay, aq, w * ap);
    lemma_not_negative(w, ap);
    lemma_comm(ay, w * ap);
    lemma_comm(v * ax, w * ap);
    lemma_times_order(w * ap, ay, v * ax);
    lemma_regroup(v, ax, w, ap);
    lemma_sign_times(x, p);
    lemma_sign_times(y, q);
}

/// The sign of a product.
pub proof fn lemma_sign_times(x: real, y: real)
    ensures
        (x * y > 0real) == ((x > 0real && y > 0real) || (x < 0real && y < 0real)),
        (x * y < 0real) == ((x > 0real && y < 0real) || (x < 0real && y > 0real)),
{
    lemma_negate(x, y);
    lemma_negate(x, -y);
    lemma_negate(y, x);
    lemma_comm(x, y);
    lemma_comm(x, -y);
    lemma_zero(x);
    lemma_zero(y);
    if x > 0real && y > 0real {
        lemma_positive(x, y);
    } else if x > 0real && y < 0real {
        lemma_positive(x, -y);
    } else if x < 0real && y > 0real {
        lemma_positive(-x, y);
    } else if x < 0real && y < 0real {
        lemma_positive(-x, -y);
    }
}

/// Inverses of numbers that agree agree.
pub proof fn lemma_agree_inverse(x: real, y: real, w: real)
    requires
        w >= 0real,
        y != 0real,
        agree(x, y, w),
    ensures
        agree(1real / x, 1real / y, w),
{
    let (i, j) = (1real / x, 1real / y);
    lemma_inverse(x);
    lemma_inverse(y);
    lemma_abs_times(i, x);
    lemma_abs_times(j, y);
    let (ai, aj, ax, ay) = (abs(i), abs(j), abs(x), abs(y));
    assert(ai * ax == 1real && aj * ay == 1real);
    // |i| = |i| |j| |y| <= |i| |j| w |x| = w |j|
    lemma_not_negative(ai, aj);
    let ij = ai * aj;
    lemma_times_order(ij, ay, w * ax);
    lemma_assoc(ai, aj, ay);
    lemma_one(ai);
    lemma_assoc(ij, w, ax);
    lemma_comm(ij, w);
    lemma_assoc(w, ij, ax);
    lemma_comm(ai, aj);
    lemma_assoc(aj, ai, ax);
    lemma_one(aj);
    assert(ai <= w * aj);
    lemma_times_order(ij, ax, w * ay);
    lemma_assoc(ij, w, ay);
    lemma_assoc(w, ij, ay);
    assert(aj <= w * ai);
    lemma_sign_times(i, x);
    lemma_sign_times(j, y);
}

/// Quotients of numbers that agree agree.
pub proof fn lemma_agree_over(x: real, y: real, v: real, p: real, q: real, w: real)
    requires
        v >= 0real,
        w >= 0real,
        q != 0real,
        agree(x, y, v),
        agree(p, q, w),
    ensures
        agree(x / p, y / q, v * w),
{
    lemma_agree_inverse(p, q, w);
    lemma_agree_times(x, y, v, 1real / p, 1real / q, w);
    lemma_over(x, p);
    lemma_over(y, q);
    lemma_comm(1real / p, x);
    lemma_comm(1real / q, y);
}

pub proof fn lemma_agree_negated(x: real, y: real, w: real)
    requires
        agree(x, y, w),
    ensures
        agree(-x, -y, w),
{
}

/// Sums of numbers of one sign that agree agree.
pub proof fn lemma_agree_plus(x: real, y: real, p: real, q: real, w: real)
    requires
        agree(x, y, w),
        agree(p, q, w),
        (y >= 0real && q >= 0real) || (y <= 0real && q <= 0real),
    ensures
        agree(x + p, y + q, w),
{
    lemma_spread(w, abs(y), abs(q));
    lemma_spread(w, abs(x), abs(p));
}

/// Roots of numbers that agree agree.
pub proof fn lemma_agree_root(x: real, y: real, w: real)
    requires
        roots_exist(),
        w >= 1real,
        y >= 0real,
        agree(x, y, w),
    ensures
        agree(x.root(), y.root(), w),
{
    lemma_root(x);
    lemma_root(y);
    let (r, s) = (x.root(), y.root());
    lemma_comm(w, 1real);
    lemma_times_order(w, 1real, w);
    lemma_one(w);
    let ww = w * w;
    assert(w <= ww);
    if r > w * s {
        lemma_not_negative(w, s);
        lemma_squares_strict(w * s, r);
        lemma_regroup(w, s, w, s);
        lemma_comm(w, y);
        lemma_comm(ww, y);
        lemma_times_order(y, w, ww);
    }
    if s > w * r {
        lemma_not_negative(w, r);
        lemma_squares_strict(w * r, s);
        lemma_regroup(w, r, w, r);
        lemma_comm(w, x);
        lemma_comm(ww, x);
        lemma_times_order(x, w, ww);
    }
}

/// Powers of a factor that is not below 1.
pub proof fn lemma_factor(b: real, n: int)
    requires
        b >= 1real,
    ensures
        power(b, n) >= 1real,
        n >= 0 ==> power(b, n + 1) == power(b, n) * b,
        n >= 0 ==> power(b, n) <= power(b, n + 1),
    decreases n,
{
    if n > 0 {
        lemma_factor(b, n - 1);
        let p = power(b, n - 1);
        lemma_times_order(p, 1real, b);
        lemma_one(p);
    }
    let p = power(b, n);
    lemma_times_order(p, 1real, b);
    lemma_one(p);
}

/// The factors of two parts of a computation multiply.
pub proof fn lemma_factor_sum(b: real, i: int, j: int)
    requires
        b >= 1real,
        0 <= i,
        0 <= j,
    ensures
        power(b, i) * power(b, j) == power(b, i + j),
    decreases j,
{
    if j > 0 {
        lemma_factor_sum(b, i, j - 1);
        lemma_assoc(power(b, i), power(b, j - 1), b);
        assert(power(b, i + j) == power(b, i + j - 1) * b);
    } else {
        lemma_one(power(b, i));
    }
}

/// More operations, a larger factor.
pub proof fn lemma_factor_order(b: real, i: int, j: int)
    requires
        b >= 1real,
        0 <= i <= j,
    ensures
        power(b, i) <= power(b, j),
    decreases j - i,
{
    if i < j {
        lemma_factor_order(b, i, j - 1);
        lemma_factor(b, j - 1);
    }
}

} // verus!
