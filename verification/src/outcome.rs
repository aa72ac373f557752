//! What the operations on matrices can give, as relations.
//!
//! A device rounds as it likes, so that an operation has more than one possible result. A contract
//! over matrices says of each entry from what it was computed, by these relations. On words they
//! are those of the device; on the mathematical numbers, where the laws are stated, they are the
//! operations themselves.

use crate::exact::{inner, sum};
use crate::scalar::{is_root, Number};
use crate::tensor::{
    add_scalar_outcome, close_outcome, div_outcome, matmul_outcome, mul_outcome,
    mul_scalar_outcome, neg_outcome, power_outcome, sign_outcome, sqrt_outcome, sub_outcome,
    sum_outcome, word_in, Format,
};
use vstd::prelude::*;

verus! {

/// Numbers with operations that can have more than one result.
pub trait Outcomes: Sized {
    /// The whole number `n`, one of -1, 0 and 1, as the format has it.
    spec fn whole(format: Format, n: int) -> Self;

    /// `r` can be `x - y`.
    spec fn difference(x: Self, y: Self, r: Self) -> bool;

    /// `r` can be `x * y`.
    spec fn product(x: Self, y: Self, r: Self) -> bool;

    /// `r` can be `x / y`.
    spec fn quotient(x: Self, y: Self, r: Self) -> bool;

    /// `r` can be `-x`.
    spec fn opposite(x: Self, r: Self) -> bool;

    /// `r` can be the sign of `x`.
    spec fn signed(x: Self, r: Self) -> bool;

    /// `r` can be the square root of `x`.
    spec fn rooted(x: Self, r: Self) -> bool;

    /// `r` can be `x` to the power `n`.
    spec fn powered(x: Self, n: i64, r: Self) -> bool;

    /// `r` can be `x * n`.
    spec fn scaled(x: Self, n: i64, r: Self) -> bool;

    /// `r` can be `x + n`.
    spec fn shifted(x: Self, n: i64, r: Self) -> bool;

    /// `r` can be the sum of `xs`.
    spec fn totalled(xs: Seq<Self>, r: Self) -> bool;

    /// `r` can be the product of the row `xs` and the column `ys`.
    spec fn dotted(xs: Seq<Self>, ys: Seq<Self>, r: Self) -> bool;

    /// `b` can be whether `x` is close to `y`.
    spec fn near(x: Self, y: Self, b: bool) -> bool;
}

impl Outcomes for u64 {
    open spec fn whole(format: Format, n: int) -> u64 {
        word_in(format, n)
    }

    open spec fn difference(x: u64, y: u64, r: u64) -> bool {
        sub_outcome(x, y, r)
    }

    open spec fn product(x: u64, y: u64, r: u64) -> bool {
        mul_outcome(x, y, r)
    }

    open spec fn quotient(x: u64, y: u64, r: u64) -> bool {
        div_outcome(x, y, r)
    }

    open spec fn opposite(x: u64, r: u64) -> bool {
        neg_outcome(x, r)
    }

    open spec fn signed(x: u64, r: u64) -> bool {
        sign_outcome(x, r)
    }

    open spec fn rooted(x: u64, r: u64) -> bool {
        sqrt_outcome(x, r)
    }

    open spec fn powered(x: u64, n: i64, r: u64) -> bool {
        power_outcome(x, n, r)
    }

    open spec fn scaled(x: u64, n: i64, r: u64) -> bool {
        mul_scalar_outcome(x, n, r)
    }

    open spec fn shifted(x: u64, n: i64, r: u64) -> bool {
        add_scalar_outcome(x, n, r)
    }

    open spec fn totalled(xs: Seq<u64>, r: u64) -> bool {
        sum_outcome(xs, r)
    }

    open spec fn dotted(xs: Seq<u64>, ys: Seq<u64>, r: u64) -> bool {
        matmul_outcome(xs, ys, r)
    }

    open spec fn near(x: u64, y: u64, b: bool) -> bool {
        close_outcome(x, y, b)
    }
}

/// `x` is close to `y`: within `10^-8`, and `10^-5` of `y`.
pub open spec fn close(x: real, y: real) -> bool {
    (x - y).magnitude() <= real::tenth_pow(8) + real::tenth_pow(5) * y.magnitude()
}

impl Outcomes for real {
    open spec fn whole(format: Format, n: int) -> real {
        n as real
    }

    open spec fn difference(x: real, y: real, r: real) -> bool {
        r == x - y
    }

    open spec fn product(x: real, y: real, r: real) -> bool {
        r == x * y
    }

    open spec fn quotient(x: real, y: real, r: real) -> bool {
        y != 0real ==> r * y == x
    }

    open spec fn opposite(x: real, r: real) -> bool {
        r == -x
    }

    open spec fn signed(x: real, r: real) -> bool {
        r == if x > 0real {
            1real
        } else if x < 0real {
            -1real
        } else {
            0real
        }
    }

    open spec fn rooted(x: real, r: real) -> bool {
        x >= 0real ==> is_root(r, x)
    }

    open spec fn powered(x: real, n: i64, r: real) -> bool {
        n == 2 ==> r == x * x
    }

    open spec fn scaled(x: real, n: i64, r: real) -> bool {
        r == x * (n as real)
    }

    open spec fn shifted(x: real, n: i64, r: real) -> bool {
        r == x + (n as real)
    }

    open spec fn totalled(xs: Seq<real>, r: real) -> bool {
        r == sum(xs.len() as int, |i: int| xs[i])
    }

    open spec fn dotted(xs: Seq<real>, ys: Seq<real>, r: real) -> bool {
        r == inner(xs, ys)
    }

    open spec fn near(x: real, y: real, b: bool) -> bool {
        b == close(x, y)
    }
}

} // verus!
