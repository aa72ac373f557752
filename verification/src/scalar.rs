//! The arithmetic that the numeric kernels of this crate are written in.
//!
//! A kernel never names a machine number. It is generic over a [`Scalar`]: a copyable value with
//! the dozen operations that the kernels need. What an operation yields is named by the matching
//! specification function of [`Number`], so that the contract of a kernel says exactly which
//! operations are applied to which operands, in which order. This is what matters for rounding
//! arithmetic, where `a + (b + c)` and `(a + b) + c` differ.
//!
//! `real`, the mathematical numbers, is a [`Number`] too. The laws of the crate (that a
//! factorisation multiplies back to its input, that a factor is orthonormal) are statements about
//! the same specification functions at `real`, where nothing is rounded.

use vstd::arithmetic::power::pow;
use vstd::prelude::*;

verus! {

/// The operations of an arithmetic, as specification functions.
///
/// An implementation for a machine number gives each of them the value that the machine
/// operation returns.
pub trait Number: Sized {
    /// The number 0.
    spec fn nought() -> Self;

    /// The number 1.
    spec fn unit() -> Self;

    /// `10^-n`.
    spec fn tenth_pow(n: u32) -> Self;

    /// The number of things counted by `n`.
    spec fn counted(n: usize) -> Self;

    /// `self + rhs`.
    spec fn plus(self, rhs: Self) -> Self;

    /// `self - rhs`.
    spec fn minus(self, rhs: Self) -> Self;

    /// `self * rhs`.
    spec fn times(self, rhs: Self) -> Self;

    /// `self / rhs`.
    spec fn over(self, rhs: Self) -> Self;

    /// `-self`.
    spec fn negated(self) -> Self;

    /// `self * factor + addend`, rounded once.
    spec fn fused(self, factor: Self, addend: Self) -> Self;

    /// The square root.
    spec fn root(self) -> Self;

    /// The absolute value.
    spec fn magnitude(self) -> Self;

    /// 1 with the sign of `self`.
    spec fn sign(self) -> Self;

    /// The larger of two numbers.
    spec fn larger(self, rhs: Self) -> Self;

    /// `self < rhs`.
    spec fn below(self, rhs: Self) -> bool;

    /// `self <= rhs`.
    spec fn at_most(self, rhs: Self) -> bool;

    /// `self == rhs` as numbers.
    spec fn same(self, rhs: Self) -> bool;
}

/// A [`Number`] that can be computed with.
///
/// Each method returns what the specification function of the same meaning names. That asks one
/// thing of an implementation: an operation is a function of its operands.
pub trait Scalar: Number + Copy {
    fn zero() -> (r: Self)
        ensures
            r == Self::nought(),
    ;

    fn one() -> (r: Self)
        ensures
            r == Self::unit(),
    ;

    fn decimal(n: u32) -> (r: Self)
        ensures
            r == Self::tenth_pow(n),
    ;

    fn from_count(n: usize) -> (r: Self)
        ensures
            r == Self::counted(n),
    ;

    fn add(self, rhs: Self) -> (r: Self)
        ensures
            r == self.plus(rhs),
    ;

    fn sub(self, rhs: Self) -> (r: Self)
        ensures
            r == self.minus(rhs),
    ;

    fn mul(self, rhs: Self) -> (r: Self)
        ensures
            r == self.times(rhs),
    ;

    fn div(self, rhs: Self) -> (r: Self)
        ensures
            r == self.over(rhs),
    ;

    fn neg(self) -> (r: Self)
        ensures
            r == self.negated(),
    ;

    fn mul_add(self, factor: Self, addend: Self) -> (r: Self)
        ensures
            r == self.fused(factor, addend),
    ;

    fn sqrt(self) -> (r: Self)
        ensures
            r == self.root(),
    ;

    fn abs(self) -> (r: Self)
        ensures
            r == self.magnitude(),
    ;

    fn signum(self) -> (r: Self)
        ensures
            r == self.sign(),
    ;

    fn max(self, rhs: Self) -> (r: Self)
        ensures
            r == self.larger(rhs),
    ;

    fn less(self, rhs: Self) -> (r: bool)
        ensures
            r == self.below(rhs),
    ;

    fn less_or_equal(self, rhs: Self) -> (r: bool)
        ensures
            r == self.at_most(rhs),
    ;

    fn equal(self, rhs: Self) -> (r: bool)
        ensures
            r == self.same(rhs),
    ;
}

/// The conversions between a number of single width `S` and this wider one.
pub trait WideNumber<S>: Number {
    /// `s` in this width.
    spec fn widened(s: S) -> Self;

    /// This number in single width.
    spec fn narrowed(self) -> S;
}

/// A [`WideNumber`] that can be computed with.
pub trait WideScalar<S>: Scalar + WideNumber<S> {
    fn widen(s: S) -> (r: Self)
        ensures
            r == Self::widened(s),
    ;

    fn narrow(self) -> (r: S)
        ensures
            r == self.narrowed(),
    ;
}

/// A number that is stored as a word of 32 bits.
pub trait WordNumber: Number {
    /// The number that the word `bits` stores.
    spec fn of_word(bits: u32) -> Self;

    /// The word that stores this number.
    spec fn word(self) -> u32;
}

/// A [`WordNumber`] that can be computed with.
pub trait WordScalar: Scalar + WordNumber {
    fn from_word(bits: u32) -> (r: Self)
        ensures
            r == Self::of_word(bits),
    ;

    fn to_word(self) -> (r: u32)
        ensures
            r == self.word(),
    ;
}

/// `r` is the nonnegative square root of `x`.
pub open spec fn is_root(r: real, x: real) -> bool {
    r >= 0real && r * r == x
}

/// `x` has a nonnegative square root.
pub open spec fn has_root(x: real) -> bool {
    exists|r: real| is_root(r, x)
}

/// Every nonnegative number has a square root.
///
/// This is a fact about the mathematical numbers that rests on their completeness. The verifier
/// reasons about them as an ordered field, where it cannot be derived, so that a law that needs a
/// root says so.
pub open spec fn roots_exist() -> bool {
    forall|x: real| x >= 0real ==> #[trigger] has_root(x)
}

impl Number for real {
    open spec fn nought() -> real {
        0real
    }

    open spec fn unit() -> real {
        1real
    }

    open spec fn tenth_pow(n: u32) -> real {
        1real / (pow(10, n as nat) as real)
    }

    open spec fn counted(n: usize) -> real {
        n as real
    }

    open spec fn plus(self, rhs: real) -> real {
        self + rhs
    }

    open spec fn minus(self, rhs: real) -> real {
        self - rhs
    }

    open spec fn times(self, rhs: real) -> real {
        self * rhs
    }

    open spec fn over(self, rhs: real) -> real {
        self / rhs
    }

    open spec fn negated(self) -> real {
        -self
    }

    open spec fn fused(self, factor: real, addend: real) -> real {
        self * factor + addend
    }

    open spec fn root(self) -> real {
        choose|r: real| is_root(r, self)
    }

    open spec fn magnitude(self) -> real {
        if self < 0real {
            -self
        } else {
            self
        }
    }

    open spec fn sign(self) -> real {
        if self < 0real {
            -1real
        } else {
            1real
        }
    }

    open spec fn larger(self, rhs: real) -> real {
        if self < rhs {
            rhs
        } else {
            self
        }
    }

    open spec fn below(self, rhs: real) -> bool {
        self < rhs
    }

    open spec fn at_most(self, rhs: real) -> bool {
        self <= rhs
    }

    open spec fn same(self, rhs: real) -> bool {
        self == rhs
    }
}

impl WideNumber<real> for real {
    open spec fn widened(s: real) -> real {
        s
    }

    open spec fn narrowed(self) -> real {
        self
    }
}

/// Which number a word stores, and which word a number gets, is left open here: a law about stored
/// numbers holds for every way to read and write words.
impl WordNumber for real {
    open spec fn of_word(bits: u32) -> real {
        arbitrary::<spec_fn(u32) -> real>()(bits)
    }

    open spec fn word(self) -> u32 {
        arbitrary::<spec_fn(real) -> u32>()(self)
    }
}

} // verus!
