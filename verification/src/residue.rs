//! Exact arithmetic for trying the kernels out: the residues modulo the prime `2^31 - 1`.
//!
//! Sums, products and quotients are those of a field, so that what the kernels compute can be
//! compared without any tolerance. Half of the residues are squares; the root of a square is one of
//! its two roots. The residues are ordered as the numbers `0..2^31 - 1`, but have no size: the
//! larger of two is the first unless that is 0, which keeps a floor from lifting anything but 0.

use crate::scalar::{Number, Scalar, WideNumber, WideScalar, WordNumber, WordScalar};
use vstd::prelude::*;

verus! {

/// The modulus, a prime.
pub const MODULUS: u64 = 2147483647;

/// A residue.
#[derive(Debug, Clone, Copy)]
pub struct Residue {
    pub v: u32,
}

/// The residue of a number.
pub open spec fn residue(n: int) -> Residue {
    Residue { v: (n % (MODULUS as int)) as u32 }
}

/// `b` to the power `e`.
pub open spec fn residue_power(b: Residue, e: nat) -> Residue
    decreases e,
{
    if e == 0 {
        residue(1)
    } else {
        let half = residue_power(b, e / 2);
        let square = residue(half.v * half.v);
        if e % 2 == 0 {
            square
        } else {
            residue(square.v * b.v)
        }
    }
}

/// `n % MODULUS` as a residue.
fn reduce(n: u64) -> (r: Residue)
    ensures
        r == residue(n as int),
{
    Residue { v: (n % MODULUS) as u32 }
}

/// The product of two words, reduced.
fn reduced_product(a: u32, b: u32) -> (r: Residue)
    ensures
        r == residue(a * b),
{
    assert(a * b <= 0xffff_ffff * 0xffff_ffff) by (nonlinear_arith)
        requires
            a <= 0xffff_ffff,
            b <= 0xffff_ffff,
    ;
    assert(0 <= a * b) by (nonlinear_arith)
        requires
            a >= 0,
            b >= 0,
    ;
    reduce(a as u64 * b as u64)
}

/// `b` to the power `e`.
fn power(b: Residue, e: u64) -> (r: Residue)
    ensures
        r == residue_power(b, e as nat),
    decreases e,
{
    if e == 0 {
        reduce(1)
    } else {
        let half = power(b, e / 2);
        let square = reduced_product(half.v, half.v);
        if e % 2 == 0 {
            square
        } else {
            reduced_product(square.v, b.v)
        }
    }
}

impl Number for Residue {
    open spec fn nought() -> Residue {
        residue(0)
    }

    open spec fn unit() -> Residue {
        residue(1)
    }

    open spec fn tenth_pow(n: u32) -> Residue {
        residue(1).over(residue_power(residue(10), n as nat))
    }

    open spec fn counted(n: usize) -> Residue {
        residue(n as int)
    }

    open spec fn plus(self, rhs: Residue) -> Residue {
        residue(self.v + rhs.v)
    }

    open spec fn minus(self, rhs: Residue) -> Residue {
        self.plus(rhs.negated())
    }

    open spec fn times(self, rhs: Residue) -> Residue {
        residue(self.v * rhs.v)
    }

    open spec fn over(self, rhs: Residue) -> Residue {
        self.times(residue_power(rhs, 2147483645))
    }

    open spec fn negated(self) -> Residue {
        residue(MODULUS - residue(self.v as int).v)
    }

    open spec fn fused(self, factor: Residue, addend: Residue) -> Residue {
        self.times(factor).plus(addend)
    }

    open spec fn root(self) -> Residue {
        residue_power(self, 536870912)
    }

    open spec fn magnitude(self) -> Residue {
        self
    }

    open spec fn sign(self) -> Residue {
        residue(1)
    }

    open spec fn larger(self, rhs: Residue) -> Residue {
        if self.v == 0 {
            rhs
        } else {
            self
        }
    }

    open spec fn below(self, rhs: Residue) -> bool {
        self.v < rhs.v
    }

    open spec fn at_most(self, rhs: Residue) -> bool {
        self.v <= rhs.v
    }

    open spec fn same(self, rhs: Residue) -> bool {
        self.v == rhs.v
    }
}

impl Scalar for Residue {
    fn zero() -> (r: Residue) {
        reduce(0)
    }

    fn one() -> (r: Residue) {
        reduce(1)
    }

    fn decimal(n: u32) -> (r: Residue) {
        let ten = power(reduce(10), n as u64);
        reduce(1).div(ten)
    }

    fn from_count(n: usize) -> (r: Residue) {
        reduce(n as u64)
    }

    fn add(self, rhs: Residue) -> (r: Residue) {
        reduce(self.v as u64 + rhs.v as u64)
    }

    fn sub(self, rhs: Residue) -> (r: Residue) {
        self.add(rhs.neg())
    }

    fn mul(self, rhs: Residue) -> (r: Residue) {
        reduced_product(self.v, rhs.v)
    }

    fn div(self, rhs: Residue) -> (r: Residue) {
        self.mul(power(rhs, 2147483645))
    }

    fn neg(self) -> (r: Residue) {
        let low = reduce(self.v as u64);
        reduce(MODULUS - low.v as u64)
    }

    fn mul_add(self, factor: Residue, addend: Residue) -> (r: Residue) {
        self.mul(factor).add(addend)
    }

    fn sqrt(self) -> (r: Residue) {
        power(self, 536870912)
    }

    fn abs(self) -> (r: Residue) {
        self
    }

    fn signum(self) -> (r: Residue) {
        reduce(1)
    }

    fn max(self, rhs: Residue) -> (r: Residue) {
        if self.v == 0 {
            rhs
        } else {
            self
        }
    }

    fn less(self, rhs: Residue) -> (r: bool) {
        self.v < rhs.v
    }

    fn less_or_equal(self, rhs: Residue) -> (r: bool) {
        self.v <= rhs.v
    }

    fn equal(self, rhs: Residue) -> (r: bool) {
        self.v == rhs.v
    }
}

impl WideNumber<Residue> for Residue {
    open spec fn widened(s: Residue) -> Residue {
        s
    }

    open spec fn narrowed(self) -> Residue {
        self
    }
}

impl WideScalar<Residue> for Residue {
    fn widen(s: Residue) -> (r: Residue) {
        s
    }

    fn narrow(self) -> (r: Residue) {
        self
    }
}

impl WordNumber for Residue {
    open spec fn of_word(bits: u32) -> Residue {
        Residue { v: bits }
    }

    open spec fn word(self) -> u32 {
        self.v
    }
}

impl WordScalar for Residue {
    fn from_word(bits: u32) -> (r: Residue) {
        Residue { v: bits }
    }

    fn to_word(self) -> (r: u32) {
        self.v
    }
}

} // verus!
