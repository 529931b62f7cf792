//! Single-precision numbers by their bit patterns: what a pattern stands for,
//! how patterns compare, and the four arithmetic operations, each of which
//! returns the representable number nearest to the exact result.
use crate::rounding;
use crate::rounding::{BINADE, INFINITE};
use vstd::arithmetic::div_mod;
use vstd::arithmetic::mul;
use vstd::arithmetic::power2;
use vstd::prelude::*;

verus! {

/// The sign bit.
pub const SIGN: u32 = 0x8000_0000;

/// The pattern that stands for an invalid result.
pub const NOT_A_NUMBER: u32 = 0x7fc0_0000;

/// An IEEE 754 binary32 value, held by its bit pattern.
#[derive(Clone, Copy, Debug, PartialEq, Eq, Structural)]
pub struct Single {
    pub bits: u32,
}

impl Single {
    /// The sign bit is set.
    pub open spec fn negative(self) -> bool {
        self.bits >= SIGN
    }

    /// The bit pattern without the sign bit.
    pub open spec fn magnitude(self) -> nat {
        (self.bits % SIGN) as nat
    }

    pub open spec fn nan(self) -> bool {
        self.magnitude() > INFINITE
    }

    pub open spec fn infinite(self) -> bool {
        self.magnitude() == INFINITE
    }

    pub open spec fn finite(self) -> bool {
        self.magnitude() < INFINITE
    }

    /// Zero of either sign.
    pub open spec fn zero(self) -> bool {
        self.magnitude() == 0
    }

    /// The significand of a finite value as a whole number, with its leading
    /// bit where the value is a normal one.
    pub open spec fn significand(self) -> nat {
        if self.magnitude() < 2 * BINADE {
            self.magnitude()
        } else {
            BINADE as nat + self.magnitude() % BINADE as nat
        }
    }

    /// Binary logarithm of the spacing of the values in this one's binade,
    /// counted in units.
    pub open spec fn exponent(self) -> nat {
        if self.magnitude() < 2 * BINADE {
            0
        } else {
            (self.magnitude() / BINADE as nat - 1) as nat
        }
    }

    /// The size of a finite value in units: a unit is the smallest positive
    /// value, two to the power of -149.
    pub open spec fn units(self) -> nat {
        self.significand() * power2::pow2(self.exponent())
    }

    /// A finite value in units, with its sign.
    pub open spec fn value(self) -> int {
        if self.negative() {
            -(self.units() as int)
        } else {
            self.units() as int
        }
    }

    /// The pattern with the given sign and magnitude.
    pub open spec fn of(negative: bool, magnitude: nat) -> Single {
        Single {
            bits: (if negative {
                SIGN + magnitude
            } else {
                magnitude as int
            }) as u32,
        }
    }

    /// The invalid result.
    pub open spec fn invalid() -> Single {
        Single { bits: NOT_A_NUMBER }
    }

    /// The value nearest to `n / d` units, with the given sign.
    pub open spec fn rounded(negative: bool, n: nat, d: nat) -> Single {
        Single::of(negative, rounding::nearest(n, d))
    }

    /// Position on the number line: both zeros share one place.
    pub open spec fn rank(self) -> int {
        if self.negative() {
            -(self.magnitude() as int)
        } else {
            self.magnitude() as int
        }
    }

    /// `self < other`: an invalid operand is unordered.
    pub open spec fn less(self, other: Single) -> bool {
        !self.nan() && !other.nan() && self.rank() < other.rank()
    }

    /// The other sign.
    pub open spec fn negated(self) -> Single {
        Single::of(!self.negative(), self.magnitude())
    }

    /// `self + other`.
    #[verifier::opaque]
    pub open spec fn plus(self, other: Single) -> Single {
        if self.nan() || other.nan() {
            Single::invalid()
        } else if self.infinite() && other.infinite() && self.negative() != other.negative() {
            Single::invalid()
        } else if self.infinite() {
            self
        } else if other.infinite() {
            other
        } else {
            let sum = self.value() + other.value();
            if sum == 0 {
                Single::of(self.negative() && other.negative(), 0)
            } else if sum < 0 {
                Single::rounded(true, (-sum) as nat, 1)
            } else {
                Single::rounded(false, sum as nat, 1)
            }
        }
    }

    /// `self - other`.
    pub open spec fn minus(self, other: Single) -> Single {
        self.plus(other.negated())
    }

    /// `self * other`.
    #[verifier::opaque]
    pub open spec fn times(self, other: Single) -> Single {
        let negative = self.negative() != other.negative();
        if self.nan() || other.nan() {
            Single::invalid()
        } else if self.infinite() || other.infinite() {
            if self.zero() || other.zero() {
                Single::invalid()
            } else {
                Single::of(negative, INFINITE as nat)
            }
        } else {
            Single::rounded(negative, self.units() * other.units(), power2::pow2(149))
        }
    }

    /// `self / other`.
    #[verifier::opaque]
    pub open spec fn over(self, other: Single) -> Single {
        let negative = self.negative() != other.negative();
        if self.nan() || other.nan() {
            Single::invalid()
        } else if self.infinite() {
            if other.infinite() {
                Single::invalid()
            } else {
                Single::of(negative, INFINITE as nat)
            }
        } else if other.infinite() {
            Single::of(negative, 0)
        } else if other.zero() {
            if self.zero() {
                Single::invalid()
            } else {
                Single::of(negative, INFINITE as nat)
            }
        } else {
            Single::rounded(negative, self.units() * power2::pow2(149), other.units())
        }
    }

    /// `self % other`, with the sign of `self`.
    #[verifier::opaque]
    pub open spec fn modulo(self, other: Single) -> Single {
        if self.nan() || other.nan() || self.infinite() || other.zero() {
            Single::invalid()
        } else if other.infinite() {
            self
        } else {
            Single::rounded(self.negative(), self.units() % other.units(), 1)
        }
    }

    /// `self` modulo `other`, not below zero.
    pub open spec fn wrapped(self, other: Single) -> Single {
        let r = self.modulo(other);
        if r.less(Single { bits: 0 }) {
            r.plus(Single::of(false, other.magnitude()))
        } else {
            r
        }
    }

    /// The value nearest to a whole number.
    #[verifier::opaque]
    pub open spec fn whole(n: int) -> Single {
        if n < 0 {
            Single::rounded(true, (-n) as nat * power2::pow2(149), 1)
        } else {
            Single::rounded(false, n as nat * power2::pow2(149), 1)
        }
    }

    /// The largest whole number not above the size of a finite value.
    pub open spec fn floor_size(self) -> nat {
        self.units() / power2::pow2(149)
    }

    /// The part of a finite value's size after the point, in units.
    pub open spec fn fraction(self) -> nat {
        self.units() % power2::pow2(149)
    }

    /// The size of a finite value rounded to a whole number, halves up.
    pub open spec fn round_size(self) -> nat {
        self.floor_size() + if 2 * self.fraction() >= power2::pow2(149) {
            1nat
        } else {
            0nat
        }
    }

    /// The value cut or raised to an index: `floor` and `ceil` followed by the
    /// conversion to `usize`, which saturates.
    pub open spec fn index(self, up: bool) -> int {
        if self.nan() || self.negative() {
            0
        } else if self.infinite() {
            usize::MAX as int
        } else {
            let n = self.floor_size() + if up && self.fraction() > 0 {
                1int
            } else {
                0int
            };
            if n < usize::MAX {
                n
            } else {
                usize::MAX as int
            }
        }
    }

    /// The value rounded to a whole number, halves away from zero, and kept
    /// within `lo..=hi`; zero for an invalid value.
    pub open spec fn round_within(self, lo: int, hi: int) -> int {
        if self.nan() {
            0
        } else if self.infinite() {
            if self.negative() {
                lo
            } else {
                hi
            }
        } else {
            let n = if self.negative() {
                -(self.round_size() as int)
            } else {
                self.round_size() as int
            };
            if n < lo {
                lo
            } else if n > hi {
                hi
            } else {
                n
            }
        }
    }

    /// The larger of two values; the valid one where the other is invalid.
    pub open spec fn larger(self, other: Single) -> Single {
        if self.nan() {
            other
        } else if self.less(other) {
            other
        } else {
            self
        }
    }

    /// The smaller of two values; the valid one where the other is invalid.
    pub open spec fn smaller(self, other: Single) -> Single {
        if self.nan() {
            other
        } else if other.less(self) {
            other
        } else {
            self
        }
    }

    /// Both values are at one place of the number line.
    pub open spec fn equals(self, other: Single) -> bool {
        !self.nan() && !other.nan() && self.rank() == other.rank()
    }

    /// The value moved into `lo..=hi`; an invalid value stays as it is.
    pub open spec fn clamped(self, lo: Single, hi: Single) -> Single {
        if self.less(lo) {
            lo
        } else if hi.less(self) {
            hi
        } else {
            self
        }
    }

    /// The value is neither below `lo` nor above `hi`.
    pub open spec fn lies_in(self, lo: Single, hi: Single) -> bool {
        !self.less(lo) && !hi.less(self)
    }

    pub fn is_negative(self) -> (r: bool)
        ensures
            r == self.negative(),
    {
        self.bits >= SIGN
    }

    /// The pattern without the sign bit.
    pub fn size_bits(self) -> (m: u32)
        ensures
            m == self.magnitude(),
    {
        self.bits % SIGN
    }

    pub fn is_nan(self) -> (r: bool)
        ensures
            r == self.nan(),
    {
        self.size_bits() > INFINITE
    }

    /// The pattern with the given sign and magnitude.
    pub fn assemble(negative: bool, magnitude: u32) -> (r: Single)
        requires
            magnitude < SIGN,
        ensures
            r == Single::of(negative, magnitude as nat),
            r.negative() == negative,
            r.magnitude() == magnitude,
    {
        if negative {
            Single { bits: SIGN + magnitude }
        } else {
            Single { bits: magnitude }
        }
    }

    pub fn lt(self, other: Single) -> (r: bool)
        ensures
            r == self.less(other),
    {
        let a: u32 = self.size_bits();
        let b: u32 = other.size_bits();
        if a > INFINITE || b > INFINITE {
            return false;
        }
        if self.is_negative() {
            if other.is_negative() {
                b < a
            } else {
                a > 0 || b > 0
            }
        } else {
            !other.is_negative() && a < b
        }
    }

    pub fn max(self, other: Single) -> (r: Single)
        ensures
            r == self.larger(other),
    {
        if self.is_nan() || self.lt(other) {
            other
        } else {
            self
        }
    }

    pub fn min(self, other: Single) -> (r: Single)
        ensures
            r == self.smaller(other),
    {
        if self.is_nan() || other.lt(self) {
            other
        } else {
            self
        }
    }

    /// Both values are at one place of the number line.
    pub fn at_place_of(self, other: Single) -> (r: bool)
        ensures
            r == self.equals(other),
    {
        !self.is_nan() && !other.is_nan() && !self.lt(other) && !other.lt(self)
    }

    pub fn clamp(self, lo: Single, hi: Single) -> (r: Single)
        ensures
            r == self.clamped(lo, hi),
    {
        if self.lt(lo) {
            lo
        } else if hi.lt(self) {
            hi
        } else {
            self
        }
    }

    pub fn neg(self) -> (r: Single)
        ensures
            r == self.negated(),
    {
        Single::assemble(!self.is_negative(), self.size_bits())
    }

    /// The value without its sign.
    pub fn abs(self) -> (r: Single)
        ensures
            r == Single::of(false, self.magnitude()),
    {
        Single::assemble(false, self.size_bits())
    }
}

/// A magnitude pattern is its exponent's binades plus its significand.
pub proof fn lemma_parts(a: Single)
    requires
        a.finite(),
    ensures
        a.magnitude() == a.exponent() * BINADE as nat + a.significand(),
        a.significand() < 2 * BINADE,
        a.exponent() > 0 ==> a.significand() >= BINADE,
        a.exponent() <= 253,
        a.units() == 0 <==> a.zero(),
{
    let m = a.magnitude() as int;
    div_mod::lemma_fundamental_div_mod(m, BINADE as int);
    rounding::lemma_pow2_facts(a.exponent(), 0);
    mul::lemma_mul_nonzero(a.significand() as int, power2::pow2(a.exponent()) as int);
    assert(m / 0x80_0000 <= 254);
}

/// Magnitudes in the order of their patterns are in the order of their sizes.
pub proof fn lemma_units_increase(a: Single, b: Single)
    requires
        a.finite(),
        b.finite(),
        a.magnitude() < b.magnitude(),
    ensures
        a.units() < b.units(),
{
    lemma_parts(a);
    lemma_parts(b);
    let (ea, eb) = (a.exponent(), b.exponent());
    rounding::lemma_pow2_facts(ea, eb);
    rounding::lemma_pow2_facts(eb, ea);
    if ea == eb {
        mul::lemma_mul_strict_inequality(
            a.significand() as int,
            b.significand() as int,
            power2::pow2(ea) as int,
        );
    } else {
        assert(ea < eb);
        rounding::lemma_pow2_facts(ea + 1, eb);
        let (pa, pb) = (power2::pow2(ea) as int, power2::pow2(eb) as int);
        assert(a.significand() * pa < b.significand() * pb) by (nonlinear_arith)
            requires
                a.significand() < 2 * BINADE,
                b.significand() >= BINADE,
                2 * pa <= pb,
                pa > 0,
        ;
    }
}

/// On finite values the order of the patterns is the order of the numbers.
pub proof fn lemma_less_is_order(a: Single, b: Single)
    requires
        a.finite(),
        b.finite(),
    ensures
        a.less(b) <==> a.value() < b.value(),
{
    lemma_parts(a);
    lemma_parts(b);
    if a.magnitude() < b.magnitude() {
        lemma_units_increase(a, b);
    } else if b.magnitude() < a.magnitude() {
        lemma_units_increase(b, a);
    }
}

/// The significand and the exponent of a finite value.
pub fn parts(a: Single) -> (r: (u32, u32))
    requires
        a.finite(),
    ensures
        r.0 == a.significand(),
        r.1 == a.exponent(),
{
    let m: u32 = a.size_bits();
    if m < 2 * BINADE {
        (m, 0)
    } else {
        (BINADE + m % BINADE, m / BINADE - 1)
    }
}

} // verus!
