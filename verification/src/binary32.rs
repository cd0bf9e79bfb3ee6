//! Audio samples as IEEE 754 binary32 bit patterns, and their arithmetic.
//!
//! A sample is carried as the 32 bits of its encoding: one sign bit, eight
//! bits of biased exponent, twenty-three bits of fraction. Everything the
//! effects need from it (classification, clamping at zero, multiplication
//! rounded to nearest with ties to even) is integer work on those bits.
use crate::rounding::{
    lemma_rounded_exact, lemma_rounded_zero, lemma_scaled_split, round_product,
    rounded_magnitude, scaled, significand, spacing,
};
use vstd::arithmetic::power2::{lemma2_to64, lemma_pow2_adds, pow2};
use vstd::prelude::*;

verus! {

/// One channel's amplitude: the bit pattern of a binary32 value.
///
/// Equality is equality of patterns: the two zeros differ, and a NaN equals
/// itself.
#[derive(Clone, Copy, Debug, PartialEq, Eq, Structural)]
pub struct Sample {
    pub bits: u32,
}

/// One stereo sample: left and right amplitude.
pub type Frame = (Sample, Sample);

/// Pattern of +0.0.
pub const ZERO_BITS: u32 = 0;

/// Pattern of 1.0.
pub const ONE_BITS: u32 = 0x3f80_0000;

/// Pattern of positive infinity.
pub const INFINITY_BITS: u32 = 0x7f80_0000;

/// Pattern of the quiet NaN that every invalid or NaN-fed operation yields.
pub const NAN_BITS: u32 = 0x7fc0_0000;

/// The sign bit.
pub const SIGN_BIT: u32 = 0x8000_0000;

impl Sample {
    /// The pattern without its sign bit.
    pub open spec fn magnitude(self) -> nat {
        (self.bits % SIGN_BIT) as nat
    }

    /// The sign bit is set; true of -0.0 and of some NaNs too.
    pub open spec fn sign_negative(self) -> bool {
        self.bits >= SIGN_BIT
    }

    /// Not a number: above the pattern of infinity.
    pub open spec fn nan(self) -> bool {
        self.magnitude() > INFINITY_BITS
    }

    /// Either infinity.
    pub open spec fn infinite(self) -> bool {
        self.magnitude() == INFINITY_BITS
    }

    /// A number that is not infinite: zero, subnormal or normal.
    pub open spec fn finite(self) -> bool {
        self.magnitude() < INFINITY_BITS
    }

    /// Either zero.
    pub open spec fn zero(self) -> bool {
        self.magnitude() == 0
    }

    /// Not NaN and at least zero, -0.0 included.
    pub open spec fn at_least_zero(self) -> bool {
        !self.nan() && (!self.sign_negative() || self.zero())
    }

    /// The sample 1.0.
    pub open spec fn unity() -> Sample {
        Sample { bits: ONE_BITS }
    }

    /// The sample +0.0.
    pub open spec fn silence() -> Sample {
        Sample { bits: ZERO_BITS }
    }

    /// The sample itself where it is a number with a clear sign bit, +0.0
    /// otherwise: for negative numbers, for -0.0 and for NaN.
    pub open spec fn clamped(self) -> Sample {
        if self.nan() || self.sign_negative() {
            Sample::silence()
        } else {
            self
        }
    }

    /// The product of two samples, rounded to nearest, ties to even.
    ///
    /// NaN operands and infinity times zero give the quiet NaN `NAN_BITS`.
    /// Otherwise the sign is the exclusive or of the signs, infinity times
    /// anything is infinity, and the exact product of the two magnitudes is
    /// rounded, overflowing to infinity.
    pub open spec fn product(self, rhs: Sample) -> Sample {
        if self.nan() || rhs.nan() || (self.infinite() && rhs.zero()) || (self.zero()
            && rhs.infinite()) {
            Sample { bits: NAN_BITS }
        } else {
            let sign: nat = if self.sign_negative() != rhs.sign_negative() {
                SIGN_BIT as nat
            } else {
                0
            };
            let magnitude = if self.infinite() || rhs.infinite() {
                INFINITY_BITS as nat
            } else {
                rounded_magnitude(scaled(self.magnitude()) * scaled(rhs.magnitude()))
            };
            Sample { bits: (sign + magnitude) as u32 }
        }
    }

    pub fn from_bits(bits: u32) -> (r: Sample)
        ensures
            r.bits == bits,
    {
        Sample { bits }
    }

    pub fn to_bits(self) -> (r: u32)
        ensures
            r == self.bits,
    {
        self.bits
    }

    pub fn is_nan(self) -> (r: bool)
        ensures
            r == self.nan(),
    {
        self.bits % SIGN_BIT > INFINITY_BITS
    }

    pub fn is_sign_negative(self) -> (r: bool)
        ensures
            r == self.sign_negative(),
    {
        self.bits >= SIGN_BIT
    }

    /// Clamps at zero from below.
    pub fn non_negative(self) -> (r: Sample)
        ensures
            r == self.clamped(),
            r.at_least_zero(),
            !r.sign_negative(),
    {
        if self.is_nan() || self.is_sign_negative() {
            Sample { bits: ZERO_BITS }
        } else {
            self
        }
    }

    /// Multiplies two samples.
    pub fn times(self, rhs: Sample) -> (r: Sample)
        ensures
            r == self.product(rhs),
    {
        let a: u32 = self.bits % SIGN_BIT;
        let b: u32 = rhs.bits % SIGN_BIT;
        let sign: u32 = if (self.bits >= SIGN_BIT) != (rhs.bits >= SIGN_BIT) {
            SIGN_BIT
        } else {
            0
        };
        if a > INFINITY_BITS || b > INFINITY_BITS {
            return Sample { bits: NAN_BITS };
        }
        if a == INFINITY_BITS || b == INFINITY_BITS {
            if a == 0 || b == 0 {
                return Sample { bits: NAN_BITS };
            }
            return Sample { bits: sign + INFINITY_BITS };
        }
        if a == 0 || b == 0 {
            proof {
                assert(scaled(a as nat) * scaled(b as nat) == 0) by (nonlinear_arith)
                    requires
                        scaled(a as nat) == 0 || scaled(b as nat) == 0,
                ;
                lemma_rounded_zero();
            }
            return Sample { bits: sign };
        }
        let (sa, xa) = split(a);
        let (sb, xb) = split(b);
        proof {
            lemma_scaled_split(a as nat);
            lemma_scaled_split(b as nat);
            assert(0 < sa * sb < 0x1_0000_0000_0000) by (nonlinear_arith)
                requires
                    0 < sa < 0x100_0000,
                    0 < sb < 0x100_0000,
            ;
        }
        let m: u64 = (sa as u64) * (sb as u64);
        let s: u32 = xa + xb - 2;
        proof {
            lemma_pow2_adds((xa - 1) as nat, (xb - 1) as nat);
            let ghost ua = pow2((xa - 1) as nat);
            let ghost ub = pow2((xb - 1) as nat);
            assert((sa * ua) * (sb * ub) == (sa * sb) * (ua * ub)) by (nonlinear_arith);
        }
        let magnitude: u32 = round_product(m, s);
        Sample { bits: sign + magnitude }
    }
}

/// Splits a finite magnitude into its significand, hidden bit included, and
/// the exponent field that gives its spacing (1 for subnormals).
fn split(m: u32) -> (r: (u32, u32))
    requires
        m < 0x7f80_0000,
    ensures
        r.0 == significand(m as nat),
        r.1 == spacing(m as nat),
{
    let e: u32 = m / 0x80_0000;
    let f: u32 = m % 0x80_0000;
    if e == 0 {
        (f, 1)
    } else {
        (f + 0x80_0000, e)
    }
}

/// The order of the factors does not matter.
pub proof fn lemma_product_commutes(a: Sample, b: Sample)
    ensures
        a.product(b) == b.product(a),
{
    assert(scaled(a.magnitude()) * scaled(b.magnitude()) == scaled(b.magnitude()) * scaled(
        a.magnitude(),
    )) by (nonlinear_arith);
}

/// Multiplying a number by 1.0 gives back its very pattern; a NaN stays a NaN.
pub proof fn lemma_product_by_one(a: Sample)
    ensures
        !a.nan() ==> a.product(Sample::unity()) == a,
        a.nan() ==> a.product(Sample::unity()).nan(),
{
    lemma2_to64();
    lemma_pow2_adds(23, 126);
    assert(scaled(ONE_BITS as nat) == pow2(149));
    if a.finite() {
        lemma_rounded_exact(a.magnitude());
    }
}

/// Multiplying a finite number by +0.0 gives a zero with the number's sign.
pub proof fn lemma_product_by_zero(a: Sample)
    requires
        a.finite(),
    ensures
        a.product(Sample::silence()) == (Sample {
            bits: if a.sign_negative() {
                SIGN_BIT
            } else {
                ZERO_BITS
            },
        }),
{
    assert(scaled(a.magnitude()) * scaled(0) == 0) by (nonlinear_arith)
        requires
            scaled(0) == 0,
    ;
    lemma_rounded_zero();
}

} // verus!
