//! IEEE 754 binary numbers, held as their interchange bit patterns, so that
//! every strength, weight and score in this crate has an exact meaning.

use vstd::prelude::*;
use vstd::arithmetic::power2::*;
use vstd::arithmetic::div_mod::*;
use vstd::arithmetic::mul::*;
use crate::datum::{
    Datum, add_datum, div_datum, inf_bits, int_datum, mul_datum, nan_datum, scale_bits, sqrt_datum, unpack,
};
use crate::format::{two_to, pack, Format};

verus! {

/// A double precision number.
#[derive(Clone, Copy, PartialEq, Eq, Structural, Debug)]
pub struct Binary64 {
    pub bits: u64,
}

/// The format of [`Binary64`].
pub open spec fn binary64() -> Format {
    Format { frac: 52, top: 2047 }
}

impl Binary64 {
    pub open spec fn datum(self) -> Datum {
        Datum {
            neg: self.bits >= 0x8000000000000000,
            mag: (if self.bits >= 0x8000000000000000 {
                self.bits - 0x8000000000000000
            } else {
                self.bits as int
            }) as u64,
        }
    }

    /// The number with the given sign and magnitude bits.
    pub open spec fn of(d: Datum) -> Binary64 {
        Binary64 {
            bits: (d.mag + if d.neg {
                0x8000000000000000int
            } else {
                0
            }) as u64,
        }
    }

    pub open spec fn is_nan(self) -> bool {
        self.datum().is_nan(binary64())
    }

    /// `self < other`.
    pub open spec fn below(self, other: Binary64) -> bool {
        !self.is_nan() && !other.is_nan() && self.datum().rank() < other.datum().rank()
    }

    /// `self >= other`.
    pub open spec fn at_least(self, other: Binary64) -> bool {
        !self.is_nan() && !other.is_nan() && self.datum().rank() >= other.datum().rank()
    }

    /// `self + other`.
    pub open spec fn plus(self, other: Binary64) -> Binary64 {
        Self::of(crate::datum::sum(binary64(), self.datum(), other.datum()))
    }

    /// `self * other`.
    pub open spec fn times(self, other: Binary64) -> Binary64 {
        Self::of(crate::datum::product(binary64(), self.datum(), other.datum()))
    }

    /// `self / other`.
    pub open spec fn over(self, other: Binary64) -> Binary64 {
        Self::of(crate::datum::quotient(binary64(), self.datum(), other.datum()))
    }

    fn to_datum(self) -> (d: Datum)
        ensures
            d == self.datum(),
            Self::of(d) == self,
    {
        if self.bits >= 0x8000000000000000 {
            Datum { neg: true, mag: (self.bits - 0x8000000000000000) as u64 }
        } else {
            Datum { neg: false, mag: self.bits as u64 }
        }
    }

    fn from_datum(d: Datum) -> (r: Binary64)
        requires
            d.mag < 0x8000000000000000,
        ensures
            r == Self::of(d),
            r.datum() == d,
    {
        if d.neg {
            Binary64 { bits: d.mag as u64 + 0x8000000000000000 }
        } else {
            Binary64 { bits: d.mag as u64 }
        }
    }

    /// Whether `self < other`.
    pub fn lt(self, other: Binary64) -> (r: bool)
        ensures
            r == self.below(other),
    {
        let f = Format { frac: 52, top: 2047 };
        let inf = inf_bits(f);
        let a = self.to_datum();
        let b = other.to_datum();
        if a.mag > inf || b.mag > inf {
            return false;
        }
        if a.neg {
            if b.neg {
                a.mag > b.mag
            } else {
                a.mag > 0 || b.mag > 0
            }
        } else {
            if b.neg {
                false
            } else {
                a.mag < b.mag
            }
        }
    }

    /// Whether `self >= other`.
    pub fn ge(self, other: Binary64) -> (r: bool)
        ensures
            r == self.at_least(other),
    {
        if self.nan() || other.nan() {
            false
        } else {
            !self.lt(other)
        }
    }

    /// Whether the number is a NaN.
    pub fn nan(self) -> (r: bool)
        ensures
            r == self.is_nan(),
    {
        let f = Format { frac: 52, top: 2047 };
        self.to_datum().mag > inf_bits(f)
    }

    /// `self + other`.
    pub fn add(self, other: Binary64) -> (r: Binary64)
        ensures
            r == self.plus(other),
    {
        let f = Format { frac: 52, top: 2047 };
        proof {
            crate::datum::lemma_quiet_nan(f);
        }
        Self::from_datum(add_datum(f, self.to_datum(), other.to_datum()))
    }

    /// `self * other`.
    pub fn mul(self, other: Binary64) -> (r: Binary64)
        ensures
            r == self.times(other),
    {
        let f = Format { frac: 52, top: 2047 };
        proof {
            crate::datum::lemma_quiet_nan(f);
        }
        Self::from_datum(mul_datum(f, self.to_datum(), other.to_datum()))
    }

    /// `self / other`.
    pub fn div(self, other: Binary64) -> (r: Binary64)
        ensures
            r == self.over(other),
    {
        let f = Format { frac: 52, top: 2047 };
        proof {
            crate::datum::lemma_quiet_nan(f);
        }
        Self::from_datum(div_datum(f, self.to_datum(), other.to_datum()))
    }

    /// `-self`.
    pub open spec fn negated(self) -> Binary64 {
        let d = self.datum();
        Self::of(Datum { neg: !d.neg, mag: d.mag })
    }

    /// `self - other`.
    pub open spec fn minus(self, other: Binary64) -> Binary64 {
        self.plus(other.negated())
    }

    /// The greater of two numbers, or the one that is not a NaN.
    pub open spec fn greater(self, other: Binary64) -> Binary64 {
        if self.is_nan() || self.below(other) {
            other
        } else {
            self
        }
    }

    /// The lesser of two numbers, or the one that is not a NaN.
    pub open spec fn lesser(self, other: Binary64) -> Binary64 {
        if self.is_nan() || other.below(self) {
            other
        } else {
            self
        }
    }

    /// `self`, moved into `lo..=hi`. A NaN stays.
    pub open spec fn within(self, lo: Binary64, hi: Binary64) -> Binary64 {
        if self.below(lo) {
            lo
        } else if hi.below(self) {
            hi
        } else {
            self
        }
    }

    /// The number nearest to an integer.
    pub open spec fn of_int(n: int) -> Binary64 {
        Self::of(crate::datum::from_int(binary64(), n))
    }

    /// The integer part, towards zero, kept within 32 bits; 0 for a NaN.
    pub open spec fn to_int32(self) -> int {
        let d = self.datum();
        let t = crate::datum::truncate(binary64(), d);
        if self.is_nan() {
            0
        } else if d.is_inf(binary64()) {
            if d.neg {
                i32::MIN as int
            } else {
                i32::MAX as int
            }
        } else if t < i32::MIN {
            i32::MIN as int
        } else if t > i32::MAX {
            i32::MAX as int
        } else {
            t
        }
    }

    /// `-self`.
    pub fn negate(self) -> (r: Binary64)
        ensures
            r == self.negated(),
    {
        let d = self.to_datum();
        Self::from_datum(Datum { neg: !d.neg, mag: d.mag })
    }

    /// `self - other`.
    pub fn sub(self, other: Binary64) -> (r: Binary64)
        ensures
            r == self.minus(other),
    {
        self.add(other.negate())
    }

    /// The greater of two numbers, or the one that is not a NaN.
    pub fn max(self, other: Binary64) -> (r: Binary64)
        ensures
            r == self.greater(other),
    {
        if self.nan() || self.lt(other) {
            other
        } else {
            self
        }
    }

    /// The lesser of two numbers, or the one that is not a NaN.
    pub fn min(self, other: Binary64) -> (r: Binary64)
        ensures
            r == self.lesser(other),
    {
        if self.nan() || other.lt(self) {
            other
        } else {
            self
        }
    }

    /// `self`, moved into `lo..=hi`. A NaN stays.
    pub fn clamp(self, lo: Binary64, hi: Binary64) -> (r: Binary64)
        ensures
            r == self.within(lo, hi),
    {
        if self.lt(lo) {
            lo
        } else if hi.lt(self) {
            hi
        } else {
            self
        }
    }

    /// The number nearest to an integer.
    pub fn from_int(n: i128) -> (r: Binary64)
        requires
            -0x40000000000000000 <= n <= 0x40000000000000000,
        ensures
            r == Self::of_int(n as int),
    {
        let f = Format { frac: 52, top: 2047 };
        proof {
            crate::datum::lemma_quiet_nan(f);
        }
        Self::from_datum(int_datum(f, n))
    }

    /// The integer part, towards zero, kept within 32 bits; 0 for a NaN.
    pub fn to_i32(self) -> (r: i32)
        ensures
            r == self.to_int32(),
    {
        let f = Format { frac: 52, top: 2047 };
        let inf = inf_bits(f);
        let d = self.to_datum();
        if d.mag > inf {
            return 0;
        }
        if d.mag == inf {
            return if d.neg {
                i32::MIN
            } else {
                i32::MAX
            };
        }
        let (m, s) = unpack(f, d.mag);
        let t: u128;
        proof {
            crate::format::lemma_bound_120();
            lemma2_to64();
            crate::format::lemma_inf(f);
        }
        if s >= 1074 {
            let g: u64 = s - 1074;
            proof {
                assert(crate::format::up(f.scale() - s) == 1);
                assert(crate::format::up(s - f.scale()) == pow2(g as nat));
                crate::datum::lemma_basic_div_by_one(m as nat * pow2(g as nat));
                lemma_pow2_pos(g as nat);
            }
            if g > 40 {
                proof {
                    crate::format::lemma_pow2_monotone(40, g as nat);
                    lemma2_to64_rest();
                    let w = pow2(g as nat);
                    assert(m * w >= w) by (nonlinear_arith)
                        requires
                            m >= 1,
                            w > 0,
                    ;
                }
                return if d.neg {
                    i32::MIN
                } else {
                    i32::MAX
                };
            }
            let w = two_to(g as u32);
            proof {
                crate::format::lemma_pow2_monotone(g as nat, 40);
                lemma2_to64_rest();
                assert(m * w <= 0x20000000000000 * 0x10000000000) by (nonlinear_arith)
                    requires
                        0 <= m < 0x20000000000000,
                        0 <= w <= 0x10000000000,
                ;
            }
            t = m as u128 * w;
        } else {
            let g: u64 = 1074 - s;
            proof {
                assert(crate::format::up(s - f.scale()) == 1);
                assert(m * 1 == m);
            }
            if g > 60 {
                proof {
                    crate::format::lemma_pow2_monotone(60, g as nat);
                    lemma_basic_div(m as int, pow2(g as nat) as int);
                }
                t = 0;
            } else {
                let w = two_to(g as u32);
                t = m as u128 / w;
            }
        }
        if d.neg {
            if t > 0x80000000 {
                i32::MIN
            } else {
                (0 - t as i64) as i32
            }
        } else if t > 0x7fffffff {
            i32::MAX
        } else {
            t as i32
        }
    }
}

/// A single precision number.
#[derive(Clone, Copy, PartialEq, Eq, Structural, Debug)]
pub struct Binary32 {
    pub bits: u32,
}

/// The format of [`Binary32`].
pub open spec fn binary32() -> Format {
    Format { frac: 23, top: 255 }
}

impl Binary32 {
    pub open spec fn datum(self) -> Datum {
        Datum {
            neg: self.bits >= 0x80000000,
            mag: (if self.bits >= 0x80000000 {
                self.bits - 0x80000000
            } else {
                self.bits as int
            }) as u64,
        }
    }

    /// The number with the given sign and magnitude bits.
    pub open spec fn of(d: Datum) -> Binary32 {
        Binary32 {
            bits: (d.mag + if d.neg {
                0x80000000int
            } else {
                0
            }) as u32,
        }
    }

    pub open spec fn is_nan(self) -> bool {
        self.datum().is_nan(binary32())
    }

    /// `self < other`.
    pub open spec fn below(self, other: Binary32) -> bool {
        !self.is_nan() && !other.is_nan() && self.datum().rank() < other.datum().rank()
    }

    /// `self >= other`.
    pub open spec fn at_least(self, other: Binary32) -> bool {
        !self.is_nan() && !other.is_nan() && self.datum().rank() >= other.datum().rank()
    }

    /// `self + other`.
    pub open spec fn plus(self, other: Binary32) -> Binary32 {
        Self::of(crate::datum::sum(binary32(), self.datum(), other.datum()))
    }

    /// `self * other`.
    pub open spec fn times(self, other: Binary32) -> Binary32 {
        Self::of(crate::datum::product(binary32(), self.datum(), other.datum()))
    }

    /// `self / other`.
    pub open spec fn over(self, other: Binary32) -> Binary32 {
        Self::of(crate::datum::quotient(binary32(), self.datum(), other.datum()))
    }

    fn to_datum(self) -> (d: Datum)
        ensures
            d == self.datum(),
            Self::of(d) == self,
    {
        if self.bits >= 0x80000000 {
            Datum { neg: true, mag: (self.bits - 0x80000000) as u64 }
        } else {
            Datum { neg: false, mag: self.bits as u64 }
        }
    }

    fn from_datum(d: Datum) -> (r: Binary32)
        requires
            d.mag < 0x80000000,
        ensures
            r == Self::of(d),
            r.datum() == d,
    {
        if d.neg {
            Binary32 { bits: d.mag as u32 + 0x80000000 }
        } else {
            Binary32 { bits: d.mag as u32 }
        }
    }

    /// Whether `self < other`.
    pub fn lt(self, other: Binary32) -> (r: bool)
        ensures
            r == self.below(other),
    {
        let f = Format { frac: 23, top: 255 };
        let inf = inf_bits(f);
        let a = self.to_datum();
        let b = other.to_datum();
        if a.mag > inf || b.mag > inf {
            return false;
        }
        if a.neg {
            if b.neg {
                a.mag > b.mag
            } else {
                a.mag > 0 || b.mag > 0
            }
        } else {
            if b.neg {
                false
            } else {
                a.mag < b.mag
            }
        }
    }

    /// Whether `self >= other`.
    pub fn ge(self, other: Binary32) -> (r: bool)
        ensures
            r == self.at_least(other),
    {
        if self.nan() || other.nan() {
            false
        } else {
            !self.lt(other)
        }
    }

    /// Whether the number is a NaN.
    pub fn nan(self) -> (r: bool)
        ensures
            r == self.is_nan(),
    {
        let f = Format { frac: 23, top: 255 };
        self.to_datum().mag > inf_bits(f)
    }

    /// `self + other`.
    pub fn add(self, other: Binary32) -> (r: Binary32)
        ensures
            r == self.plus(other),
    {
        let f = Format { frac: 23, top: 255 };
        proof {
            crate::datum::lemma_quiet_nan(f);
        }
        Self::from_datum(add_datum(f, self.to_datum(), other.to_datum()))
    }

    /// `self * other`.
    pub fn mul(self, other: Binary32) -> (r: Binary32)
        ensures
            r == self.times(other),
    {
        let f = Format { frac: 23, top: 255 };
        proof {
            crate::datum::lemma_quiet_nan(f);
        }
        Self::from_datum(mul_datum(f, self.to_datum(), other.to_datum()))
    }

    /// `self / other`.
    pub fn div(self, other: Binary32) -> (r: Binary32)
        ensures
            r == self.over(other),
    {
        let f = Format { frac: 23, top: 255 };
        proof {
            crate::datum::lemma_quiet_nan(f);
        }
        Self::from_datum(div_datum(f, self.to_datum(), other.to_datum()))
    }

    /// The place of the number in the order of all numbers.
    pub fn rank(self) -> (r: i64)
        ensures
            r == self.datum().rank(),
    {
        let d = self.to_datum();
        if d.neg {
            -(d.mag as i64)
        } else {
            d.mag as i64
        }
    }

    /// The square root of `self`.
    pub open spec fn root(self) -> Binary32 {
        Self::of(crate::datum::root(binary32(), self.datum()))
    }

    /// The square root of `self`.
    pub fn sqrt(self) -> (r: Binary32)
        ensures
            r == self.root(),
    {
        let f = Format { frac: 23, top: 255 };
        proof {
            crate::datum::lemma_quiet_nan(f);
        }
        Self::from_datum(sqrt_datum(f, self.to_datum()))
    }
}

impl Binary64 {
    /// The single precision number nearest to this one.
    pub open spec fn narrowed(self) -> Binary32 {
        let f = binary64();
        let g = binary32();
        let d = self.datum();
        if d.is_nan(f) {
            Binary32::of(crate::datum::quiet_nan(g))
        } else if d.is_inf(f) {
            Binary32::of(crate::datum::infinity(g, d.neg))
        } else {
            Binary32::of(
                Datum {
                    neg: d.neg,
                    mag: crate::format::round(
                        g,
                        f.mant(d.mag as nat),
                        1,
                        d.exponent(f) - f.scale() + g.scale(),
                    ) as u64,
                },
            )
        }
    }

    /// The single precision number nearest to this one.
    pub fn narrow(self) -> (r: Binary32)
        ensures
            r == self.narrowed(),
    {
        let f = Format { frac: 52, top: 2047 };
        let g = Format { frac: 23, top: 255 };
        proof {
            crate::datum::lemma_quiet_nan(f);
            crate::datum::lemma_quiet_nan(g);
            crate::format::lemma_bound_120();
            crate::format::lemma_pow2_monotone(53, 120);
        }
        let inf = inf_bits(f);
        let d = self.to_datum();
        if d.mag > inf {
            return Binary32::from_datum(nan_datum(g));
        }
        if d.mag == inf {
            return Binary32::from_datum(Datum { neg: d.neg, mag: inf_bits(g) });
        }
        let (m, s) = unpack(f, d.mag);
        proof {
            crate::datum::lemma_basic_div_by_one(m as nat);
        }
        let e: i64 = s as i64 - scale_bits(f) + scale_bits(g);
        let mag = pack(g, m as u128, e, false, Ghost(m as nat), Ghost(1));
        Binary32::from_datum(Datum { neg: d.neg, mag })
    }
}

} // verus!
