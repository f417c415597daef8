//! Numbers of a format as sign and magnitude, and arithmetic on them.
//!
//! Arithmetic is carried out on integers, and its results are rounded once.

use vstd::prelude::*;
use vstd::arithmetic::power2::*;
use vstd::arithmetic::div_mod::*;
use vstd::arithmetic::mul::*;
use crate::format::{two_to, bit_length, pack, Format};

verus! {

/// A number of some format: its sign and its magnitude bits.
#[derive(Clone, Copy, PartialEq, Eq, Structural, Debug)]
pub struct Datum {
    pub neg: bool,
    pub mag: u64,
}

impl Datum {
    pub open spec fn is_nan(self, f: Format) -> bool {
        self.mag > f.inf()
    }

    pub open spec fn is_inf(self, f: Format) -> bool {
        self.mag == f.inf()
    }

    /// Orders all numbers that are not NaN; the two zeros are alike.
    pub open spec fn rank(self) -> int {
        if self.neg {
            -(self.mag as int)
        } else {
            self.mag as int
        }
    }

    /// Significand with the sign of the number.
    pub open spec fn signed_mant(self, f: Format) -> int {
        if self.neg {
            -(f.mant(self.mag as nat) as int)
        } else {
            f.mant(self.mag as nat) as int
        }
    }

    pub open spec fn exponent(self, f: Format) -> nat {
        f.shift(self.mag as nat)
    }
}

/// The quiet NaN that stands for every undefined result.
pub open spec fn quiet_nan(f: Format) -> Datum {
    Datum { neg: false, mag: (f.inf() + pow2((f.frac - 1) as nat)) as u64 }
}

pub open spec fn infinity(f: Format, neg: bool) -> Datum {
    Datum { neg, mag: f.inf() as u64 }
}

pub open spec fn zero(neg: bool) -> Datum {
    Datum { neg, mag: 0 }
}

/// The exact sum of two finite numbers, in steps of the smaller exponent.
pub open spec fn exact_sum(f: Format, a: Datum, b: Datum) -> int {
    let lo = min_exponent(f, a, b);
    a.signed_mant(f) * pow2((a.exponent(f) - lo) as nat) + b.signed_mant(f) * pow2(
        (b.exponent(f) - lo) as nat,
    )
}

pub open spec fn min_exponent(f: Format, a: Datum, b: Datum) -> nat {
    if a.exponent(f) <= b.exponent(f) {
        a.exponent(f)
    } else {
        b.exponent(f)
    }
}

pub open spec fn abs(x: int) -> nat {
    if x < 0 {
        (-x) as nat
    } else {
        x as nat
    }
}

/// Addition, rounded to nearest.
pub open spec fn sum(f: Format, a: Datum, b: Datum) -> Datum {
    if a.is_nan(f) || b.is_nan(f) {
        quiet_nan(f)
    } else if a.is_inf(f) {
        if b.is_inf(f) && a.neg != b.neg {
            quiet_nan(f)
        } else {
            a
        }
    } else if b.is_inf(f) {
        b
    } else {
        let x = exact_sum(f, a, b);
        if x == 0 {
            zero(a.neg && b.neg)
        } else {
            Datum { neg: x < 0, mag: crate::format::round(f, abs(x), 1, min_exponent(f, a, b) as int) as u64 }
        }
    }
}

/// Multiplication, rounded to nearest.
pub open spec fn product(f: Format, a: Datum, b: Datum) -> Datum {
    let neg = a.neg != b.neg;
    if a.is_nan(f) || b.is_nan(f) {
        quiet_nan(f)
    } else if a.is_inf(f) || b.is_inf(f) {
        if a.mag == 0 || b.mag == 0 {
            quiet_nan(f)
        } else {
            infinity(f, neg)
        }
    } else {
        Datum {
            neg,
            mag: crate::format::round(
                f,
                f.mant(a.mag as nat) * f.mant(b.mag as nat),
                1,
                a.exponent(f) + b.exponent(f) - f.scale(),
            ) as u64,
        }
    }
}

/// Division, rounded to nearest.
pub open spec fn quotient(f: Format, a: Datum, b: Datum) -> Datum {
    let neg = a.neg != b.neg;
    if a.is_nan(f) || b.is_nan(f) {
        quiet_nan(f)
    } else if a.is_inf(f) {
        if b.is_inf(f) {
            quiet_nan(f)
        } else {
            infinity(f, neg)
        }
    } else if b.is_inf(f) {
        zero(neg)
    } else if b.mag == 0 {
        if a.mag == 0 {
            quiet_nan(f)
        } else {
            infinity(f, neg)
        }
    } else {
        Datum {
            neg,
            mag: crate::format::round(
                f,
                f.mant(a.mag as nat),
                f.mant(b.mag as nat),
                a.exponent(f) - b.exponent(f) + f.scale(),
            ) as u64,
        }
    }
}

/// The number nearest to the integer `n`.
pub open spec fn from_int(f: Format, n: int) -> Datum {
    Datum { neg: n < 0, mag: crate::format::round(f, abs(n), 1, f.scale() as int) as u64 }
}

/// The integer part of a finite number, towards zero.
pub open spec fn truncate(f: Format, a: Datum) -> int {
    let m = f.mant(a.mag as nat) * crate::format::up(a.exponent(f) - f.scale()) / crate::format::up(f.scale() - a.exponent(f));
    if a.neg {
        -(m as int)
    } else {
        m as int
    }
}

/// Significand and exponent of a finite magnitude.
pub(crate) fn unpack(f: Format, mag: u64) -> (r: (u64, u64))
    requires
        f.wf(),
        mag < f.inf(),
    ensures
        r.0 == f.mant(mag as nat),
        r.1 == f.shift(mag as nat),
        r.0 < pow2((f.frac + 1) as nat),
        r.0 < pow2(53),
        r.1 <= 2045,
        r.1 > 0 ==> r.0 >= pow2(f.frac as nat),
        r.0 == 0 <==> mag == 0,
{
    proof {
        crate::format::lemma_bound_120();
    }
    let unit: u64 = two_to(f.frac) as u64;
    let field: u64 = mag / unit;
    let rest: u64 = mag % unit;
    proof {
        lemma_fundamental_div_mod(mag as int, unit as int);
        assert(field < f.top) by (nonlinear_arith)
            requires
                mag < f.top * unit,
                mag >= unit * field,
                unit > 0,
        ;
        if field == 0 {
            assert(unit * field == 0) by (nonlinear_arith)
                requires
                    field == 0,
            ;
        } else {
            assert(unit * field > 0) by (nonlinear_arith)
                requires
                    field > 0,
                    unit > 0,
            ;
        }
    }
    if field == 0 {
        (rest, 0)
    } else {
        (rest + unit, field - 1)
    }
}

/// Computes [`sum`] of two finite numbers of which `a` has the larger exponent.
fn add_ordered(f: Format, a: Datum, b: Datum) -> (r: Datum)
    requires
        f.wf(),
        a.mag < f.inf(),
        b.mag < f.inf(),
        a.exponent(f) >= b.exponent(f),
    ensures
        r == sum(f, a, b),
        r.mag <= f.inf(),
{
    let (ma, sa) = unpack(f, a.mag);
    let (mb, sb) = unpack(f, b.mag);
    let gap: u64 = sa - sb;
    let ghost x = exact_sum(f, a, b);
    proof {
        crate::format::lemma_inf(f);
        crate::format::lemma_bound_120();
        lemma2_to64();
        assert(min_exponent(f, a, b) == sb);
        assert(pow2(0) == 1);
        assert(b.signed_mant(f) * 1 == b.signed_mant(f));
        assert(x == a.signed_mant(f) * pow2(gap as nat) + b.signed_mant(f));
        let g = pow2(gap as nat);
        let na = ma as int * g;
        assert((-(ma as int)) * g == -na) by (nonlinear_arith)
            requires
                na == ma as int * g,
        ;
        assert(a.signed_mant(f) * g == if a.neg {
            -na
        } else {
            na
        });
        lemma_pow2_pos(gap as nat);
        assert(na >= 0) by (nonlinear_arith)
            requires
                na == ma as int * g,
                ma >= 0,
                g > 0,
        ;
    }
    if gap <= 64 {
        let g = two_to(gap as u32);
        proof {
            lemma_pow2_adds(53, 64);
            lemma_pow2_adds(117, 3);
            crate::format::lemma_pow2_monotone(gap as nat, 64);
            assert(ma * g <= pow2(53) * pow2(64)) by (nonlinear_arith)
                requires
                    ma < pow2(53),
                    g <= pow2(64),
                    g > 0,
            ;
        }
        let big: u128 = ma as u128 * g;
        let small: u128 = mb as u128;
        let m: u128;
        let neg: bool;
        if a.neg == b.neg {
            m = big + small;
            neg = a.neg;
        } else if big >= small {
            m = big - small;
            neg = a.neg;
        } else {
            m = small - big;
            neg = b.neg;
        }
        assert(m == abs(x));
        if m == 0 {
            return Datum { neg: a.neg && b.neg, mag: 0 };
        }
        assert(neg == (x < 0));
        proof {
            lemma_basic_div_by_one(m as nat);
        }
        let mag = pack(f, m, sb as i64, false, Ghost(m as nat), Ghost(1));
        Datum { neg, mag }
    } else {
        let j: u64 = gap - 64;
        let ghost w = pow2(j as nat);
        let base: u128 = ma as u128 * two_to(64);
        let q: u64;
        let left: bool;
        if j > 60 {
            proof {
                crate::format::lemma_pow2_monotone(60, j as nat);
                crate::format::lemma_pow2_monotone(53, 60);
                lemma_small_mod(mb as nat, w);
                lemma_basic_div(mb as int, w as int);
            }
            q = 0;
            left = mb != 0;
        } else {
            let wj: u64 = two_to(j as u32) as u64;
            proof {
                crate::format::lemma_pow2_monotone(j as nat, 60);
            }
            q = mb / wj;
            left = mb % wj != 0;
        }
        proof {
            lemma_pow2_pos(j as nat);
            lemma_fundamental_div_mod(mb as int, w as int);
            assert(q <= mb) by (nonlinear_arith)
                requires
                    mb >= w * q,
                    w >= 1,
                    q >= 0,
            ;
            lemma_pow2_adds(53, 64);
            lemma_pow2_adds(117, 3);
            lemma_pow2_adds(f.frac as nat, 64);
            assert(pow2(64) == 0x10000000000000000);
            assert(base < pow2(117)) by (nonlinear_arith)
                requires
                    base == ma * pow2(64),
                    ma < pow2(53),
                    pow2(53) * pow2(64) == pow2(117),
                    pow2(64) > 0,
            ;
            assert(base >= pow2((f.frac + 64) as nat)) by (nonlinear_arith)
                requires
                    base == ma * pow2(64),
                    ma >= pow2(f.frac as nat),
                    pow2(f.frac as nat) * pow2(64) == pow2((f.frac + 64) as nat),
            ;
            crate::format::lemma_pow2_monotone((23 + 64) as nat, (f.frac + 64) as nat);
            lemma_pow2_adds(64, 23);
            crate::format::lemma_pow2_monotone((f.frac + 2) as nat, 54);
        }
        let m: u128;
        if a.neg == b.neg {
            m = base + q as u128;
        } else if left {
            m = base - q as u128 - 1;
        } else {
            m = base - q as u128;
        }
        proof {
            let n = abs(x);
            lemma_pow2_adds(64, j as nat);
            assert(ma as int * pow2(gap as nat) == base * w) by (nonlinear_arith)
                requires
                    base == ma * pow2(64),
                    pow2(gap as nat) == pow2(64) * w,
            ;
            let rho = mb as int % w as int;
            assert(mb == w * q + rho);
            assert(base * w > mb) by (nonlinear_arith)
                requires
                    base > mb,
                    w >= 1,
            ;
            if a.neg == b.neg {
                assert(n == base * w + mb);
                assert(n == m * w + rho) by (nonlinear_arith)
                    requires
                        n == base * w + mb,
                        mb == w * q + rho,
                        m == base + q,
                ;
                lemma_fundamental_div_mod_converse(n as int, w as int, m as int, rho);
            } else {
                assert(n == base * w - mb);
                if left {
                    assert(n == m * w + (w - rho)) by (nonlinear_arith)
                        requires
                            n == base * w - mb,
                            mb == w * q + rho,
                            m == base - q - 1,
                    ;
                    lemma_fundamental_div_mod_converse(n as int, w as int, m as int, w - rho);
                } else {
                    assert(n == m * w) by (nonlinear_arith)
                        requires
                            n == base * w - mb,
                            mb == w * q,
                            m == base - q,
                    ;
                    lemma_fundamental_div_mod_converse(n as int, w as int, m as int, 0);
                }
            }
            crate::format::lemma_round_rescale(f, n, 1, sb as int, j as nat);
            assert(1 * w == w);
        }
        let mag = pack(f, m, sb as i64 + j as i64, left, Ghost(abs(x)), Ghost(w));
        Datum { neg: a.neg, mag }
    }
}

pub(crate) proof fn lemma_basic_div_by_one(n: nat)
    ensures
        n / 1 == n,
        n % 1 == 0,
{
}

proof fn lemma_sum_commutes(f: Format, a: Datum, b: Datum)
    requires
        a.mag < f.inf(),
        b.mag < f.inf(),
    ensures
        sum(f, a, b) == sum(f, b, a),
{
}

/// Computes [`sum`].
pub(crate) fn add_datum(f: Format, a: Datum, b: Datum) -> (r: Datum)
    requires
        f.wf(),
    ensures
        r == sum(f, a, b),
        r.mag <= f.inf() || r == quiet_nan(f),
{
    let inf = inf_bits(f);
    if a.mag > inf || b.mag > inf {
        return nan_datum(f);
    }
    if a.mag == inf {
        if b.mag == inf && a.neg != b.neg {
            return nan_datum(f);
        }
        return a;
    }
    if b.mag == inf {
        return b;
    }
    let (_ma, sa) = unpack(f, a.mag);
    let (_mb, sb) = unpack(f, b.mag);
    if sa >= sb {
        add_ordered(f, a, b)
    } else {
        proof {
            lemma_sum_commutes(f, a, b);
        }
        add_ordered(f, b, a)
    }
}

pub(crate) fn inf_bits(f: Format) -> (r: u64)
    requires
        f.wf(),
    ensures
        r == f.inf(),
{
    proof {
        crate::format::lemma_inf(f);
    }
    if f.frac == 52 {
        0x7ff0000000000000
    } else {
        0x7f800000
    }
}

pub(crate) fn nan_datum(f: Format) -> (r: Datum)
    requires
        f.wf(),
    ensures
        r == quiet_nan(f),
{
    proof {
        crate::format::lemma_inf(f);
        lemma2_to64();
        lemma2_to64_rest();
    }
    if f.frac == 52 {
        Datum { neg: false, mag: 0x7ff8000000000000 }
    } else {
        Datum { neg: false, mag: 0x7fc00000 }
    }
}

pub(crate) fn scale_bits(f: Format) -> (r: i64)
    requires
        f.wf(),
    ensures
        r == f.scale(),
        0 <= r <= 1074,
{
    if f.frac == 52 {
        1074
    } else {
        149
    }
}

/// Computes [`product`].
pub(crate) fn mul_datum(f: Format, a: Datum, b: Datum) -> (r: Datum)
    requires
        f.wf(),
    ensures
        r == product(f, a, b),
        r.mag <= f.inf() || r == quiet_nan(f),
{
    let inf = inf_bits(f);
    let neg = a.neg != b.neg;
    if a.mag > inf || b.mag > inf {
        return nan_datum(f);
    }
    if a.mag == inf || b.mag == inf {
        if a.mag == 0 || b.mag == 0 {
            return nan_datum(f);
        }
        return Datum { neg, mag: inf };
    }
    let (ma, sa) = unpack(f, a.mag);
    let (mb, sb) = unpack(f, b.mag);
    proof {
        crate::format::lemma_bound_120();
        lemma_pow2_adds(53, 53);
        crate::format::lemma_pow2_monotone(106, 120);
        assert(ma * mb < pow2(106)) by (nonlinear_arith)
            requires
                ma < pow2(53),
                mb < pow2(53),
                pow2(53) * pow2(53) == pow2(106),
        ;
        assert(0 <= ma * mb) by (nonlinear_arith);
        lemma_basic_div_by_one((ma * mb) as nat);
    }
    let m: u128 = ma as u128 * mb as u128;
    let e: i64 = sa as i64 + sb as i64 - scale_bits(f);
    let mag = pack(f, m, e, false, Ghost(m as nat), Ghost(1));
    Datum { neg, mag }
}

/// Computes [`quotient`].
pub(crate) fn div_datum(f: Format, a: Datum, b: Datum) -> (r: Datum)
    requires
        f.wf(),
    ensures
        r == quotient(f, a, b),
        r.mag <= f.inf() || r == quiet_nan(f),
{
    let inf = inf_bits(f);
    let neg = a.neg != b.neg;
    if a.mag > inf || b.mag > inf {
        return nan_datum(f);
    }
    if a.mag == inf {
        if b.mag == inf {
            return nan_datum(f);
        }
        return Datum { neg, mag: inf };
    }
    if b.mag == inf {
        return Datum { neg, mag: 0 };
    }
    if b.mag == 0 {
        if a.mag == 0 {
            return nan_datum(f);
        }
        return Datum { neg, mag: inf };
    }
    let (ma, sa) = unpack(f, a.mag);
    let (mb, sb) = unpack(f, b.mag);
    let e: i64 = sa as i64 - sb as i64 + scale_bits(f);
    proof {
        crate::format::lemma_bound_120();
        crate::format::lemma_inf(f);
    }
    if ma == 0 {
        proof {
            crate::format::lemma_round_zero(f, mb as nat, e as int);
        }
        return Datum { neg, mag: 0 };
    }
    let len = bit_length(ma as u128);
    proof {
        if len > 53 {
            crate::format::lemma_pow2_monotone(53, (len - 1) as nat);
        }
        lemma2_to64();
    }
    let j: u32 = 119 - len;
    let w = two_to(j);
    proof {
        lemma_pow2_adds(len as nat, j as nat);
        crate::format::lemma_pow2_monotone(119, 120);
        assert(ma * w < pow2(119)) by (nonlinear_arith)
            requires
                ma < pow2(len as nat),
                pow2(len as nat) * w == pow2(119),
                w > 0,
        ;
        lemma_pow2_adds((len - 1) as nat, j as nat);
        assert(ma * w >= pow2(118)) by (nonlinear_arith)
            requires
                ma >= pow2((len - 1) as nat),
                pow2((len - 1) as nat) * w == pow2(118),
                w > 0,
        ;
    }
    let wide: u128 = ma as u128 * w;
    let q: u128 = wide / mb as u128;
    let left: bool = wide % mb as u128 != 0;
    proof {
        lemma_fundamental_div_mod(wide as int, mb as int);
        lemma_pow2_adds(53, 65);
        crate::format::lemma_pow2_monotone((f.frac + 2) as nat, 65);
        assert(q + 1 > pow2(65)) by (nonlinear_arith)
            requires
                wide < mb * q + mb,
                wide >= pow2(118),
                mb < pow2(53),
                pow2(53) * pow2(65) == pow2(118),
        ;
        assert(q <= wide) by (nonlinear_arith)
            requires
                wide >= mb * q,
                mb >= 1,
                q >= 0,
        ;
        let e0 = e - j;
        crate::format::lemma_round_rescale(f, wide as nat, mb as nat, e0 as int, j as nat);
        crate::format::lemma_round_cancel(f, ma as nat, mb as nat, e as int, w as nat);
    }
    let mag = pack(f, q, e - j as i64, left, Ghost(wide as nat), Ghost(mb as nat));
    Datum { neg, mag }
}

/// Computes [`from_int`].
pub(crate) fn int_datum(f: Format, n: i128) -> (r: Datum)
    requires
        f.wf(),
        -0x40000000000000000 <= n <= 0x40000000000000000,
    ensures
        r == from_int(f, n as int),
        r.mag <= f.inf(),
{
    let m: u128 = if n < 0 {
        (-n) as u128
    } else {
        n as u128
    };
    proof {
        crate::format::lemma_bound_120();
        lemma_basic_div_by_one(m as nat);
    }
    let mag = pack(f, m, scale_bits(f), false, Ghost(m as nat), Ghost(1));
    Datum { neg: n < 0, mag }
}

/// The integer part of the square root of `n`.
pub open spec fn root_floor(n: nat) -> nat {
    choose|q: nat| is_root_floor(n, q)
}

pub open spec fn is_root_floor(n: nat, q: nat) -> bool {
    q * q <= n < (q + 1) * (q + 1)
}

/// Twice the square root of `n`, with an odd value for all that lies
/// strictly between two integers.
pub open spec fn twice_root(n: nat) -> nat {
    let q = root_floor(n);
    if q * q == n {
        2 * q
    } else {
        2 * q + 1
    }
}

/// Square root, rounded to nearest.
///
/// In units the root of a positive number has many more integer digits than
/// a significand holds, so its integer part, and whether anything is left
/// beyond it, decide the rounding.
pub open spec fn root(f: Format, a: Datum) -> Datum {
    if a.is_nan(f) {
        quiet_nan(f)
    } else if a.mag == 0 {
        a
    } else if a.neg {
        quiet_nan(f)
    } else if a.is_inf(f) {
        a
    } else {
        let n = f.mant(a.mag as nat) * pow2(a.exponent(f) + f.scale());
        Datum { neg: false, mag: crate::format::round(f, twice_root(n), 2, 0) as u64 }
    }
}

proof fn lemma_root_floor_unique(n: nat, q: nat)
    requires
        is_root_floor(n, q),
    ensures
        root_floor(n) == q,
{
    let r = root_floor(n);
    assert(is_root_floor(n, r));
    assert(r == q) by (nonlinear_arith)
        requires
            q * q <= n < (q + 1) * (q + 1),
            r * r <= n < (r + 1) * (r + 1),
    ;
}

proof fn lemma_root_floor_exists(n: nat)
    ensures
        is_root_floor(n, root_floor(n)),
    decreases n,
{
    if n == 0 {
        assert(is_root_floor(0, 0)) by (nonlinear_arith)
            requires
                true,
        ;
    } else {
        lemma_root_floor_exists((n - 1) as nat);
        let q = root_floor((n - 1) as nat);
        if (q + 1) * (q + 1) <= n {
            assert(is_root_floor(n, q + 1)) by (nonlinear_arith)
                requires
                    (q + 1) * (q + 1) <= n,
                    n - 1 < (q + 1) * (q + 1),
            ;
        } else {
            assert(is_root_floor(n, q));
        }
    }
}

/// The integer part of the square root.
fn isqrt(n: u128) -> (q: u128)
    requires
        n < pow2(120),
    ensures
        is_root_floor(n as nat, q as nat),
        q < pow2(60),
{
    proof {
        crate::format::lemma_bound_120();
        lemma_pow2_adds(60, 60);
    }
    let mut lo: u128 = 0;
    let mut hi: u128 = 0x1000000000000000;
    assert(lo * lo <= n) by (nonlinear_arith)
        requires
            lo == 0,
            n >= 0,
    ;
    assert(n < hi * hi);
    while hi - lo > 1
        invariant
            lo < hi <= 0x1000000000000000,
            lo * lo <= n,
            n < hi * hi,
        decreases hi - lo,
    {
        let mid: u128 = lo + (hi - lo) / 2;
        assert(mid * mid <= 0x1000000000000000 * 0x1000000000000000) by (nonlinear_arith)
            requires
                0 <= mid <= 0x1000000000000000,
        ;
        if mid * mid <= n {
            lo = mid;
        } else {
            hi = mid;
        }
    }
    assert(hi == lo + 1);
    lo
}

/// The root of a wide radicand from that of its leading digits: `n` is
/// `x * 4^h`, and `q` the integer part of the root of `x`.
proof fn lemma_root_split(n: nat, x: nat, h: nat, q: nat)
    requires
        n == x * (pow2(h) * pow2(h)),
        is_root_floor(x, q),
    ensures
        twice_root(n) / (2 * pow2(h)) == q,
        (twice_root(n) % (2 * pow2(h)) != 0) == (q * q != x),
{
    let w = pow2(h);
    lemma_pow2_pos(h);
    lemma_root_floor_exists(n);
    let r = root_floor(n);
    assert(q * w <= r < (q + 1) * w) by (nonlinear_arith)
        requires
            q * q <= x < (q + 1) * (q + 1),
            n == x * (w * w),
            r * r <= n < (r + 1) * (r + 1),
            w > 0,
    {
        // (q w)^2 <= n < ((q + 1) w)^2
        assert((q * w) * (q * w) == (q * q) * (w * w));
        assert((q * q) * (w * w) <= x * (w * w));
        assert(((q + 1) * w) * ((q + 1) * w) == ((q + 1) * (q + 1)) * (w * w));
        assert(x * (w * w) < ((q + 1) * (q + 1)) * (w * w));
        let lo = q * w;
        let hi = (q + 1) * w;
        assert(lo * lo < (r + 1) * (r + 1));
        assert(r * r < hi * hi);
        assert(lo < r + 1);
        assert(r < hi);
    }
    let t = twice_root(n);
    let d = 2 * w;
    if q * q == x {
        let c = q * w;
        assert(c * c == n) by (nonlinear_arith)
            requires
                q * q == x,
                n == x * (w * w),
                c == q * w,
        ;
        assert(c * c <= n < (c + 1) * (c + 1)) by (nonlinear_arith)
            requires
                c * c == n,
                c >= 0,
        ;
        lemma_root_floor_unique(n, c as nat);
        assert(t == q * d) by (nonlinear_arith)
            requires
                t == 2 * c,
                c == q * w,
                d == 2 * w,
        ;
        lemma_fundamental_div_mod_converse(t as int, d as int, q as int, 0);
    } else {
        assert(r * r == n ==> r > q * w) by {
            if r * r == n && r == q * w {
                assert(x * (w * w) == q * q * (w * w)) by (nonlinear_arith)
                    requires
                        r * r == n,
                        r == q * w,
                        n == x * (w * w),
                ;
                assert(w * w > 0) by (nonlinear_arith)
                    requires
                        w > 0,
                ;
                assert(x == q * q) by (nonlinear_arith)
                    requires
                        x * (w * w) == q * q * (w * w),
                        w * w > 0,
                ;
            }
        }
        assert(q * d < t < (q + 1) * d) by (nonlinear_arith)
            requires
                d == 2 * w,
                q * w <= r < (q + 1) * w,
                t == 2 * r || t == 2 * r + 1,
                t == 2 * r ==> r > q * w,
        ;
        let rho = t - q * d;
        assert(rho < d) by (nonlinear_arith)
            requires
                rho == t - q * d,
                t < (q + 1) * d,
        ;
        lemma_fundamental_div_mod_converse(t as int, d as int, q as int, rho);
    }
}

/// Computes [`root`].
pub(crate) fn sqrt_datum(f: Format, a: Datum) -> (r: Datum)
    requires
        f.wf(),
    ensures
        r == root(f, a),
        r.mag <= f.inf() || r == quiet_nan(f),
{
    let inf = inf_bits(f);
    if a.mag > inf {
        return nan_datum(f);
    }
    if a.mag == 0 {
        return a;
    }
    if a.neg {
        return nan_datum(f);
    }
    if a.mag == inf {
        return a;
    }
    let (m, s) = unpack(f, a.mag);
    proof {
        crate::format::lemma_bound_120();
        lemma2_to64();
    }
    let len = bit_length(m as u128);
    proof {
        if len > 53 {
            crate::format::lemma_pow2_monotone(53, (len - 1) as nat);
        }
    }
    let total: i64 = s as i64 + scale_bits(f);
    let even: i64 = 119 - len as i64;
    let g: i64 = if (total - even) % 2 == 0 {
        even
    } else {
        even + 1
    };
    let h: i64 = (total - g) / 2;
    proof {
        assert(66 <= even <= 118);
        assert(2 * h == total - g);
    }
    let w = two_to(g as u32);
    proof {
        lemma_pow2_adds(len as nat, g as nat);
        crate::format::lemma_pow2_monotone((len + g) as nat, 120);
        assert(m * w < pow2(120)) by (nonlinear_arith)
            requires
                m < pow2(len as nat),
                pow2(len as nat) * w <= pow2(120),
                w > 0,
        ;
        lemma_pow2_adds((len - 1) as nat, g as nat);
        crate::format::lemma_pow2_monotone(118, (len - 1 + g) as nat);
        assert(m * w >= pow2(118)) by (nonlinear_arith)
            requires
                m >= pow2((len - 1) as nat),
                pow2((len - 1) as nat) * w >= pow2(118),
                w > 0,
        ;
    }
    let x: u128 = m as u128 * w;
    let q = isqrt(x);
    proof {
        lemma_pow2_adds(59, 59);
        crate::format::lemma_pow2_monotone((f.frac + 2) as nat, 54);
        crate::format::lemma_pow2_monotone(54, 59);
        assert(q + 1 > pow2(59)) by (nonlinear_arith)
            requires
                x < (q + 1) * (q + 1),
                x >= pow2(118),
                pow2(59) * pow2(59) == pow2(118),
        ;
        crate::format::lemma_pow2_monotone(60, 120);
        assert(q * q < 0x1000000000000000 * 0x1000000000000000) by (nonlinear_arith)
            requires
                0 <= q < 0x1000000000000000,
        ;
    }
    let left: bool = q * q != x;
    let ghost n = f.mant(a.mag as nat) * pow2(a.exponent(f) + f.scale());
    let ghost t = twice_root(n);
    proof {
        if h >= 0 {
            lemma_pow2_adds(h as nat, h as nat);
            lemma_pow2_adds(g as nat, (2 * h) as nat);
            assert(n == x * (pow2(h as nat) * pow2(h as nat))) by (nonlinear_arith)
                requires
                    n == m * pow2(total as nat),
                    pow2(total as nat) == w * pow2((2 * h) as nat),
                    pow2((2 * h) as nat) == pow2(h as nat) * pow2(h as nat),
                    x == m * w,
            ;
            lemma_root_split(n, x as nat, h as nat, q as nat);
            crate::format::lemma_round_rescale(f, t, 2, 0, h as nat);
            lemma_pow2_pos(h as nat);
        }
    }
    let mag = pack(f, q, h, left, Ghost(t), Ghost(2 * pow2(h as nat)));
    Datum { neg: false, mag }
}

pub(crate) proof fn lemma_quiet_nan(f: Format)
    requires
        f.wf(),
    ensures
        f.frac == 52 ==> f.inf() == 0x7ff0000000000000 && quiet_nan(f).mag == 0x7ff8000000000000,
        f.frac == 23 ==> f.inf() == 0x7f800000 && quiet_nan(f).mag == 0x7fc00000,
{
    crate::format::lemma_inf(f);
    lemma2_to64();
    lemma2_to64_rest();
}

} // verus!
