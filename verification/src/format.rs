//! Binary interchange formats of IEEE 754, and rounding to them.

use vstd::prelude::*;
use vstd::arithmetic::power2::*;
use vstd::arithmetic::div_mod::*;
use vstd::arithmetic::mul::*;

verus! {

/// A binary interchange format.
#[derive(Clone, Copy)]
pub struct Format {
    /// Width of the fraction field.
    pub frac: u32,
    /// The all-ones value of the exponent field.
    pub top: u32,
}

impl Format {
    /// The two formats in use: double and single precision.
    pub open spec fn wf(self) -> bool {
        ||| self.frac == 52 && self.top == 2047
        ||| self.frac == 23 && self.top == 255
    }

    /// Exponent of the unit: the least positive number is `2^-scale`.
    pub open spec fn scale(self) -> nat {
        ((self.top - 1) / 2 + self.frac - 1) as nat
    }

    /// Magnitude bits of infinity. Greater magnitudes are NaNs.
    pub open spec fn inf(self) -> nat {
        (self.top as nat) * pow2(self.frac as nat)
    }

    /// Integer significand of the finite number with magnitude bits `mag`.
    pub open spec fn mant(self, mag: nat) -> nat {
        let field = mag / pow2(self.frac as nat);
        let rest = mag % pow2(self.frac as nat);
        if field == 0 {
            rest
        } else {
            rest + pow2(self.frac as nat)
        }
    }

    /// Exponent of the finite number with magnitude bits `mag`: its absolute
    /// value is `mant * 2^shift` units of `2^-scale`.
    pub open spec fn shift(self, mag: nat) -> nat {
        let field = mag / pow2(self.frac as nat);
        if field == 0 {
            0
        } else {
            (field - 1) as nat
        }
    }
}

/// `n / d` rounded to the nearest integer, ties to the even one.
pub open spec fn round_half_even(n: nat, d: nat) -> nat {
    let q = n / d;
    let r = n % d;
    if 2 * r < d {
        q
    } else if 2 * r > d {
        q + 1
    } else {
        q + q % 2
    }
}

/// `2^e` for `e >= 0`, else 1.
pub open spec fn up(e: int) -> nat {
    if e > 0 {
        pow2(e as nat)
    } else {
        1
    }
}

/// Whether `n / d * 2^e` is below `2^(s + frac + 1)`, that is, whether its
/// integer part in steps of `2^s` fits a significand.
pub open spec fn fits(f: Format, n: nat, d: nat, e: int, s: nat) -> bool {
    n * up(e - s) < d * up(s - e) * pow2((f.frac + 1) as nat)
}

/// The least `s` for which `fits` holds.
pub open spec fn least_shift(f: Format, n: nat, d: nat, e: int) -> nat {
    choose|s: nat|
        fits(f, n, d, e, s) && forall|t: nat| t < s ==> !#[trigger] fits(f, n, d, e, t)
}

/// Magnitude bits of the number of format `f` nearest to `n / d * 2^e` units,
/// ties to the even significand, infinity where the result would not be
/// finite.
pub open spec fn round(f: Format, n: nat, d: nat, e: int) -> nat {
    let s = least_shift(f, n, d, e);
    let k = s * pow2(f.frac as nat) + round_half_even(n * up(e - s), d * up(s - e));
    if k >= f.inf() {
        f.inf()
    } else {
        k
    }
}

proof fn lemma_round_half_even_scale(n: nat, d: nat, c: nat)
    requires
        d > 0,
        c > 0,
    ensures
        d * c > 0,
        round_half_even(n * c, d * c) == round_half_even(n, d),
{
    let q = n / d;
    let r = n % d;
    lemma_fundamental_div_mod(n as int, d as int);
    assert(n * c == q * (d * c) + r * c) by (nonlinear_arith)
        requires
            n == d * q + r,
    ;
    assert(0 <= r * c < d * c) by (nonlinear_arith)
        requires
            0 <= r < d,
            c > 0,
    ;
    lemma_fundamental_div_mod_converse((n * c) as int, (d * c) as int, q as int, (r * c) as int);
    assert(2 * (r * c) < d * c <==> 2 * r < d) by (nonlinear_arith)
        requires
            c > 0,
    ;
    assert(2 * (r * c) > d * c <==> 2 * r > d) by (nonlinear_arith)
        requires
            c > 0,
    ;
}

pub(crate) proof fn lemma_least_shift(f: Format, n: nat, d: nat, e: int, s: nat)
    requires
        fits(f, n, d, e, s),
        forall|t: nat| t < s ==> !#[trigger] fits(f, n, d, e, t),
    ensures
        least_shift(f, n, d, e) == s,
{
    let l = least_shift(f, n, d, e);
    assert(fits(f, n, d, e, l) && forall|t: nat| t < l ==> !#[trigger] fits(f, n, d, e, t));
    if l < s {
        assert(!fits(f, n, d, e, l));
    }
    if s < l {
        assert(!fits(f, n, d, e, s));
    }
}

pub(crate) proof fn lemma_up_pos(e: int)
    ensures
        up(e) > 0,
{
    if e > 0 {
        lemma_pow2_pos(e as nat);
    }
}

/// Multiplying numerator and denominator by the same power of two keeps
/// `fits` and the rounded significand.
proof fn lemma_rescale_at(f: Format, n: nat, d: nat, e: int, j: nat, s: nat)
    requires
        d > 0,
    ensures
        d * pow2(j) > 0,
        fits(f, n, d * pow2(j), e + j, s) == fits(f, n, d, e, s),
        round_half_even(n * up(e + j - s), d * pow2(j) * up(s - (e + j))) == round_half_even(
            n * up(e - s),
            d * up(s - e),
        ),
{
    lemma_pow2_pos(j);
    assert(d * pow2(j) > 0) by (nonlinear_arith)
        requires
            d > 0,
            pow2(j) > 0,
    ;
    let n1 = n * up(e - s);
    let d1 = d * up(s - e);
    let n2 = n * up(e + j - s);
    let d2 = d * pow2(j) * up(s - (e + j));
    let w = pow2((f.frac + 1) as nat);
    lemma_up_pos(s - e);
    assert(d1 > 0) by (nonlinear_arith)
        requires
            d > 0,
            up(s - e) > 0,
            d1 == d * up(s - e),
    ;
    let c: nat = if s >= e + j {
        1
    } else if s > e {
        pow2((e + j - s) as nat)
    } else {
        pow2(j)
    };
    assert(c > 0 && n2 == n1 * c && d2 == d1 * c) by {
        if s >= e + j {
            assert(up(e - s) == 1);
            assert(up(e + j - s) == 1);
            if s > e + j {
                lemma_pow2_adds(j, (s - e - j) as nat);
                assert(d * pow2(j) * pow2((s - e - j) as nat) == d * (pow2(j) * pow2((s - e - j) as nat)))
                    by (nonlinear_arith);
            } else {
                if j == 0 {
                    lemma2_to64();
                }
            }
            assert(n1 * 1 == n1);
            assert(d1 * 1 == d1);
        } else if s > e {
            lemma_pow2_pos((e + j - s) as nat);
            lemma_pow2_adds((s - e) as nat, (e + j - s) as nat);
            assert(d * (pow2((s - e) as nat) * pow2((e + j - s) as nat)) == d * pow2((s - e) as nat) * pow2(
                (e + j - s) as nat,
            )) by (nonlinear_arith);
        } else {
            if e == s {
                assert(n * 1 == n);
                assert(n * 1 * pow2(j) == n * pow2(j));
                if j == 0 {
                    lemma2_to64();
                }
            } else {
                lemma_pow2_adds((e - s) as nat, j);
                assert(n * (pow2((e - s) as nat) * pow2(j)) == n * pow2((e - s) as nat) * pow2(j))
                    by (nonlinear_arith);
            }
            assert(d * 1 == d);
            assert(d * pow2(j) * 1 == d * pow2(j));
        }
    }
    lemma_round_half_even_scale(n1, d1, c);
    assert((n1 * c < d1 * c * w) == (n1 < d1 * w)) by (nonlinear_arith)
        requires
            c > 0,
    ;
}

pub(crate) proof fn lemma_round_rescale(f: Format, n: nat, d: nat, e: int, j: nat)
    requires
        d > 0,
    ensures
        round(f, n, d * pow2(j), e + j) == round(f, n, d, e),
{
    assert forall|s: nat| #[trigger] fits(f, n, d * pow2(j), e + j, s) == fits(f, n, d, e, s) by {
        lemma_rescale_at(f, n, d, e, j, s);
    }
    let l = least_shift(f, n, d, e);
    let l2 = least_shift(f, n, d * pow2(j), e + j);
    assert(l == l2) by {
        lemma_fits_eventually(f, n, d, e);
        lemma_least_exists(f, n, d, e, choose|s: nat| fits(f, n, d, e, s));
        let s0 = choose|s: nat|
            fits(f, n, d, e, s) && forall|t: nat| t < s ==> !#[trigger] fits(f, n, d, e, t);
        lemma_least_shift(f, n, d, e, s0);
        assert(fits(f, n, d * pow2(j), e + j, s0));
        lemma_least_shift(f, n, d * pow2(j), e + j, s0);
    }
    lemma_rescale_at(f, n, d, e, j, l);
}

pub(crate) proof fn lemma_fits_eventually(f: Format, n: nat, d: nat, e: int)
    requires
        d > 0,
    ensures
        exists|s: nat| fits(f, n, d, e, s),
{
    let s: nat = (n + if e > 0 { e } else { 0 }) as nat;
    let w = pow2((f.frac + 1) as nat);
    lemma_pow2_pos((f.frac + 1) as nat);
    assert(up(e - s) == 1);
    assert(n * 1 == n);
    lemma_up_pos(s - e);
    assert(n < up(s - e) || n < w) by {
        if s - e > 0 {
            lemma_pow2_exceeds((s - e) as nat);
        } else {
            assert(n == 0);
        }
    }
    assert(n < d * up(s - e) * w) by (nonlinear_arith)
        requires
            n < up(s - e) || n < w,
            d > 0,
            up(s - e) > 0,
            w > 0,
    ;
    assert(fits(f, n, d, e, s));
}

proof fn lemma_pow2_exceeds(k: nat)
    ensures
        k < pow2(k),
    decreases k,
{
    if k == 0 {
        lemma2_to64();
    } else {
        lemma_pow2_exceeds((k - 1) as nat);
        lemma_pow2_unfold(k);
    }
}

pub(crate) proof fn lemma_least_exists(f: Format, n: nat, d: nat, e: int, s: nat)
    requires
        fits(f, n, d, e, s),
    ensures
        exists|l: nat|
            fits(f, n, d, e, l) && forall|t: nat| t < l ==> !#[trigger] fits(f, n, d, e, t),
    decreases s,
{
    if exists|t: nat| t < s && #[trigger] fits(f, n, d, e, t) {
        let t = choose|t: nat| t < s && #[trigger] fits(f, n, d, e, t);
        lemma_least_exists(f, n, d, e, t);
    }
}

/// Where the integer part `m` of `n / d` has `len` bits, the shift is the
/// least one that leaves at most `frac + 1` of them.
pub(crate) proof fn lemma_shift_from_len(f: Format, n: nat, d: nat, e: int, m: nat, len: nat)
    requires
        d > 0,
        m == n / d,
        0 < len,
        pow2((len - 1) as nat) <= m < pow2(len),
    ensures
        least_shift(f, n, d, e) == (if e + len > f.frac + 1 {
            e + len - (f.frac + 1)
        } else {
            0
        }),
{
    let p: nat = (f.frac + 1) as nat;
    let s: nat = (if e + len > p {
        e + len - p
    } else {
        0
    }) as nat;
    lemma_fundamental_div_mod(n as int, d as int);
    let lo = pow2((len - 1) as nat);
    let hi = pow2(len);
    assert(n >= d * lo) by (nonlinear_arith)
        requires
            n >= d * m,
            m >= lo,
            d > 0,
    ;
    assert(n < d * hi) by (nonlinear_arith)
        requires
            n < d * m + d,
            m + 1 <= hi,
            d > 0,
    ;
    // At `s` it fits.
    assert(fits(f, n, d, e, s)) by {
        lemma_up_pos(e - s);
        let a = up(e - s);
        let b = up(s - e);
        let w = pow2(p);
        assert(hi * a <= b * w) by {
            if s >= e {
                assert(a == 1);
                assert(len <= (s - e) + p);
                if s > e {
                    lemma_pow2_adds((s - e) as nat, p);
                }
                if len < (s - e) + p {
                    lemma_pow2_strictly_increases(len, ((s - e) + p) as nat);
                }
                assert(b * w == pow2(((s - e) + p) as nat)) by {
                    if s == e {
                        assert(1 * w == w);
                    }
                }
                assert(hi * 1 == hi);
            } else {
                assert(b == 1);
                lemma_pow2_adds(len, (e - s) as nat);
                assert(len + (e - s) <= p);
                if len + (e - s) < p {
                    lemma_pow2_strictly_increases((len + (e - s)) as nat, p);
                }
                assert(1 * w == w);
            }
        }
        assert(n * a < d * b * w) by (nonlinear_arith)
            requires
                n < d * hi,
                hi * a <= b * w,
                a > 0,
                d > 0,
        ;
    }
    assert forall|t: nat| t < s implies !#[trigger] fits(f, n, d, e, t) by {
        let a = up(e - t);
        let b = up(t - e);
        let w = pow2(p);
        lemma_up_pos(e - t);
        assert(lo * a >= b * w) by {
            if t >= e {
                assert(a == 1);
                assert((t - e) + p <= len - 1);
                if t > e {
                    lemma_pow2_adds((t - e) as nat, p);
                } else {
                    assert(1 * w == w);
                }
                if (t - e) + p < len - 1 {
                    lemma_pow2_strictly_increases(((t - e) + p) as nat, (len - 1) as nat);
                }
                assert(lo * 1 == lo);
            } else {
                assert(b == 1);
                lemma_pow2_adds((len - 1) as nat, (e - t) as nat);
                assert(len - 1 + (e - t) >= p);
                if len - 1 + (e - t) > p {
                    lemma_pow2_strictly_increases(p, (len - 1 + (e - t)) as nat);
                }
                assert(1 * w == w);
            }
        }
        assert(n * a >= d * b * w) by (nonlinear_arith)
            requires
                n >= d * lo,
                lo * a >= b * w,
                a > 0,
                d > 0,
        ;
    }
    lemma_least_shift(f, n, d, e, s);
}

/// Rounding `n / (d * 2^t)` from the integer part `m` of `n / d` and from
/// whether anything is left beyond it.
proof fn lemma_round_from_quotient(n: nat, d: nat, m: nat, t: nat)
    requires
        d > 0,
        t > 0,
        m == n / d,
    ensures
        ({
            let q = m / pow2(t);
            let r = m % pow2(t);
            let half = pow2((t - 1) as nat);
            round_half_even(n, d * pow2(t)) == if r > half || (r == half && (n % d != 0 || q % 2
                == 1)) {
                q + 1
            } else {
                q
            }
        }),
{
    let w = pow2(t);
    let half = pow2((t - 1) as nat);
    lemma_pow2_pos(t);
    lemma_pow2_unfold(t);
    assert(w == 2 * half);
    let q = m / w;
    let r = m % w;
    let rho = n % d;
    lemma_fundamental_div_mod(n as int, d as int);
    lemma_fundamental_div_mod(m as int, w as int);
    let rest = d * r + rho;
    assert(n == q * (d * w) + rest) by (nonlinear_arith)
        requires
            n == d * m + rho,
            m == w * q + r,
            rest == d * r + rho,
    ;
    assert(0 <= rest < d * w) by (nonlinear_arith)
        requires
            0 <= r < w,
            0 <= rho < d,
            rest == d * r + rho,
    ;
    lemma_fundamental_div_mod_converse(n as int, (d * w) as int, q as int, rest as int);
    assert(d * w == 2 * (d * half)) by (nonlinear_arith)
        requires
            w == 2 * half,
    ;
    if r < half {
        assert(rest < d * half) by (nonlinear_arith)
            requires
                r + 1 <= half,
                rho < d,
                rest == d * r + rho,
        ;
    } else if r > half {
        assert(rest > d * half) by (nonlinear_arith)
            requires
                r >= half + 1,
                rho >= 0,
                d > 0,
                rest == d * r + rho,
        ;
    } else {
        assert(rest == d * half + rho);
    }
}

/// `2^t`.
pub(crate) fn two_to(t: u32) -> (r: u128)
    requires
        t <= 120,
    ensures
        r == pow2(t as nat),
        r <= pow2(120),
        0 < r,
{
    let mut r: u128 = 1;
    let mut i: u32 = 0;
    proof {
        lemma2_to64();
        lemma_bound_120();
    }
    while i < t
        invariant
            i <= t <= 120,
            r == pow2(i as nat),
            pow2(120) == 0x1000000000000000000000000000000,
        decreases t - i,
    {
        proof {
            lemma_pow2_unfold((i + 1) as nat);
            lemma_pow2_monotone((i + 1) as nat, 120);
        }
        r = r * 2;
        i = i + 1;
    }
    proof {
        lemma_pow2_pos(t as nat);
        lemma_pow2_monotone(t as nat, 120);
    }
    r
}

pub(crate) proof fn lemma_pow2_monotone(a: nat, b: nat)
    requires
        a <= b,
    ensures
        pow2(a) <= pow2(b),
{
    if a < b {
        lemma_pow2_strictly_increases(a, b);
    }
}

pub(crate) proof fn lemma_bound_120()
    ensures
        pow2(120) == 0x1000000000000000000000000000000,
        pow2(52) == 0x10000000000000,
        pow2(53) == 0x20000000000000,
        pow2(23) == 0x800000,
        pow2(24) == 0x1000000,
        pow2(63) == 0x8000000000000000,
        pow2(31) == 0x80000000,
        pow2(54) == 0x40000000000000,
        pow2(60) == 0x1000000000000000,
        pow2(64) == 0x10000000000000000,
        pow2(87) == 0x8000000000000000000000,
{
    lemma2_to64();
    lemma2_to64_rest();
    lemma_pow2_adds(60, 60);
    lemma_pow2_adds(60, 27);
}

pub(crate) proof fn lemma_inf(f: Format)
    requires
        f.wf(),
    ensures
        f.frac == 52 ==> f.inf() == 0x7ff0000000000000,
        f.frac == 23 ==> f.inf() == 0x7f800000,
        f.frac == 52 ==> f.scale() == 1074,
        f.frac == 23 ==> f.scale() == 149,
{
    lemma_bound_120();
    assert(2047 * 0x10000000000000 == 0x7ff0000000000000);
    assert(255 * 0x800000 == 0x7f800000);
}

/// The number of bits of `m`.
pub(crate) fn bit_length(m: u128) -> (len: u32)
    requires
        m < pow2(120),
    ensures
        len <= 120,
        m < pow2(len as nat),
        len > 0 ==> pow2((len - 1) as nat) <= m,
{
    let mut len: u32 = 0;
    let mut w: u128 = 1;
    proof {
        lemma2_to64();
        lemma_bound_120();
    }
    while w <= m
        invariant
            len <= 120,
            w == pow2(len as nat),
            m < pow2(120),
            len > 0 ==> pow2((len - 1) as nat) <= m,
            pow2(120) == 0x1000000000000000000000000000000,
        decreases 120 - len,
    {
        proof {
            if len == 120 {
                assert(false);
            }
            lemma_pow2_unfold((len + 1) as nat);
            lemma_pow2_monotone((len + 1) as nat, 120);
        }
        w = w * 2;
        len = len + 1;
    }
    len
}

/// The number nearest to `n / d * 2^e` units, from the integer part `m` of
/// `n / d` and from whether the division leaves a remainder.
pub(crate) fn pack(f: Format, m: u128, e: i64, sticky: bool, Ghost(n): Ghost<nat>, Ghost(d): Ghost<nat>) -> (k:
    u64)
    requires
        f.wf(),
        m < pow2(120),
        -10000 <= e <= 10000,
        d > 0,
        m == n / d,
        sticky == (n % d != 0),
        sticky ==> m >= pow2((f.frac + 2) as nat),
    ensures
        k == round(f, n, d, e as int),
        k <= f.inf(),
        f.inf() <= 0x7ff0000000000000,
{
    let ghost frac = f.frac as nat;
    let ghost p: nat = (f.frac + 1) as nat;
    proof {
        lemma_inf(f);
        lemma_bound_120();
        lemma2_to64();
        lemma_fundamental_div_mod(n as int, d as int);
        lemma_pow2_pos((f.frac + 2) as nat);
    }
    if m == 0 {
        proof {
            assert(n == 0) by (nonlinear_arith)
                requires
                    n == d * (m as nat) + n % d,
                    m == 0,
                    n % d == 0,
            ;
            lemma_round_zero(f, d, e as int);
        }
        return 0;
    }
    let len = bit_length(m);
    let keep: i64 = f.frac as i64 + 1;
    let s: i64 = if e + len as i64 > keep {
        e + len as i64 - keep
    } else {
        0
    };
    proof {
        lemma_shift_from_len(f, n, d, e as int, m as nat, len as nat);
    }
    let t: i64 = s - e;
    let unit: u64 = two_to(f.frac) as u64;
    let inf: u64 = f.top as u64 * unit;
    assert(inf == f.inf()) by (nonlinear_arith)
        requires
            unit == pow2(frac),
            inf == f.top as u64 * unit,
            f.inf() == (f.top as nat) * pow2(frac),
    ;
    if s >= f.top as i64 {
        proof {
            let r = round_half_even(n * up(e - s), d * up(s - e));
            assert(s * pow2(frac) >= f.inf()) by (nonlinear_arith)
                requires
                    s >= f.top,
                    f.inf() == (f.top as nat) * pow2(frac),
            ;
        }
        return inf;
    }
    let mant: u64;
    if t <= 0 {
        proof {
            // Nothing is dropped, so nothing can be left over either.
            assert(len <= p);
            if sticky {
                lemma_pow2_monotone(len as nat, (f.frac + 2) as nat);
                assert(false);
            }
            lemma_pow2_adds(len as nat, (-t) as nat);
            lemma_pow2_monotone((len + (-t)) as nat, p);
            assert(len >= 1);
        }
        let g = two_to((0 - t) as u32);
        proof {
            assert(up(e - s) == g) by {
                if e == s {
                    assert(pow2(0) == 1);
                }
            }
            assert(m * g < pow2(p)) by (nonlinear_arith)
                requires
                    m < pow2(len as nat),
                    pow2(len as nat) * g <= pow2(p),
                    g > 0,
            ;
            assert(up(s - e) == 1);
            assert(d * 1 == d);
            let num = n * up(e - s);
            assert(num == (m * g) as nat * d + 0) by (nonlinear_arith)
                requires
                    n == d * (m as nat),
                    num == n * up(e - s),
                    up(e - s) == g,
            ;
            lemma_fundamental_div_mod_converse(num as int, d as int, (m * g) as int, 0);
        }
        mant = (m * g) as u64;
        assert(mant == round_half_even(n * up(e - s), d * up(s - e)));
    } else if t > 120 {
        proof {
            lemma_round_from_quotient(n, d, m as nat, t as nat);
            lemma_pow2_monotone(120, (t - 1) as nat);
            lemma_pow2_monotone(120, t as nat);
            lemma_small_mod(m as nat, pow2(t as nat));
            lemma_basic_div(m as int, pow2(t as nat) as int);
            assert(n * 1 == n);
        }
        mant = 0;
        assert(mant == round_half_even(n * up(e - s), d * up(s - e)));
    } else {
        let w = two_to(t as u32);
        let half = two_to(t as u32 - 1);
        let q = m / w;
        let r = m % w;
        proof {
            lemma_round_from_quotient(n, d, m as nat, t as nat);
            assert(n * 1 == n);
            // The quotient keeps at most `p` bits.
            lemma_fundamental_div_mod(m as int, w as int);
            assert(q < pow2(p)) by {
                assert(len - t <= p);
                let lt: nat = if len as int > t { (len - t) as nat } else { 0 };
                lemma_pow2_adds(lt, t as nat);
                lemma_pow2_monotone(len as nat, lt + t as nat);
                lemma_pow2_monotone(lt, p);
                assert(q < pow2(lt)) by (nonlinear_arith)
                    requires
                        m >= w * q,
                        m < pow2(lt) * w,
                        w > 0,
                ;
            }
        }
        if r > half || (r == half && (sticky || q % 2 == 1)) {
            mant = (q + 1) as u64;
        } else {
            mant = q as u64;
        }
        assert(mant == round_half_even(n * up(e - s), d * up(s - e)));
    }
    assert(mant <= pow2(p));
    assert(0 <= s * unit <= 0x7fe0000000000000) by {
        assert(0 <= s * unit <= (f.top - 1) * unit) by (nonlinear_arith)
            requires
                0 <= s <= f.top - 1,
                unit >= 0,
        ;
        assert(unit == 0x10000000000000 || unit == 0x800000);
    }
    let k: u64 = s as u64 * unit + mant;
    if k >= inf {
        inf
    } else {
        k
    }
}

pub(crate) proof fn lemma_round_zero(f: Format, d: nat, e: int)
    requires
        d > 0,
        f.wf(),
    ensures
        round(f, 0, d, e) == 0,
{
    lemma_up_pos(0 - e);
    lemma_up_pos(e - 0);
    lemma_pow2_pos((f.frac + 1) as nat);
    lemma_pow2_pos(f.frac as nat);
    let b = up(0 - e);
    let w = pow2((f.frac + 1) as nat);
    assert(0 < d * b * w) by (nonlinear_arith)
        requires
            d > 0,
            b > 0,
            w > 0,
    ;
    assert(0 * up(e - 0) == 0);
    assert(fits(f, 0, d, e, 0));
    lemma_least_shift(f, 0, d, e, 0);
    assert(d * b > 0) by (nonlinear_arith)
        requires
            d > 0,
            b > 0,
    ;
    lemma_div_of0((d * b) as int);
    lemma_small_mod(0, (d * b) as nat);
    assert(f.inf() > 0) by (nonlinear_arith)
        requires
            f.inf() == (f.top as nat) * pow2(f.frac as nat),
            f.top > 0,
            pow2(f.frac as nat) > 0,
    ;
}

pub(crate) proof fn lemma_round_cancel(f: Format, n: nat, d: nat, e: int, c: nat)
    requires
        d > 0,
        c > 0,
    ensures
        d * c > 0,
        round(f, n * c, d * c, e) == round(f, n, d, e),
{
    assert(d * c > 0) by (nonlinear_arith)
        requires
            d > 0,
            c > 0,
    ;
    assert forall|s: nat| #[trigger] fits(f, n * c, d * c, e, s) == fits(f, n, d, e, s) by {
        let a = up(e - s);
        let b = up(s - e);
        let w = pow2((f.frac + 1) as nat);
        assert((n * c * a < d * c * b * w) == (n * a < d * b * w)) by (nonlinear_arith)
            requires
                c > 0,
        ;
    }
    lemma_fits_eventually(f, n, d, e);
    lemma_least_exists(f, n, d, e, choose|s: nat| fits(f, n, d, e, s));
    let l = choose|s: nat|
        fits(f, n, d, e, s) && forall|t: nat| t < s ==> !#[trigger] fits(f, n, d, e, t);
    lemma_least_shift(f, n, d, e, l);
    assert(fits(f, n * c, d * c, e, l));
    lemma_least_shift(f, n * c, d * c, e, l);
    let a = up(e - l);
    let b = up(l - e);
    lemma_up_pos(l - e);
    assert(n * c * a == n * a * c) by (nonlinear_arith);
    assert(d * c * b == d * b * c) by (nonlinear_arith);
    assert(d * b > 0) by (nonlinear_arith)
        requires
            d > 0,
            b > 0,
    ;
    lemma_round_half_even_scale(n * a, d * b, c);
}

} // verus!
