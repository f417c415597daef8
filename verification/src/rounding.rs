//! What holds of rounding: it keeps the order of numbers, and it leaves alone
//! what needs no rounding.

use vstd::prelude::*;
use vstd::arithmetic::power2::*;
use vstd::arithmetic::div_mod::*;
use vstd::arithmetic::mul::*;
use crate::binary::Binary64;
use crate::datum::Datum;
use crate::format::Format;

verus! {

proof fn lemma_half_even_monotone(a: nat, b: nat, d: nat)
    requires
        d > 0,
        a <= b,
    ensures
        crate::format::round_half_even(a, d) <= crate::format::round_half_even(b, d),
{
    lemma_fundamental_div_mod(a as int, d as int);
    lemma_fundamental_div_mod(b as int, d as int);
    lemma_div_is_ordered(a as int, b as int, d as int);
    lemma_mod_bound(a as int, d as int);
    lemma_mod_bound(b as int, d as int);
}

proof fn lemma_half_even_at_least(n: nat, d: nat, c: nat)
    requires
        d > 0,
        n >= d * c,
    ensures
        crate::format::round_half_even(n, d) >= c,
{
    lemma_div_is_ordered((d * c) as int, n as int, d as int);
    lemma_div_multiples_vanish(c as int, d as int);
}

proof fn lemma_half_even_at_most(n: nat, d: nat, c: nat)
    requires
        d > 0,
        n <= d * c,
    ensures
        crate::format::round_half_even(n, d) <= c,
{
    lemma_half_even_monotone(n, d * c, d);
    lemma_div_multiples_vanish(c as int, d as int);
    lemma_mod_multiples_basic(c as int, d as int);
    lemma_mul_is_commutative(c as int, d as int);
}

proof fn lemma_shift_is_least(f: Format, n: nat, d: nat, e: int) -> (s: nat)
    requires
        d > 0,
    ensures
        s == crate::format::least_shift(f, n, d, e),
        crate::format::fits(f, n, d, e, s),
        forall|t: nat| t < s ==> !#[trigger] crate::format::fits(f, n, d, e, t),
{
    crate::format::lemma_fits_eventually(f, n, d, e);
    crate::format::lemma_least_exists(
        f,
        n,
        d,
        e,
        choose|s: nat| crate::format::fits(f, n, d, e, s),
    );
    crate::format::least_shift(f, n, d, e)
}

/// Where the shift is not zero, the significand is a long one.
proof fn lemma_long_significand(f: Format, n: nat, d: nat, e: int, s: nat)
    requires
        d > 0,
        s > 0,
        !crate::format::fits(f, n, d, e, (s - 1) as nat),
    ensures
        crate::format::round_half_even(
            n * crate::format::up(e - s),
            d * crate::format::up(s - e),
        ) >= pow2(f.frac as nat),
{
    let w = pow2(f.frac as nat);
    lemma_pow2_unfold((f.frac + 1) as nat);
    let a = crate::format::up(e - s);
    let b = crate::format::up(s - e);
    let a1 = crate::format::up(e - (s - 1));
    let b1 = crate::format::up((s - 1) - e);
    crate::format::lemma_up_pos(s - e);
    assert(n * a1 >= d * b1 * (2 * w));
    assert(n * a >= d * b * w) by {
        if e >= s {
            assert(b == 1 && b1 == 1);
            lemma_pow2_unfold((e - s + 1) as nat);
            if e == s {
                lemma2_to64();
            }
            assert(a1 == 2 * a);
            assert(n * a >= d * b * w) by (nonlinear_arith)
                requires
                    n * a1 >= d * b1 * (2 * w),
                    a1 == 2 * a,
                    b == 1,
                    b1 == 1,
            ;
        } else {
            assert(a == 1 && a1 == 1);
            lemma_pow2_unfold((s - e) as nat);
            if s - e == 1 {
                lemma2_to64();
            }
            assert(b == 2 * b1);
            assert(n * a >= d * b * w) by (nonlinear_arith)
                requires
                    n * a1 >= d * b1 * (2 * w),
                    b == 2 * b1,
                    a == 1,
                    a1 == 1,
            ;
        }
    }
    assert(d * b > 0) by (nonlinear_arith)
        requires
            d > 0,
            b > 0,
    ;
    lemma_half_even_at_least(n * a, d * b, w);
}

/// Rounding keeps the order of numbers.
pub proof fn round_is_monotone(f: Format, a: nat, b: nat, d: nat, e: int)
    requires
        f.wf(),
        d > 0,
        a <= b,
    ensures
        crate::format::round(f, a, d, e) <= crate::format::round(f, b, d, e),
{
    let s = lemma_shift_is_least(f, a, d, e);
    let t = lemma_shift_is_least(f, b, d, e);
    let w = pow2(f.frac as nat);
    lemma_pow2_pos(f.frac as nat);
    lemma_pow2_unfold((f.frac + 1) as nat);
    crate::format::lemma_up_pos(s - e);
    crate::format::lemma_up_pos(t - e);
    if t < s {
        assert(crate::format::fits(f, a, d, e, t)) by {
            let u = crate::format::up(e - t);
            assert(a * u <= b * u) by (nonlinear_arith)
                requires
                    a <= b,
            ;
        }
    }
    let n1 = a * crate::format::up(e - s);
    let d1 = d * crate::format::up(s - e);
    let n2 = b * crate::format::up(e - t);
    let d2 = d * crate::format::up(t - e);
    assert(d1 > 0 && d2 > 0) by (nonlinear_arith)
        requires
            d > 0,
            crate::format::up(s - e) > 0,
            crate::format::up(t - e) > 0,
            d1 == d * crate::format::up(s - e),
            d2 == d * crate::format::up(t - e),
    ;
    if s == t {
        assert(n1 <= n2) by (nonlinear_arith)
            requires
                a <= b,
                n1 == a * crate::format::up(e - s),
                n2 == b * crate::format::up(e - t),
                s == t,
        ;
        lemma_half_even_monotone(n1, n2, d1);
    } else {
        assert(n1 < d1 * pow2((f.frac + 1) as nat));
        lemma_half_even_at_most(n1, d1, 2 * w);
        lemma_long_significand(f, b, d, e, t);
        assert(s * w + 2 * w <= t * w + w) by (nonlinear_arith)
            requires
                s + 1 <= t,
                w >= 0,
        ;
    }
}

/// A finite number needs no rounding.
pub proof fn round_of_number(f: Format, k: nat)
    requires
        f.wf(),
        k < f.inf(),
    ensures
        crate::format::round(f, f.mant(k), 1, f.shift(k) as int) == k,
{
    let w = pow2(f.frac as nat);
    let m = f.mant(k);
    let s = f.shift(k);
    let field = k / w;
    lemma_pow2_pos(f.frac as nat);
    lemma_pow2_unfold((f.frac + 1) as nat);
    lemma_fundamental_div_mod(k as int, w as int);
    lemma_mod_bound(k as int, w as int);
    assert(crate::format::fits(f, m, 1, s as int, s)) by {
        let z = pow2((f.frac + 1) as nat);
        assert(m * 1 == m && 1 * 1 * z == z) by (nonlinear_arith);
    }
    assert forall|t: nat| t < s implies !#[trigger] crate::format::fits(f, m, 1, s as int, t) by {
        let u = crate::format::up(s - t);
        assert(u >= 2) by {
            lemma2_to64();
            crate::format::lemma_pow2_monotone(1, (s - t) as nat);
        }
        assert(m * u >= 2 * w) by (nonlinear_arith)
            requires
                m >= w,
                u >= 2,
        ;
        assert(crate::format::up(t - s) == 1);
        let z = pow2((f.frac + 1) as nat);
        assert(1 * 1 * z == z) by (nonlinear_arith);
    }
    crate::format::lemma_least_shift(f, m, 1, s as int, s);
    assert(crate::format::round_half_even(m, 1) == m) by {
        crate::datum::lemma_basic_div_by_one(m);
        assert(m % 1 == 0);
    }
    assert(m * 1 == m);
    if field > 0 {
        assert(s * w + m == k) by (nonlinear_arith)
            requires
                s == field - 1,
                m == k % w + w,
                k == w * field + k % w,
        ;
    } else {
        assert(s * w == 0) by (nonlinear_arith)
            requires
                s == 0,
        ;
        assert(w * field == 0) by (nonlinear_arith)
            requires
                field == 0,
        ;
    }
}

/// Numerators may be scaled by powers of two when the exponent makes up for it.
pub(crate) proof fn lemma_round_shifted(f: Format, n: nat, e: int, j: nat)
    ensures
        crate::format::round(f, n * pow2(j), 1, e) == crate::format::round(f, n, 1, e + j),
{
    lemma_pow2_pos(j);
    crate::format::lemma_round_rescale(f, n * pow2(j), 1, e, j);
    crate::format::lemma_round_cancel(f, n, 1, e + j, pow2(j));
    assert(1 * pow2(j) == pow2(j));
}

/// Greater bits stand for greater numbers.
pub(crate) proof fn lemma_bits_order(f: Format, a: nat, b: nat)
    requires
        f.wf(),
        a <= b,
    ensures
        f.shift(a) <= f.shift(b),
        f.mant(a) * pow2(f.shift(a)) <= f.mant(b) * pow2(f.shift(b)),
{
    let w = pow2(f.frac as nat);
    lemma_pow2_pos(f.frac as nat);
    lemma_fundamental_div_mod(a as int, w as int);
    lemma_fundamental_div_mod(b as int, w as int);
    lemma_mod_bound(a as int, w as int);
    lemma_mod_bound(b as int, w as int);
    lemma_div_is_ordered(a as int, b as int, w as int);
    let x = f.shift(a);
    let y = f.shift(b);
    let m = f.mant(a);
    let n = f.mant(b);
    lemma_pow2_pos(x);
    lemma_pow2_pos(y);
    if a / w == b / w {
        assert(m <= n);
        assert(m * pow2(x) <= n * pow2(y)) by (nonlinear_arith)
            requires
                m <= n,
                x == y,
        ;
    } else {
        assert(n >= w);
        if a / w == 0 {
            assert(m < w && x == 0);
            lemma2_to64();
            assert(m * pow2(x) <= n * pow2(y)) by (nonlinear_arith)
                requires
                    m < w,
                    n >= w,
                    pow2(x) == 1,
                    pow2(y) >= 1,
            ;
        } else {
            assert(x + 1 <= y);
            crate::format::lemma_pow2_monotone(x + 1, y);
            lemma_pow2_unfold(x + 1);
            assert(m * pow2(x) <= n * pow2(y)) by (nonlinear_arith)
                requires
                    m < 2 * w,
                    n >= w,
                    pow2(y) >= 2 * pow2(x),
                    pow2(x) > 0,
            ;
        }
    }
}

proof fn lemma_mant_of_zero(f: Format)
    ensures
        f.mant(0) == 0,
        f.shift(0) == 0,
{
    lemma_pow2_pos(f.frac as nat);
    lemma_div_basics(pow2(f.frac as nat) as int);
    lemma_small_mod(0, pow2(f.frac as nat));
}

// --- Sums ---

pub open spec fn finite(x: Binary64) -> bool {
    x.datum().mag < 0x7ff0000000000000
}

/// To add a number that is not negative to one that is not negative does not
/// make it less.
pub proof fn adding_does_not_lessen(x: Binary64, y: Binary64)
    requires
        finite(x),
        !y.is_nan(),
        !x.datum().neg,
        !y.datum().neg,
    ensures
        x.plus(y).at_least(x),
        y.datum().mag == 0 ==> x.at_least(x.plus(y)),
{
    let f = crate::binary::binary64();
    crate::format::lemma_inf(f);
    crate::format::lemma_bound_120();
    let a = x.datum();
    let b = y.datum();
    if !finite(y) {
        return;
    }
    let lo = crate::datum::min_exponent(f, a, b);
    let i = (a.exponent(f) - lo) as nat;
    let j = (b.exponent(f) - lo) as nat;
    let p = f.mant(a.mag as nat) * pow2(i);
    let q = f.mant(b.mag as nat) * pow2(j);
    let sum = crate::datum::exact_sum(f, a, b);
    assert(sum == p + q);
    lemma_round_shifted(f, f.mant(a.mag as nat), lo as int, i);
    round_of_number(f, a.mag as nat);
    round_is_monotone(f, p, (p + q) as nat, 1, lo as int);
    assert(crate::format::round(f, p, 1, lo as int) == a.mag);
    assert(crate::format::round(f, (p + q) as nat, 1, lo as int) <= f.inf());
    if p + q == 0 {
        crate::format::lemma_round_zero(f, 1, lo as int);
    }
    if b.mag == 0 {
        lemma_mant_of_zero(f);
        assert(q == 0) by (nonlinear_arith)
            requires
                q == f.mant(0) * pow2(j),
                f.mant(0) == 0,
        ;
    }
}

/// To take a number that is not negative off one that is not negative does not
/// make it more.
pub proof fn taking_off_does_not_increase(x: Binary64, y: Binary64)
    requires
        finite(x),
        !y.is_nan(),
        !x.datum().neg,
        y.datum().neg,
    ensures
        x.at_least(x.plus(y)),
{
    let f = crate::binary::binary64();
    crate::format::lemma_inf(f);
    crate::format::lemma_bound_120();
    let a = x.datum();
    let b = y.datum();
    if !finite(y) {
        return;
    }
    let lo = crate::datum::min_exponent(f, a, b);
    let i = (a.exponent(f) - lo) as nat;
    let j = (b.exponent(f) - lo) as nat;
    let p = f.mant(a.mag as nat) * pow2(i);
    let q = f.mant(b.mag as nat) * pow2(j);
    let sum = crate::datum::exact_sum(f, a, b);
    assert((-(f.mant(b.mag as nat) as int)) * pow2(j) == -(q as int)) by (nonlinear_arith)
        requires
            q == f.mant(b.mag as nat) * pow2(j),
    ;
    assert(sum == p - q);
    if sum > 0 {
        lemma_round_shifted(f, f.mant(a.mag as nat), lo as int, i);
        round_of_number(f, a.mag as nat);
        round_is_monotone(f, (p - q) as nat, p, 1, lo as int);
        assert(crate::format::round(f, (p - q) as nat, 1, lo as int) <= a.mag);
    } else if sum < 0 {
        assert(crate::format::round(f, (q - p) as nat, 1, lo as int) <= f.inf());
    }
}

// --- Ratios of counts ---

/// The bits of a power of two.
proof fn lemma_power(e: int)
    requires
        53 <= e <= 2000,
    ensures
        crate::format::round(crate::binary::binary64(), 1, 1, e) == (e - 51) * pow2(52),
{
    let f = crate::binary::binary64();
    lemma2_to64();
    crate::format::lemma_inf(f);
    crate::format::lemma_bound_120();
    crate::datum::lemma_basic_div_by_one(1);
    crate::format::lemma_shift_from_len(f, 1, 1, e, 1, 1);
    let s = (e - 52) as nat;
    assert(crate::format::least_shift(f, 1, 1, e) == s);
    assert(crate::format::up(e - s) == pow2(52));
    assert(crate::format::up(s - e) == 1);
    crate::datum::lemma_basic_div_by_one(pow2(52));
    assert(crate::format::round_half_even(pow2(52), 1) == pow2(52));
}

/// The bits of a count, and those of twice the count.
proof fn lemma_count_bits(n: nat)
    requires
        0 < n <= pow2(65),
    ensures
        ({
            let f = crate::binary::binary64();
            let k = crate::format::round(f, n, 1, 1074);
            &&& 1023 * pow2(52) <= k <= 1088 * pow2(52)
            &&& crate::format::round(f, 2 * n, 1, 1074) == k + pow2(52)
            &&& f.mant((k + pow2(52)) as nat) == f.mant(k)
            &&& f.shift((k + pow2(52)) as nat) == f.shift(k) + 1
            &&& pow2(52) <= f.mant(k) < 2 * pow2(52)
        }),
{
    let f = crate::binary::binary64();
    let w = pow2(52);
    let k = crate::format::round(f, n, 1, 1074);
    lemma2_to64();
    crate::format::lemma_inf(f);
    crate::format::lemma_bound_120();
    lemma_power(1074);
    round_is_monotone(f, 1, n, 1, 1074);
    lemma_power(1139);
    lemma_round_shifted(f, 1, 1074, 65);
    assert(1 * pow2(65) == pow2(65));
    round_is_monotone(f, n, pow2(65), 1, 1074);
    lemma_round_shifted(f, n, 1074, 1);
    assert(n * pow2(1) == 2 * n);
    let len = crate::exact::lemma_bits_exist(n);
    crate::datum::lemma_basic_div_by_one(n);
    crate::format::lemma_shift_from_len(f, n, 1, 1074, n, len);
    crate::format::lemma_shift_from_len(f, n, 1, 1075, n, len);
    let s = crate::format::least_shift(f, n, 1, 1074);
    assert(crate::format::least_shift(f, n, 1, 1075) == s + 1);
    assert((s + 1) * w == s * w + w) by (nonlinear_arith);
    assert(k / w >= 1) by {
        lemma_div_is_ordered((1023 * w) as int, k as int, w as int);
        lemma_div_multiples_vanish(1023, w as int);
    }
    lemma_fundamental_div_mod(k as int, w as int);
    lemma_mod_bound(k as int, w as int);
    assert(k + w == (k / w + 1) * w + k % w) by (nonlinear_arith)
        requires
            k == w * (k / w) + k % w,
    ;
    lemma_fundamental_div_mod_converse(
        (k + w) as int,
        w as int,
        (k / w + 1) as int,
        (k % w) as int,
    );
}

/// A ratio of equal numbers, up to a power of two.
proof fn lemma_even_ratio(m: nat, j: nat, e: int)
    requires
        m > 0,
        53 <= e <= 2000,
    ensures
        crate::format::round(crate::binary::binary64(), m * pow2(j), m, e - j) == (e - 51) * pow2(
            52,
        ),
{
    let f = crate::binary::binary64();
    lemma_pow2_pos(j);
    crate::format::lemma_round_cancel(f, pow2(j), 1, e - j, m);
    assert(pow2(j) * m == m * pow2(j)) by (nonlinear_arith);
    assert(1 * m == m);
    lemma_round_shifted(f, 1, e - j, j);
    assert(1 * pow2(j) == pow2(j));
    lemma_power(e);
}

/// The share of a count in a total is at least a half if and only if its double
/// is not less than the total, and at most a half if it is not more.
pub proof fn share_of_half(part: int, total: int)
    requires
        0 <= part <= total,
        0 < total <= pow2(65),
    ensures
        ({
            let r = Binary64::of_int(part).over(Binary64::of_int(total));
            &&& !r.is_nan()
            &&& !r.datum().neg
            &&& 2 * part >= total ==> r.datum().mag >= crate::numbers::HALF
            &&& 2 * part <= total ==> r.datum().mag <= crate::numbers::HALF
        }),
{
    let f = crate::binary::binary64();
    let w = pow2(52);
    crate::format::lemma_inf(f);
    crate::format::lemma_bound_120();
    lemma2_to64();
    lemma_count_bits(total as nat);
    let kt = crate::format::round(f, total as nat, 1, 1074);
    let t = Binary64::of_int(total);
    assert(t.datum() == (Datum { neg: false, mag: kt as u64 }));
    let mt = f.mant(kt);
    let st = f.shift(kt);
    if part == 0 {
        crate::format::lemma_round_zero(f, 1, 1074);
        lemma_mant_of_zero(f);
        let p = Binary64::of_int(0);
        assert(p.datum() == (Datum { neg: false, mag: 0 }));
        crate::format::lemma_round_zero(f, mt, 0 - st + 1074);
    } else {
        lemma_count_bits(part as nat);
        let kp = crate::format::round(f, part as nat, 1, 1074);
        let p = Binary64::of_int(part);
        assert(p.datum() == (Datum { neg: false, mag: kp as u64 }));
        let mp = f.mant(kp);
        let sp = f.shift(kp);
        round_is_monotone(f, part as nat, total as nat, 1, 1074);
        lemma_bits_order(f, kp, kt);
        lemma_pow2_pos(sp);
        lemma_pow2_pos(sp + 1);
        lemma_even_ratio(mt, 0, 1073);
        assert(mt * pow2(0) == mt);
        assert(1022 * w == crate::numbers::HALF);
        if 2 * part >= total {
            round_is_monotone(f, total as nat, (2 * part) as nat, 1, 1074);
            lemma_bits_order(f, kt, (kp + w) as nat);
            if st == sp + 1 {
                assert(mt <= mp) by (nonlinear_arith)
                    requires
                        mt * pow2(st) <= mp * pow2((sp + 1) as nat),
                        st == sp + 1,
                        pow2((sp + 1) as nat) > 0,
                ;
                round_is_monotone(f, mt, mp, mt, 1073);
            } else {
                assert(st == sp);
                crate::format::lemma_round_rescale(f, mt, mt, 1073, 1);
                crate::format::lemma_round_cancel(f, mp, mt, 1074, 2);
                assert(mt * pow2(1) == mt * 2);
                round_is_monotone(f, mt, mp * 2, mt * 2, 1074);
            }
        }
        if 2 * part <= total {
            round_is_monotone(f, (2 * part) as nat, total as nat, 1, 1074);
            lemma_bits_order(f, (kp + w) as nat, kt);
            let j = (st - sp - 1) as nat;
            lemma_pow2_adds((sp + 1) as nat, j);
            assert(mp <= mt * pow2(j)) by (nonlinear_arith)
                requires
                    mp * pow2((sp + 1) as nat) <= mt * pow2(st),
                    pow2((sp + 1) as nat) * pow2(j) == pow2(st),
                    pow2((sp + 1) as nat) > 0,
            ;
            round_is_monotone(f, mp, mt * pow2(j), mt, 1073 - j);
            lemma_even_ratio(mt, j, 1073);
        }
    }
}

/// Numerators may be scaled by powers of two when the exponent makes up for it,
/// whatever the denominator.
pub(crate) proof fn lemma_ratio_shifted(f: Format, n: nat, d: nat, e: int, j: nat)
    requires
        d > 0,
    ensures
        crate::format::round(f, n * pow2(j), d, e) == crate::format::round(f, n, d, e + j),
{
    lemma_pow2_pos(j);
    crate::format::lemma_round_rescale(f, n * pow2(j), d, e, j);
    crate::format::lemma_round_cancel(f, n, d, e + j, pow2(j));
}

/// The share of a lesser count in a total that is held exactly rounds to less
/// than 1.
proof fn lemma_share_below_one(part: nat, total: nat)
    requires
        0 < part < total < pow2(53),
    ensures
        ({
            let f = crate::binary::binary64();
            let kp = crate::format::round(f, part, 1, 1074);
            let kt = crate::format::round(f, total, 1, 1074);
            crate::format::round(f, f.mant(kp), f.mant(kt), f.shift(kp) - f.shift(kt) + 1074)
                < 1023 * pow2(52)
        }),
{
    let f = crate::binary::binary64();
    let w = pow2(52);
    crate::format::lemma_inf(f);
    crate::format::lemma_bound_120();
    lemma2_to64();
    let lp = crate::exact::lemma_bits_exist(part);
    let lt = crate::exact::lemma_bits_exist(total);
    if lt > 53 {
        crate::format::lemma_pow2_monotone(53, (lt - 1) as nat);
    }
    if lp > lt {
        crate::format::lemma_pow2_monotone(lt, (lp - 1) as nat);
    }
    crate::exact::lemma_int_magnitude(part, lp);
    crate::exact::lemma_int_magnitude(total, lt);
    let kp = crate::format::round(f, part, 1, 1074);
    let kt = crate::format::round(f, total, 1, 1074);
    let mp = f.mant(kp);
    let mt = f.mant(kt);
    let j = (53 - (lt - lp)) as nat;
    let c = pow2((53 - lt) as nat);
    // The greatest number below 1.
    let top = (pow2(53) - 1) as nat;
    let k = (1022 * w + (w - 1)) as nat;
    lemma_pow2_unfold(53);
    lemma_fundamental_div_mod_converse(k as int, w as int, 1022, w - 1);
    assert(f.mant(k) == top);
    assert(f.shift(k) == 1021);
    round_of_number(f, k);
    crate::format::lemma_round_cancel(f, top, 1, 1021, mt);
    assert(1 * mt == mt);
    lemma_ratio_shifted(f, mp, mt, 1021, j);
    lemma_pow2_adds((53 - lp) as nat, j);
    lemma_pow2_adds(53, (53 - lt) as nat);
    assert(mp * pow2(j) == part * pow2(53) * c) by (nonlinear_arith)
        requires
            mp == part * pow2((53 - lp) as nat),
            pow2((53 - lp) as nat) * pow2(j) == pow2(53) * c,
    ;
    assert(part * pow2(53) <= top * total) by (nonlinear_arith)
        requires
            part + 1 <= total,
            total < pow2(53),
            top == pow2(53) - 1,
    ;
    assert(mp * pow2(j) <= top * mt) by (nonlinear_arith)
        requires
            mp * pow2(j) == part * pow2(53) * c,
            part * pow2(53) <= top * total,
            mt == total * c,
    ;
    round_is_monotone(f, mp * pow2(j), top * mt, mt, 1021);
}

/// The share of a count in a total lies from 0 to 1. It is 1 where the count is
/// the total, and, where the total is held exactly, only there.
pub proof fn share_of_whole(part: int, total: int)
    requires
        0 <= part <= total,
        0 < total <= pow2(65),
    ensures
        ({
            let r = Binary64::of_int(part).over(Binary64::of_int(total));
            let one = Binary64 { bits: crate::numbers::ONE };
            &&& r.at_least(Binary64 { bits: 0 })
            &&& one.at_least(r)
            &&& part == total ==> r == one
            &&& part < total < pow2(53) ==> r.below(one)
        }),
{
    let f = crate::binary::binary64();
    let w = pow2(52);
    crate::format::lemma_inf(f);
    crate::format::lemma_bound_120();
    lemma2_to64();
    lemma_count_bits(total as nat);
    let kt = crate::format::round(f, total as nat, 1, 1074);
    let t = Binary64::of_int(total);
    assert(t.datum() == (Datum { neg: false, mag: kt as u64 }));
    let mt = f.mant(kt);
    let st = f.shift(kt);
    assert(1023 * w == crate::numbers::ONE);
    if part == 0 {
        crate::format::lemma_round_zero(f, 1, 1074);
        lemma_mant_of_zero(f);
        let p = Binary64::of_int(0);
        assert(p.datum() == (Datum { neg: false, mag: 0 }));
        crate::format::lemma_round_zero(f, mt, 0 - st + 1074);
    } else {
        lemma_count_bits(part as nat);
        let kp = crate::format::round(f, part as nat, 1, 1074);
        let p = Binary64::of_int(part);
        assert(p.datum() == (Datum { neg: false, mag: kp as u64 }));
        let mp = f.mant(kp);
        let sp = f.shift(kp);
        round_is_monotone(f, part as nat, total as nat, 1, 1074);
        lemma_bits_order(f, kp, kt);
        lemma_pow2_pos(sp);
        let j = (st - sp) as nat;
        lemma_pow2_adds(sp, j);
        assert(mp <= mt * pow2(j)) by (nonlinear_arith)
            requires
                mp * pow2(sp) <= mt * pow2(st),
                pow2(sp) * pow2(j) == pow2(st),
                pow2(sp) > 0,
        ;
        round_is_monotone(f, mp, mt * pow2(j), mt, 1074 - j);
        lemma_even_ratio(mt, j, 1074);
        if part == total {
            assert(mt * pow2(0) == mt);
        } else if total < pow2(53) {
            lemma_share_below_one(part as nat, total as nat);
        }
    }
}

/// A number less a half is not negative where it is at least a half, and
/// negative or zero where it is at most a half.
pub proof fn less_a_half(r: Binary64)
    requires
        !r.is_nan(),
        !r.datum().neg,
    ensures
        ({
            let d = r.minus(Binary64 { bits: crate::numbers::HALF });
            &&& !d.is_nan()
            &&& r.datum().mag >= crate::numbers::HALF ==> !d.datum().neg
            &&& r.datum().mag <= crate::numbers::HALF ==> d.datum().neg || d.datum().mag == 0
        }),
{
    let f = crate::binary::binary64();
    crate::format::lemma_inf(f);
    crate::format::lemma_bound_120();
    let h = Binary64 { bits: crate::numbers::HALF };
    let a = r.datum();
    let b = h.negated().datum();
    assert(b == (Datum { neg: true, mag: crate::numbers::HALF }));
    if finite(r) {
        let lo = crate::datum::min_exponent(f, a, b);
        let i = (a.exponent(f) - lo) as nat;
        let j = (b.exponent(f) - lo) as nat;
        let ma = f.mant(a.mag as nat);
        let mb = f.mant(b.mag as nat);
        let sum = crate::datum::exact_sum(f, a, b);
        assert((-(mb as int)) * pow2(j) == -((mb * pow2(j)) as int)) by (nonlinear_arith);
        assert(sum == ma * pow2(i) - mb * pow2(j));
        lemma_pow2_pos(lo);
        lemma_pow2_adds(i, lo);
        lemma_pow2_adds(j, lo);
        if a.mag >= b.mag {
            lemma_bits_order(f, b.mag as nat, a.mag as nat);
            assert(ma * pow2(i) >= mb * pow2(j)) by (nonlinear_arith)
                requires
                    mb * pow2(b.exponent(f)) <= ma * pow2(a.exponent(f)),
                    pow2(i) * pow2(lo) == pow2(a.exponent(f)),
                    pow2(j) * pow2(lo) == pow2(b.exponent(f)),
                    pow2(lo) > 0,
            ;
        }
        if a.mag <= b.mag {
            lemma_bits_order(f, a.mag as nat, b.mag as nat);
            assert(ma * pow2(i) <= mb * pow2(j)) by (nonlinear_arith)
                requires
                    mb * pow2(b.exponent(f)) >= ma * pow2(a.exponent(f)),
                    pow2(i) * pow2(lo) == pow2(a.exponent(f)),
                    pow2(j) * pow2(lo) == pow2(b.exponent(f)),
                    pow2(lo) > 0,
            ;
        }
        let mag = crate::format::round(f, crate::datum::abs(sum), 1, lo as int);
        assert(mag <= f.inf());
    }
}

/// A twentieth of a number has its sign, and is zero where the number is.
pub proof fn twentieth_keeps_sign(d: Binary64)
    requires
        !d.is_nan(),
    ensures
        ({
            let y = d.times(Binary64 { bits: crate::numbers::TWENTIETH });
            &&& !y.is_nan()
            &&& y.datum().neg == d.datum().neg
            &&& d.datum().mag == 0 ==> y.datum().mag == 0
        }),
{
    let f = crate::binary::binary64();
    crate::format::lemma_inf(f);
    crate::format::lemma_bound_120();
    let t = Binary64 { bits: crate::numbers::TWENTIETH };
    let a = d.datum();
    let b = t.datum();
    assert(b == (Datum { neg: false, mag: crate::numbers::TWENTIETH }));
    if finite(d) {
        let n = f.mant(a.mag as nat) * f.mant(b.mag as nat);
        let e = a.exponent(f) + b.exponent(f) - f.scale();
        assert(crate::format::round(f, n, 1, e) <= f.inf());
        if a.mag == 0 {
            lemma_mant_of_zero(f);
            assert(n == 0) by (nonlinear_arith)
                requires
                    n == f.mant(0) * f.mant(b.mag as nat),
                    f.mant(0) == 0,
            ;
            crate::format::lemma_round_zero(f, 1, e);
        }
    }
}

} // verus!
