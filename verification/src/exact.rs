//! Integers that a double precision number holds exactly.

use vstd::prelude::*;
use vstd::arithmetic::power2::*;
use vstd::arithmetic::div_mod::*;
use crate::binary::Binary64;
use crate::datum::Datum;

verus! {

/// A positive number has a number of bits.
pub proof fn lemma_bits_exist(n: nat) -> (len: nat)
    requires
        n > 0,
    ensures
        len > 0,
        pow2((len - 1) as nat) <= n < pow2(len),
    decreases n,
{
    lemma2_to64();
    if n == 1 {
        1
    } else {
        let h = lemma_bits_exist(n / 2);
        lemma_pow2_unfold(h + 1);
        lemma_pow2_unfold(h);
        h + 1
    }
}

/// The magnitude of a small integer.
pub(crate) proof fn lemma_int_magnitude(n: nat, len: nat)
    requires
        0 < len <= 53,
        pow2((len - 1) as nat) <= n < pow2(len),
    ensures
        ({
            let f = crate::binary::binary64();
            let m = n * pow2((53 - len) as nat);
            let k = crate::format::round(f, n, 1, f.scale() as int);
            &&& pow2(52) <= m < pow2(53)
            &&& k == (1021 + len) * pow2(52) + m
            &&& f.mant(k) == m
            &&& f.shift(k) == 1021 + len
            &&& k < f.inf()
        }),
{
    let f = crate::binary::binary64();
    let m = n * pow2((53 - len) as nat);
    let c = pow2((53 - len) as nat);
    crate::format::lemma_bound_120();
    crate::format::lemma_inf(f);
    lemma_pow2_pos((53 - len) as nat);
    lemma_pow2_adds((len - 1) as nat, (53 - len) as nat);
    lemma_pow2_adds(len, (53 - len) as nat);
    assert(pow2(52) <= m < pow2(53)) by (nonlinear_arith)
        requires
            pow2((len - 1) as nat) <= n < pow2(len),
            pow2((len - 1) as nat) * c == pow2(52),
            pow2(len) * c == pow2(53),
            m == n * c,
            c > 0,
    ;
    crate::datum::lemma_basic_div_by_one(n);
    crate::format::lemma_shift_from_len(f, n, 1, 1074, n, len);
    let s: nat = (1021 + len) as nat;
    assert(crate::format::least_shift(f, n, 1, 1074) == s);
    assert(crate::format::up(s - 1074) == 1);
    assert(crate::format::up(1074 - s) == c) by {
        if len == 53 {
            lemma2_to64();
        }
    }
    crate::datum::lemma_basic_div_by_one(m);
    assert(m % 1 == 0);
    assert(crate::format::round_half_even(m, 1) == m);
    let k = crate::format::round(f, n, 1, 1074);
    assert(k == s * pow2(52) + m);
    lemma_fundamental_div_mod_converse(
        k as int,
        pow2(52) as int,
        (s + 1) as int,
        (m - pow2(52)) as int,
    );
}

/// A positive integer of 32 bits is held exactly: made a number and negated,
/// it is read back with the opposite sign taken off.
pub proof fn count_round_trip(n: int)
    requires
        0 < n <= i32::MAX,
    ensures
        Binary64::of_int(n).negated().negated().to_int32() == n,
        !(Binary64 { bits: 0 }).below(Binary64::of_int(n).negated()),
        Binary64::of_int(n).negated().below(Binary64 { bits: 0 }),
{
    let f = crate::binary::binary64();
    let len = lemma_bits_exist(n as nat);
    crate::format::lemma_bound_120();
    crate::format::lemma_inf(f);
    if len > 53 {
        crate::format::lemma_pow2_monotone(53, (len - 1) as nat);
    }
    lemma_int_magnitude(n as nat, len);
    let k = crate::format::round(f, n as nat, 1, 1074);
    let m = n * pow2((53 - len) as nat);
    let d = crate::datum::from_int(f, n);
    assert(d == (Datum { neg: false, mag: k as u64 }));
    let w = Binary64::of_int(n);
    assert(w.datum() == d);
    let v = w.negated();
    assert(v.datum() == (Datum { neg: true, mag: k as u64 }));
    assert(v.negated() == w);
    let s: nat = (1021 + len) as nat;
    let c = pow2((53 - len) as nat);
    lemma_pow2_pos((53 - len) as nat);
    assert(crate::format::up(s - 1074) == 1);
    assert(crate::format::up(1074 - s) == c) by {
        if len == 53 {
            lemma2_to64();
        }
    }
    assert(m * 1 == m);
    lemma_div_multiples_vanish(n, c as int);
    assert(c * n == m) by (nonlinear_arith)
        requires
            m == n * c,
    ;
    assert(crate::datum::truncate(f, d) == n);
}

/// The number 1 is the integer 1.
pub proof fn one_is_one()
    ensures
        Binary64::of_int(1) == (Binary64 { bits: 0x3ff0000000000000 }),
        Binary64::of_int(1).negated() == (Binary64 { bits: 0xbff0000000000000 }),
{
    lemma2_to64();
    crate::format::lemma_bound_120();
    crate::format::lemma_inf(crate::binary::binary64());
    lemma_int_magnitude(1, 1);
}

/// The integer part of the opposite of a number that is not positive is not
/// negative.
pub proof fn lemma_truncate_negated(w: Binary64)
    requires
        !(Binary64 { bits: 0 }).below(w),
    ensures
        w.negated().to_int32() >= 0,
{
    let f = crate::binary::binary64();
    crate::format::lemma_bound_120();
    crate::format::lemma_inf(f);
    let d = w.datum();
    let v = w.negated().datum();
    assert(v == (Datum { neg: !d.neg, mag: d.mag }));
    let x = f.mant(v.mag as nat) * crate::format::up(v.exponent(f) - f.scale());
    let y = crate::format::up(f.scale() - v.exponent(f));
    if f.scale() > v.exponent(f) {
        lemma_pow2_pos((f.scale() - v.exponent(f)) as nat);
    }
    assert(y > 0);
    lemma_div_pos_is_pos(x as int, y as int);
    if !w.is_nan() && v.neg {
        assert(d.mag == 0);
        assert(0nat / pow2(52) == 0 && 0nat % pow2(52) == 0) by {
            lemma_div_basics(pow2(52) as int);
            lemma_small_mod(0, pow2(52));
        }
        assert(f.mant(0) == 0);
        assert(x == 0) by (nonlinear_arith)
            requires
                x == f.mant(0) * crate::format::up(v.exponent(f) - f.scale()),
                f.mant(0) == 0,
        ;
        lemma_div_basics(y as int);
    }
}

} // verus!
