//! What the numbers that the library uses stand for: each is the nearest one to
//! an integer, or the quotient of two integers.

use vstd::prelude::*;
use vstd::arithmetic::power2::*;
use crate::binary::Binary64;
use crate::datum::Datum;

verus! {

/// The quotient of two integers that are held exactly is rounded once.
pub proof fn quotient_of_integers(p: nat, q: nat)
    requires
        0 < p < pow2(53),
        0 < q < pow2(53),
    ensures
        ({
            let f = crate::binary::binary64();
            let k = crate::format::round(f, p, q, 1074);
            &&& k <= f.inf()
            &&& Binary64::of_int(p as int).over(Binary64::of_int(q as int)) == Binary64::of(
                Datum { neg: false, mag: k as u64 },
            )
        }),
{
    let f = crate::binary::binary64();
    crate::format::lemma_inf(f);
    crate::format::lemma_bound_120();
    let lp = lemma_short(p);
    let lq = lemma_short(q);
    crate::exact::lemma_int_magnitude(p, lp);
    crate::exact::lemma_int_magnitude(q, lq);
    let kp = crate::format::round(f, p, 1, 1074);
    let kq = crate::format::round(f, q, 1, 1074);
    assert(Binary64::of_int(p as int).datum() == (Datum { neg: false, mag: kp as u64 }));
    assert(Binary64::of_int(q as int).datum() == (Datum { neg: false, mag: kq as u64 }));
    let i = (53 - lp) as nat;
    let j = (53 - lq) as nat;
    lemma_pow2_pos(j);
    assert(q * pow2(j) > 0) by (nonlinear_arith)
        requires
            q > 0,
            pow2(j) > 0,
    ;
    crate::rounding::lemma_ratio_shifted(f, p, q * pow2(j), lp - lq + 1074, i);
    crate::format::lemma_round_rescale(f, p, q, 1074, j);
    assert(crate::format::round(f, p, q, 1074) <= f.inf());
}

proof fn lemma_short(n: nat) -> (len: nat)
    requires
        0 < n < pow2(53),
    ensures
        0 < len <= 53,
        pow2((len - 1) as nat) <= n < pow2(len),
{
    let len = crate::exact::lemma_bits_exist(n);
    if len > 53 {
        crate::format::lemma_pow2_monotone(53, (len - 1) as nat);
    }
    len
}

/// The bits of a quotient, from the length of its integer part after a shift.
proof fn lemma_quotient_bits(p: nat, q: nat, len: nat)
    requires
        p > 0,
        q > 0,
        53 <= len <= 64,
        pow2((len - 1) as nat) <= p * pow2(60) / q < pow2(len),
    ensures
        ({
            let f = crate::binary::binary64();
            let k = (961 + len) * pow2(52) + crate::format::round_half_even(
                p * pow2(60),
                q * pow2((len - 53) as nat),
            );
            k < f.inf() ==> crate::format::round(f, p, q, 1074) == k
        }),
{
    let f = crate::binary::binary64();
    crate::rounding::lemma_ratio_shifted(f, p, q, 1014, 60);
    let n = p * pow2(60);
    crate::format::lemma_shift_from_len(f, n, q, 1014, n / q, len);
    let s = (961 + len) as nat;
    assert(crate::format::least_shift(f, n, q, 1014) == s);
    assert(crate::format::up(1014 - s) == 1);
    assert(crate::format::up(s - 1014) == pow2((len - 53) as nat)) by {
        lemma2_to64();
    }
    assert(n * 1 == n);
}

proof fn lemma_twentieth()
    ensures
        crate::format::round(crate::binary::binary64(), 1, 20, 1074) == crate::numbers::TWENTIETH,
{
    lemma2_to64();
    lemma2_to64_rest();
    crate::format::lemma_inf(crate::binary::binary64());
    assert(1 * pow2(60) == 1152921504606846976);
    assert(20 * pow2(3) == 160);
    lemma_quotient_bits(1, 20, 56);
    assert(crate::format::round_half_even(1152921504606846976, 160) == 7205759403792794);
}

proof fn lemma_tenth()
    ensures
        crate::format::round(crate::binary::binary64(), 1, 10, 1074) == crate::numbers::TENTH,
{
    lemma2_to64();
    lemma2_to64_rest();
    crate::format::lemma_inf(crate::binary::binary64());
    assert(1 * pow2(60) == 1152921504606846976);
    assert(10 * pow2(4) == 160);
    lemma_quotient_bits(1, 10, 57);
    assert(crate::format::round_half_even(1152921504606846976, 160) == 7205759403792794);
}

proof fn lemma_fifth()
    ensures
        crate::format::round(crate::binary::binary64(), 1, 5, 1074) == crate::numbers::FIFTH,
{
    lemma2_to64();
    lemma2_to64_rest();
    crate::format::lemma_inf(crate::binary::binary64());
    assert(1 * pow2(60) == 1152921504606846976);
    assert(5 * pow2(5) == 160);
    lemma_quotient_bits(1, 5, 58);
    assert(crate::format::round_half_even(1152921504606846976, 160) == 7205759403792794);
}

proof fn lemma_three_tenths()
    ensures
        crate::format::round(crate::binary::binary64(), 3, 10, 1074) == crate::numbers::THREE_TENTHS,
{
    lemma2_to64();
    lemma2_to64_rest();
    crate::format::lemma_inf(crate::binary::binary64());
    assert(3 * pow2(60) == 3458764513820540928);
    assert(10 * pow2(6) == 640);
    lemma_quotient_bits(3, 10, 59);
    assert(crate::format::round_half_even(3458764513820540928, 640) == 5404319552844595);
}

proof fn lemma_half()
    ensures
        crate::format::round(crate::binary::binary64(), 1, 2, 1074) == crate::numbers::HALF,
{
    lemma2_to64();
    lemma2_to64_rest();
    crate::format::lemma_inf(crate::binary::binary64());
    assert(1 * pow2(60) == 1152921504606846976);
    assert(2 * pow2(7) == 256);
    lemma_quotient_bits(1, 2, 60);
    assert(crate::format::round_half_even(1152921504606846976, 256) == 4503599627370496);
}

proof fn lemma_seven_tenths()
    ensures
        crate::format::round(crate::binary::binary64(), 7, 10, 1074) == crate::numbers::SEVEN_TENTHS,
{
    lemma2_to64();
    lemma2_to64_rest();
    crate::format::lemma_inf(crate::binary::binary64());
    assert(7 * pow2(60) == 8070450532247928832);
    assert(10 * pow2(7) == 1280);
    lemma_quotient_bits(7, 10, 60);
    assert(crate::format::round_half_even(8070450532247928832, 1280) == 6305039478318694);
}

proof fn lemma_four_fifths()
    ensures
        crate::format::round(crate::binary::binary64(), 4, 5, 1074) == crate::numbers::FOUR_FIFTHS,
{
    lemma2_to64();
    lemma2_to64_rest();
    crate::format::lemma_inf(crate::binary::binary64());
    assert(4 * pow2(60) == 4611686018427387904);
    assert(5 * pow2(7) == 640);
    lemma_quotient_bits(4, 5, 60);
    assert(crate::format::round_half_even(4611686018427387904, 640) == 7205759403792794);
}

proof fn lemma_eleven_tenths()
    ensures
        crate::format::round(crate::binary::binary64(), 11, 10, 1074) == crate::numbers::ELEVEN_TENTHS,
{
    lemma2_to64();
    lemma2_to64_rest();
    crate::format::lemma_inf(crate::binary::binary64());
    assert(11 * pow2(60) == 12682136550675316736);
    assert(10 * pow2(8) == 2560);
    lemma_quotient_bits(11, 10, 61);
    assert(crate::format::round_half_even(12682136550675316736, 2560) == 4953959590107546);
}

/// The quotient of two integers.
pub open spec fn fraction(p: int, q: int) -> Binary64 {
    Binary64::of_int(p).over(Binary64::of_int(q))
}

/// The fractions that the library uses are what their names say.
pub proof fn fractions_are_what_they_say()
    ensures
        fraction(1, 20) == (Binary64 { bits: crate::numbers::TWENTIETH }),
        fraction(1, 10) == (Binary64 { bits: crate::numbers::TENTH }),
        fraction(1, 5) == (Binary64 { bits: crate::numbers::FIFTH }),
        fraction(3, 10) == (Binary64 { bits: crate::numbers::THREE_TENTHS }),
        fraction(1, 2) == (Binary64 { bits: crate::numbers::HALF }),
        fraction(7, 10) == (Binary64 { bits: crate::numbers::SEVEN_TENTHS }),
        fraction(4, 5) == (Binary64 { bits: crate::numbers::FOUR_FIFTHS }),
        fraction(11, 10) == (Binary64 { bits: crate::numbers::ELEVEN_TENTHS }),
{
    lemma2_to64();
    lemma2_to64_rest();
    lemma_twentieth();
    lemma_tenth();
    lemma_fifth();
    lemma_three_tenths();
    lemma_half();
    lemma_seven_tenths();
    lemma_four_fifths();
    lemma_eleven_tenths();
    quotient_of_integers(1, 20);
    quotient_of_integers(1, 10);
    quotient_of_integers(1, 5);
    quotient_of_integers(3, 10);
    quotient_of_integers(1, 2);
    quotient_of_integers(7, 10);
    quotient_of_integers(4, 5);
    quotient_of_integers(11, 10);
}

/// The integers that the library uses are what their names say.
pub proof fn integers_are_what_they_say()
    ensures
        Binary64::of_int(0) == (Binary64 { bits: 0 }),
        Binary64::of_int(1) == (Binary64 { bits: crate::numbers::ONE }),
        Binary64::of_int(2) == (Binary64 { bits: crate::numbers::TWO }),
        Binary64::of_int(10) == (Binary64 { bits: crate::numbers::TEN }),
        Binary64::of_int(20) == (Binary64 { bits: crate::numbers::TWENTY }),
        Binary64::of_int(3600) == (Binary64 { bits: crate::numbers::SECONDS_PER_HOUR }),
        Binary64::of_int(1).negated() == (Binary64 { bits: crate::numbers::MINUS_ONE }),
        Binary64::of_int(0).negated() == (Binary64 { bits: crate::numbers::MINUS_ZERO }),
{
    let f = crate::binary::binary64();
    lemma2_to64();
    lemma2_to64_rest();
    crate::format::lemma_inf(f);
    crate::format::lemma_bound_120();
    crate::format::lemma_round_zero(f, 1, 1074);
    crate::exact::lemma_int_magnitude(1, 1);
    crate::exact::lemma_int_magnitude(2, 2);
    crate::exact::lemma_int_magnitude(10, 4);
    crate::exact::lemma_int_magnitude(20, 5);
    crate::exact::lemma_int_magnitude(3600, 12);
}

} // verus!
