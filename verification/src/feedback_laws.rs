//! What feedback says, and how sure a recall is.

use vstd::prelude::*;
use crate::binary::Binary64;
use crate::number_laws::fraction;

verus! {

/// 1 where a word stands in a text, else 0.
pub open spec fn said(lower: Seq<char>, word: Seq<char>) -> nat {
    if crate::text::has_part(lower, word) {
        1
    } else {
        0
    }
}

proof fn lemma_mentions_one_more(lower: Seq<char>, list: Seq<Seq<char>>, word: Seq<char>)
    ensures
        crate::feedback::mentions(lower, list.push(word)) == crate::feedback::mentions(lower, list)
            + said(lower, word),
{
    reveal(Seq::filter);
    assert(list.push(word).drop_last() =~= list);
}

proof fn lemma_mentions_none(lower: Seq<char>)
    ensures
        crate::feedback::mentions(lower, Seq::empty()) == 0,
{
    reveal(Seq::filter);
}

/// How many words of praise stand in a text.
pub open spec fn praise(lower: Seq<char>) -> nat {
    said(lower, "good"@) + said(lower, "great"@) + said(lower, "excellent"@) + said(
        lower,
        "correct"@,
    ) + said(lower, "right"@) + said(lower, "yes"@) + said(lower, "nice"@) + said(
        lower,
        "perfect"@,
    )
}

/// How many words of blame stand in a text.
pub open spec fn blame(lower: Seq<char>) -> nat {
    said(lower, "bad"@) + said(lower, "wrong"@) + said(lower, "incorrect"@) + said(lower, "no"@)
        + said(lower, "error"@) + said(lower, "mistake"@) + said(lower, "poor"@)
}

proof fn lemma_praise(lower: Seq<char>)
    ensures
        crate::feedback::mentions(lower, crate::feedback::positive_words()) == praise(lower),
{
    let a = Seq::<Seq<char>>::empty();
    let b = a.push("good"@);
    let c = b.push("great"@);
    let d = c.push("excellent"@);
    let e = d.push("correct"@);
    let f = e.push("right"@);
    let g = f.push("yes"@);
    let h = g.push("nice"@);
    lemma_mentions_none(lower);
    lemma_mentions_one_more(lower, a, "good"@);
    lemma_mentions_one_more(lower, b, "great"@);
    lemma_mentions_one_more(lower, c, "excellent"@);
    lemma_mentions_one_more(lower, d, "correct"@);
    lemma_mentions_one_more(lower, e, "right"@);
    lemma_mentions_one_more(lower, f, "yes"@);
    lemma_mentions_one_more(lower, g, "nice"@);
    lemma_mentions_one_more(lower, h, "perfect"@);
    assert(crate::feedback::positive_words() =~= h.push("perfect"@));
}

proof fn lemma_blame(lower: Seq<char>)
    ensures
        crate::feedback::mentions(lower, crate::feedback::negative_words()) == blame(lower),
{
    let a = Seq::<Seq<char>>::empty();
    let b = a.push("bad"@);
    let c = b.push("wrong"@);
    let d = c.push("incorrect"@);
    let e = d.push("no"@);
    let f = e.push("error"@);
    let g = f.push("mistake"@);
    lemma_mentions_none(lower);
    lemma_mentions_one_more(lower, a, "bad"@);
    lemma_mentions_one_more(lower, b, "wrong"@);
    lemma_mentions_one_more(lower, c, "incorrect"@);
    lemma_mentions_one_more(lower, d, "no"@);
    lemma_mentions_one_more(lower, e, "error"@);
    lemma_mentions_one_more(lower, f, "mistake"@);
    lemma_mentions_one_more(lower, g, "poor"@);
    assert(crate::feedback::negative_words() =~= g.push("poor"@));
}

/// Feedback with more words of praise than of blame counts 1, feedback with more
/// words of blame -1, and any other 0. In particular a text with neither kind of
/// word is neutral.
pub proof fn polarity_weighs_words(lower: Seq<char>)
    ensures
        praise(lower) > blame(lower) ==> crate::feedback::polarity(lower) == Binary64::of_int(1),
        praise(lower) < blame(lower) ==> crate::feedback::polarity(lower) == Binary64::of_int(
            1,
        ).negated(),
        praise(lower) == blame(lower) ==> crate::feedback::polarity(lower) == Binary64::of_int(0),
{
    crate::number_laws::integers_are_what_they_say();
    lemma_praise(lower);
    lemma_blame(lower);
}

/// Whether `y` is `x`, moved to 0 where it is less and to 1 where it is more.
pub open spec fn is_clamped(x: Binary64, y: Binary64) -> bool {
    &&& x.below(Binary64::of_int(0)) ==> y == Binary64::of_int(0)
    &&& Binary64::of_int(1).below(x) ==> y == Binary64::of_int(1)
    &&& !x.below(Binary64::of_int(0)) && !Binary64::of_int(1).below(x) ==> y == x
}

/// A recall is the surer the more active and the more important a memory is: the
/// activation, from -10 to 10, is brought to a share from 0 to 1; seven tenths
/// of it and three tenths of the importance make up the confidence, which is
/// kept from 0 to 1. The share is given.
pub proof fn confidence_weighs_activation_and_importance(
    activation: Binary64,
    importance: Binary64,
) -> (share: Binary64)
    ensures
        is_clamped(activation.plus(Binary64::of_int(10)).over(Binary64::of_int(20)), share),
        is_clamped(
            share.times(fraction(7, 10)).plus(importance.times(fraction(3, 10))),
            crate::feedback::confidence(activation, importance),
        ),
{
    crate::format::lemma_bound_120();
    crate::format::lemma_inf(crate::binary::binary64());
    crate::number_laws::integers_are_what_they_say();
    crate::number_laws::fractions_are_what_they_say();
    let zero = Binary64 { bits: 0 };
    let one = Binary64 { bits: crate::numbers::ONE };
    activation.plus(Binary64 { bits: crate::numbers::TEN }).over(
        Binary64 { bits: crate::numbers::TWENTY },
    ).within(zero, one)
}

/// A confidence of 0.8 or more is called high, one of 0.5 or more medium, one of
/// 0.2 or more low, and any other very low.
pub proof fn labels_tell_confidence(c: Binary64)
    ensures
        c.at_least(fraction(4, 5)) ==> crate::feedback::label(c) == "high"@,
        c.below(fraction(4, 5)) && c.at_least(fraction(1, 2)) ==> crate::feedback::label(c)
            == "medium"@,
        c.below(fraction(1, 2)) && c.at_least(fraction(1, 5)) ==> crate::feedback::label(c)
            == "low"@,
        c.below(fraction(1, 5)) ==> crate::feedback::label(c) == "very low"@,
{
    crate::format::lemma_bound_120();
    crate::format::lemma_inf(crate::binary::binary64());
    crate::number_laws::fractions_are_what_they_say();
}

} // verus!
