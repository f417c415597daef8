//! Feedback on recalled memories, and how sure a recall is.

use vstd::prelude::*;
use crate::binary::Binary64;
use crate::numbers::{
    FIFTH, FOUR_FIFTHS, HALF, MINUS_ONE, ONE, SEVEN_TENTHS, TEN, THREE_TENTHS, TWENTY,
};
use crate::text::contains;

verus! {

/// Words of praise.
pub open spec fn positive_words() -> Seq<Seq<char>> {
    seq![
        "good"@, "great"@, "excellent"@, "correct"@, "right"@, "yes"@, "nice"@, "perfect"@,
    ]
}

/// Words of blame.
pub open spec fn negative_words() -> Seq<Seq<char>> {
    seq!["bad"@, "wrong"@, "incorrect"@, "no"@, "error"@, "mistake"@, "poor"@]
}

/// How many of some words stand in a text.
pub open spec fn mentions(lower: Seq<char>, list: Seq<Seq<char>>) -> nat {
    list.filter(|w: Seq<char>| crate::text::has_part(lower, w)).len()
}

/// Whether a feedback in lower case praises (1), blames (-1) or neither (0).
pub open spec fn polarity(lower: Seq<char>) -> Binary64 {
    let praise = mentions(lower, positive_words());
    let blame = mentions(lower, negative_words());
    if praise > blame {
        Binary64 { bits: ONE }
    } else if blame > praise {
        Binary64 { bits: MINUS_ONE }
    } else {
        Binary64 { bits: 0 }
    }
}

fn count_mentions(lower: &str, list: &Vec<&str>) -> (n: usize)
    ensures
        n == mentions(lower@, crate::content::slices(list@)),
{
    let ghost all = crate::content::slices(list@);
    let ghost has = |w: Seq<char>| crate::text::has_part(lower@, w);
    let mut n: usize = 0;
    let mut i: usize = 0;
    assert(all.take(0).filter(has).len() == 0) by {
        reveal(Seq::filter);
    }
    while i < list.len()
        invariant
            i <= list.len(),
            n <= i,
            all == crate::content::slices(list@),
            has == (|w: Seq<char>| crate::text::has_part(lower@, w)),
            n == all.take(i as int).filter(has).len(),
        decreases list.len() - i,
    {
        assert(all.take(i + 1).drop_last() == all.take(i as int));
        assert(all.take(i + 1).last() == list@[i as int]@);
        assert(all.take(i + 1).filter(has).len() == n + if crate::text::has_part(
            lower@,
            list@[i as int]@,
        ) {
            1int
        } else {
            0
        }) by {
            reveal(Seq::filter);
        }
        if contains(lower, list[i]) {
            n = n + 1;
        }
        i = i + 1;
    }
    assert(all.take(list.len() as int) == all);
    n
}

/// Whether a feedback in lower case praises (1), blames (-1) or neither (0).
pub fn polarity_of(lower: &str) -> (r: Binary64)
    ensures
        r == polarity(lower@),
{
    let positive: Vec<&str> = vec![
        "good", "great", "excellent", "correct", "right", "yes", "nice", "perfect",
    ];
    let negative: Vec<&str> = vec![
        "bad", "wrong", "incorrect", "no", "error", "mistake", "poor",
    ];
    assert(crate::content::slices(positive@) == positive_words());
    assert(crate::content::slices(negative@) == negative_words());
    let praise = count_mentions(lower, &positive);
    let blame = count_mentions(lower, &negative);
    if praise > blame {
        Binary64 { bits: ONE }
    } else if blame > praise {
        Binary64 { bits: MINUS_ONE }
    } else {
        Binary64 { bits: 0 }
    }
}

/// Whether a feedback praises (1), blames (-1) or neither (0): it holds more
/// words of the one kind than of the other, whatever their case.
pub fn detect_feedback_polarity(feedback: &str) -> (r: Binary64)
    ensures
        r == polarity(crate::text::lowercase(feedback@)),
{
    let lower = feedback.to_lowercase();
    polarity_of(lower.as_str())
}

/// How sure a recall with the given activation is of a memory of the given
/// importance, from 0 to 1.
pub open spec fn confidence(activation: Binary64, importance: Binary64) -> Binary64 {
    let zero = Binary64 { bits: 0 };
    let one = Binary64 { bits: ONE };
    let normal = activation.plus(Binary64 { bits: TEN }).over(Binary64 { bits: TWENTY });
    normal.within(zero, one).times(Binary64 { bits: SEVEN_TENTHS }).plus(
        importance.times(Binary64 { bits: THREE_TENTHS }),
    ).within(zero, one)
}

/// How sure a recall with the given activation is of a memory of the given
/// importance, from 0 to 1.
pub fn compute_confidence(activation: Binary64, importance: Binary64) -> (r: Binary64)
    ensures
        r == confidence(activation, importance),
{
    let zero = Binary64 { bits: 0 };
    let one = Binary64 { bits: ONE };
    let normal = activation.add(Binary64 { bits: TEN }).div(Binary64 { bits: TWENTY });
    let blend = normal.clamp(zero, one).mul(Binary64 { bits: SEVEN_TENTHS }).add(
        importance.mul(Binary64 { bits: THREE_TENTHS }),
    );
    blend.clamp(zero, one)
}

/// The name of a confidence.
pub open spec fn label(confidence: Binary64) -> Seq<char> {
    if confidence.at_least(Binary64 { bits: FOUR_FIFTHS }) {
        "high"@
    } else if confidence.at_least(Binary64 { bits: HALF }) {
        "medium"@
    } else if confidence.at_least(Binary64 { bits: FIFTH }) {
        "low"@
    } else {
        "very low"@
    }
}

/// The name of a confidence.
pub fn confidence_label(confidence: Binary64) -> (r: String)
    ensures
        r@ == label(confidence),
{
    if confidence.ge(Binary64 { bits: FOUR_FIFTHS }) {
        "high".to_owned()
    } else if confidence.ge(Binary64 { bits: HALF }) {
        "medium".to_owned()
    } else if confidence.ge(Binary64 { bits: FIFTH }) {
        "low".to_owned()
    } else {
        "very low".to_owned()
    }
}

} // verus!
