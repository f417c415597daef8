//! Embedding vectors and their similarity.

use vstd::prelude::*;
use crate::binary::Binary32;
use crate::numbers::SINGLE_MINUS_ZERO;

verus! {

/// The sum of the products of the first `n` components, from left to right,
/// starting at `start`.
pub open spec fn dot(
    a: Seq<Binary32>,
    b: Seq<Binary32>,
    n: nat,
    start: Binary32,
) -> Binary32
    decreases n,
{
    if n == 0 {
        start
    } else {
        dot(a, b, (n - 1) as nat, start).plus(a[n - 1].times(b[n - 1]))
    }
}

pub(crate) fn dot_product(a: &[Binary32], b: &[Binary32], start: Binary32) -> (r: Binary32)
    requires
        a.len() == b.len(),
    ensures
        r == dot(a@, b@, a@.len(), start),
{
    let mut r = start;
    let mut i: usize = 0;
    while i < a.len()
        invariant
            i <= a.len(),
            a.len() == b.len(),
            r == dot(a@, b@, i as nat, start),
        decreases a.len() - i,
    {
        r = r.add(a[i].mul(b[i]));
        i = i + 1;
    }
    r
}

pub open spec fn is_zero(x: Binary32) -> bool {
    x.datum().mag == 0
}

fn zero(x: Binary32) -> (r: bool)
    ensures
        r == is_zero(x),
{
    x.bits == 0 || x.bits == SINGLE_MINUS_ZERO
}

/// The cosine of the angle between two vectors; 0 where they differ in
/// length, are empty or have no length in space.
pub open spec fn cosine(a: Seq<Binary32>, b: Seq<Binary32>) -> Binary32 {
    let start = Binary32 { bits: SINGLE_MINUS_ZERO };
    let norm_a = dot(a, a, a.len(), start).root();
    let norm_b = dot(b, b, b.len(), start).root();
    if a.len() != b.len() || a.len() == 0 || is_zero(norm_a) || is_zero(norm_b) {
        Binary32 { bits: 0 }
    } else {
        dot(a, b, a.len(), start).over(norm_a.times(norm_b))
    }
}

/// The cosine of the angle between two vectors; 0 where they differ in
/// length, are empty or have no length in space.
pub fn cosine_similarity(a: &[Binary32], b: &[Binary32]) -> (r: Binary32)
    ensures
        r == cosine(a@, b@),
{
    if a.len() != b.len() || a.len() == 0 {
        return Binary32 { bits: 0 };
    }
    let start = Binary32 { bits: SINGLE_MINUS_ZERO };
    let d = dot_product(a, b, start);
    let norm_a = dot_product(a, a, start).sqrt();
    let norm_b = dot_product(b, b, start).sqrt();
    if zero(norm_a) || zero(norm_b) {
        return Binary32 { bits: 0 };
    }
    d.div(norm_a.mul(norm_b))
}

} // verus!
