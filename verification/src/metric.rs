//! The masked Hamming distance as a mathematical function on sequences of
//! observations, and the laws it obeys.
//!
//! A sample is modelled as a `Seq<Option<bool>>`: `Some(v)` is an observed
//! value, `None` a missing one.

use crate::words::unit;
use vstd::prelude::*;

verus! {

/// Two observations count towards the distance when both are present and
/// their values are unequal.
pub open spec fn differs(x: Option<bool>, y: Option<bool>) -> bool {
    x is Some && y is Some && x != y
}

/// The number of positions at which `a` and `b` are both observed and hold
/// different values. Meant for sequences of equal length.
pub open spec fn masked_distance(a: Seq<Option<bool>>, b: Seq<Option<bool>>) -> nat
    recommends
        a.len() == b.len(),
    decreases a.len(),
{
    if a.len() == 0 {
        0
    } else {
        masked_distance(a.drop_last(), b.drop_last()) + unit(differs(a.last(), b.last()))
    }
}

/// No position is missing in `a`.
pub open spec fn fully_observed(a: Seq<Option<bool>>) -> bool {
    forall|i: int| 0 <= i < a.len() ==> (#[trigger] a[i]) is Some
}

/// Extending both prefixes by one position adds that position's
/// contribution.
pub proof fn lemma_distance_step(a: Seq<Option<bool>>, b: Seq<Option<bool>>, i: int)
    requires
        0 <= i < a.len(),
        a.len() == b.len(),
    ensures
        masked_distance(a.take(i + 1), b.take(i + 1)) == masked_distance(a.take(i), b.take(i))
            + unit(differs(a[i], b[i])),
{
    assert(a.take(i + 1).drop_last() =~= a.take(i));
    assert(b.take(i + 1).drop_last() =~= b.take(i));
}

/// The distance never exceeds the number of positions.
pub proof fn lemma_distance_bound(a: Seq<Option<bool>>, b: Seq<Option<bool>>)
    ensures
        masked_distance(a, b) <= a.len(),
    decreases a.len(),
{
    if a.len() > 0 {
        lemma_distance_bound(a.drop_last(), b.drop_last());
    }
}

/// The distance does not depend on the order of its arguments.
pub proof fn lemma_distance_symmetric(a: Seq<Option<bool>>, b: Seq<Option<bool>>)
    requires
        a.len() == b.len(),
    ensures
        masked_distance(a, b) == masked_distance(b, a),
    decreases a.len(),
{
    if a.len() > 0 {
        lemma_distance_symmetric(a.drop_last(), b.drop_last());
    }
}

/// Every sample is at distance zero from itself.
pub proof fn lemma_distance_to_self(a: Seq<Option<bool>>)
    ensures
        masked_distance(a, a) == 0,
    decreases a.len(),
{
    if a.len() > 0 {
        lemma_distance_to_self(a.drop_last());
    }
}

/// Among samples without missing values the distance obeys the triangle
/// inequality.
pub proof fn lemma_distance_triangle(
    a: Seq<Option<bool>>,
    b: Seq<Option<bool>>,
    c: Seq<Option<bool>>,
)
    requires
        a.len() == b.len(),
        b.len() == c.len(),
        fully_observed(a),
        fully_observed(b),
        fully_observed(c),
    ensures
        masked_distance(a, c) <= masked_distance(a, b) + masked_distance(b, c),
    decreases a.len(),
{
    if a.len() > 0 {
        let last = a.len() - 1;
        assert(a[last] is Some && b[last] is Some && c[last] is Some);
        assert forall|i: int| 0 <= i < a.drop_last().len() implies (#[trigger] a.drop_last()[i])
            is Some by {
            assert(a[i] is Some);
        }
        assert forall|i: int| 0 <= i < b.drop_last().len() implies (#[trigger] b.drop_last()[i])
            is Some by {
            assert(b[i] is Some);
        }
        assert forall|i: int| 0 <= i < c.drop_last().len() implies (#[trigger] c.drop_last()[i])
            is Some by {
            assert(c[i] is Some);
        }
        lemma_distance_triangle(a.drop_last(), b.drop_last(), c.drop_last());
    }
}

/// Marking one more position of the first sample as missing never
/// increases the distance.
pub proof fn lemma_masking_left(a: Seq<Option<bool>>, b: Seq<Option<bool>>, i: int)
    requires
        a.len() == b.len(),
        0 <= i < a.len(),
    ensures
        masked_distance(a.update(i, None), b) <= masked_distance(a, b),
    decreases a.len(),
{
    let masked = a.update(i, None);
    if i == a.len() - 1 {
        assert(masked.drop_last() =~= a.drop_last());
    } else {
        assert(masked.drop_last() =~= a.drop_last().update(i, None));
        lemma_masking_left(a.drop_last(), b.drop_last(), i);
    }
}

/// Marking one more position as missing, in either of two samples, never
/// increases their distance.
pub proof fn lemma_masking_monotone(a: Seq<Option<bool>>, b: Seq<Option<bool>>, i: int)
    requires
        a.len() == b.len(),
        0 <= i < a.len(),
    ensures
        masked_distance(a.update(i, None), b) <= masked_distance(a, b),
        masked_distance(a, b.update(i, None)) <= masked_distance(a, b),
{
    lemma_masking_left(a, b, i);
    lemma_masking_left(b, a, i);
    lemma_distance_symmetric(a, b);
    lemma_distance_symmetric(a, b.update(i, None));
}

} // verus!
