//! Putting the samples of a signal in ascending order.
//!
//! A sample is an IEEE-754 binary64 number, handed over as its 64 bits: one
//! sign bit, then eleven exponent bits and fifty-two fraction bits that
//! together grow with the magnitude of the number. The empirical
//! distribution of a signal is read off its samples in ascending order, so
//! a signal that holds a value without a place in that order, a NaN, is
//! refused.

use crate::error::EstimatorError;
use vstd::prelude::*;
use vstd::relations::*;
use vstd::seq_lib::*;

verus! {

/// The sign bit of a sample.
pub const SIGN_MASK: u64 = 0x8000_0000_0000_0000;

/// The exponent and fraction bits of a sample.
pub const MAGNITUDE_MASK: u64 = 0x7fff_ffff_ffff_ffff;

/// The magnitude bits of infinity. Above them lie the NaNs.
pub const INFINITY_MAGNITUDE: u64 = 0x7ff0_0000_0000_0000;

/// The bits of a sample without its sign.
pub open spec fn magnitude(bits: u64) -> u64 {
    bits & MAGNITUDE_MASK
}

/// Whether the sign bit of a sample is set.
pub open spec fn is_negative(bits: u64) -> bool {
    bits & SIGN_MASK != 0
}

/// Whether a sample is not a number.
pub open spec fn is_nan(bits: u64) -> bool {
    magnitude(bits) > INFINITY_MAGNITUDE
}

/// Whether some sample of `samples` is not a number.
pub open spec fn has_nan(samples: Seq<u64>) -> bool {
    exists|i: int| 0 <= i < samples.len() && is_nan(#[trigger] samples[i])
}

/// Whether sample `a` comes no later than sample `b` in ascending order.
///
/// A negative sample comes before one that is not negative. Of two samples
/// that are not negative the one of smaller magnitude comes first, of two
/// negative samples the one of larger magnitude. This is the order of the
/// numbers, with negative zero placed just before positive zero.
pub open spec fn precedes(a: u64, b: u64) -> bool {
    if is_negative(a) {
        !is_negative(b) || magnitude(a) >= magnitude(b)
    } else {
        !is_negative(b) && magnitude(a) <= magnitude(b)
    }
}

/// Whether `samples` is in ascending order.
pub open spec fn is_ascending(samples: Seq<u64>) -> bool {
    forall|i: int, j: int| 0 <= i < j < samples.len() ==> precedes(samples[i], samples[j])
}

/// Whether `ranked` holds the samples of `samples`, each as often as it
/// occurs there, in ascending order.
pub open spec fn is_ranking_of(ranked: Seq<u64>, samples: Seq<u64>) -> bool {
    is_ascending(ranked) && ranked.to_multiset() == samples.to_multiset()
}

/// An unsigned number that grows as the sample does: the bits of a negative
/// sample are inverted, and a sample that is not negative gets the top bit
/// set.
pub open spec fn order_key(bits: u64) -> u64 {
    if is_negative(bits) {
        !bits
    } else {
        bits | SIGN_MASK
    }
}

/// Samples are ordered as their keys are, and distinct samples have distinct
/// keys.
pub proof fn lemma_order_key(a: u64, b: u64)
    ensures
        precedes(a, b) <==> order_key(a) <= order_key(b),
        order_key(a) == order_key(b) ==> a == b,
{
    assert(precedes(a, b) <==> order_key(a) <= order_key(b)) by (bit_vector);
    assert(order_key(a) == order_key(b) ==> a == b) by (bit_vector);
}

/// The order of the samples is total: any two samples are ordered one way
/// or the other, both ways only if they are the same sample, and the order
/// carries over from one pair to the next.
pub proof fn lemma_precedes_is_total_order()
    ensures
        total_ordering(|a: u64, b: u64| precedes(a, b)),
{
    let leq = |a: u64, b: u64| precedes(a, b);
    assert forall|x: u64| #[trigger] leq(x, x) by {
        lemma_order_key(x, x);
    }
    assert forall|x: u64, y: u64| #[trigger] leq(x, y) && #[trigger] leq(y, x) implies x == y by {
        lemma_order_key(x, y);
        lemma_order_key(y, x);
    }
    assert forall|x: u64, y: u64, z: u64| #[trigger] leq(x, y) && #[trigger] leq(y, z) implies leq(
        x,
        z,
    ) by {
        lemma_order_key(x, y);
        lemma_order_key(y, z);
        lemma_order_key(x, z);
    }
    assert forall|x: u64, y: u64| #[trigger] leq(x, y) || #[trigger] leq(y, x) by {
        lemma_order_key(x, y);
        lemma_order_key(y, x);
    }
}

/// A signal has one ranking only, and signals that hold the same samples,
/// in whatever order, have the same ranking and agree on whether a NaN is
/// among them.
pub proof fn lemma_ranking_ignores_order(
    first: Seq<u64>,
    second: Seq<u64>,
    first_ranked: Seq<u64>,
    second_ranked: Seq<u64>,
)
    requires
        first.to_multiset() == second.to_multiset(),
        is_ranking_of(first_ranked, first),
        is_ranking_of(second_ranked, second),
    ensures
        first_ranked == second_ranked,
        has_nan(first) == has_nan(second),
{
    broadcast use group_to_multiset_ensures;

    let leq = |a: u64, b: u64| precedes(a, b);
    lemma_precedes_is_total_order();
    assert(sorted_by(first_ranked, leq));
    assert(sorted_by(second_ranked, leq));
    lemma_sorted_unique(first_ranked, second_ranked, leq);
    first.to_multiset_ensures();
    second.to_multiset_ensures();
    if has_nan(first) {
        let i = choose|i: int| 0 <= i < first.len() && is_nan(#[trigger] first[i]);
        assert(first.contains(first[i]));
        assert(first.to_multiset().count(first[i]) > 0);
        assert(second.contains(first[i]));
    }
    if has_nan(second) {
        let i = choose|i: int| 0 <= i < second.len() && is_nan(#[trigger] second[i]);
        assert(second.contains(second[i]));
        assert(second.to_multiset().count(second[i]) > 0);
        assert(first.contains(second[i]));
    }
}

/// A signal whose samples already ascend is its own ranking, and has no
/// other.
pub proof fn lemma_ascending_signal_is_its_ranking(samples: Seq<u64>, ranked: Seq<u64>)
    requires
        is_ascending(samples),
        is_ranking_of(ranked, samples),
    ensures
        ranked == samples,
{
    lemma_ranking_ignores_order(samples, samples, ranked, samples);
}

/// Whether a sample is not a number.
pub fn sample_is_nan(bits: u64) -> (nan: bool)
    ensures
        nan == is_nan(bits),
{
    (bits & MAGNITUDE_MASK) > INFINITY_MAGNITUDE
}

/// The key of a sample.
fn rank_key(bits: u64) -> (key: u64)
    ensures
        key == order_key(bits),
{
    if bits & SIGN_MASK != 0 {
        !bits
    } else {
        bits | SIGN_MASK
    }
}

/// Whether sample `a` comes no later than sample `b` in ascending order.
pub fn sample_precedes(a: u64, b: u64) -> (first: bool)
    ensures
        first == precedes(a, b),
{
    proof {
        lemma_order_key(a, b);
    }
    rank_key(a) <= rank_key(b)
}

/// Whether the keys of `samples` never fall.
spec fn keys_ascending(samples: Seq<u64>) -> bool {
    forall|i: int, j: int|
        0 <= i < j < samples.len() ==> order_key(samples[i]) <= order_key(samples[j])
}

/// Samples are in ascending order exactly if their keys never fall.
proof fn lemma_keys_ascending(samples: Seq<u64>)
    ensures
        keys_ascending(samples) <==> is_ascending(samples),
{
    if keys_ascending(samples) {
        assert forall|i: int, j: int| 0 <= i < j < samples.len() implies precedes(
            samples[i],
            samples[j],
        ) by {
            lemma_order_key(samples[i], samples[j]);
        }
    }
    if is_ascending(samples) {
        assert forall|i: int, j: int| 0 <= i < j < samples.len() implies order_key(samples[i])
            <= order_key(samples[j]) by {
            lemma_order_key(samples[i], samples[j]);
        }
    }
}

/// Merges two rankings into one.
fn merge_ranked(left: &Vec<u64>, right: &Vec<u64>) -> (merged: Vec<u64>)
    requires
        keys_ascending(left@),
        keys_ascending(right@),
    ensures
        keys_ascending(merged@),
        merged@.to_multiset() == left@.to_multiset().add(right@.to_multiset()),
{
    let nl = left.len();
    let nr = right.len();
    let mut merged: Vec<u64> = Vec::new();
    let mut i: usize = 0;
    let mut j: usize = 0;
    proof {
        let nothing = Seq::<u64>::empty();
        assert(left@.take(0) =~= nothing);
        assert(right@.take(0) =~= nothing);
        assert(merged@ =~= nothing);
        assert(nothing + nothing =~= nothing);
        lemma_multiset_commutative(nothing, nothing);
    }
    while i < nl || j < nr
        invariant
            i <= nl,
            j <= nr,
            nl == left@.len(),
            nr == right@.len(),
            keys_ascending(left@),
            keys_ascending(right@),
            keys_ascending(merged@),
            merged@.to_multiset() == left@.take(i as int).to_multiset().add(
                right@.take(j as int).to_multiset(),
            ),
            forall|k: int|
                0 <= k < merged@.len() && i < nl ==> order_key(#[trigger] merged@[k]) <= order_key(
                    left@[i as int],
                ),
            forall|k: int|
                0 <= k < merged@.len() && j < nr ==> order_key(#[trigger] merged@[k]) <= order_key(
                    right@[j as int],
                ),
        decreases (nl - i) + (nr - j),
    {
        let from_left = if j >= nr {
            true
        } else if i >= nl {
            false
        } else {
            proof {
                lemma_order_key(left@[i as int], right@[j as int]);
            }
            sample_precedes(left[i], right[j])
        };
        let ghost before = merged@;
        if from_left {
            let sample = left[i];
            proof {
                assert(left@.take(i + 1) =~= left@.take(i as int).push(sample));
                to_multiset_build(left@.take(i as int), sample);
                to_multiset_build(before, sample);
            }
            merged.push(sample);
            i += 1;
        } else {
            let sample = right[j];
            proof {
                assert(right@.take(j + 1) =~= right@.take(j as int).push(sample));
                to_multiset_build(right@.take(j as int), sample);
                to_multiset_build(before, sample);
            }
            merged.push(sample);
            j += 1;
        }
        assert(merged@.to_multiset() =~= left@.take(i as int).to_multiset().add(
            right@.take(j as int).to_multiset(),
        ));
    }
    assert(left@.take(nl as int) =~= left@);
    assert(right@.take(nr as int) =~= right@);
    merged
}

/// Ranks the samples from `lo` up to `hi` by merging the rankings of the two
/// halves.
fn rank_range(samples: &[u64], lo: usize, hi: usize) -> (ranked: Vec<u64>)
    requires
        lo <= hi <= samples@.len(),
    ensures
        keys_ascending(ranked@),
        ranked@.to_multiset() == samples@.subrange(lo as int, hi as int).to_multiset(),
    decreases hi - lo,
{
    let mut ranked: Vec<u64> = Vec::new();
    if hi - lo == 0 {
        assert(samples@.subrange(lo as int, hi as int) =~= ranked@);
        ranked
    } else if hi - lo == 1 {
        ranked.push(samples[lo]);
        assert(samples@.subrange(lo as int, hi as int) =~= ranked@);
        ranked
    } else {
        let mid = lo + (hi - lo) / 2;
        let left = rank_range(samples, lo, mid);
        let right = rank_range(samples, mid, hi);
        proof {
            assert(samples@.subrange(lo as int, hi as int) =~= samples@.subrange(
                lo as int,
                mid as int,
            ) + samples@.subrange(mid as int, hi as int));
            lemma_multiset_commutative(
                samples@.subrange(lo as int, mid as int),
                samples@.subrange(mid as int, hi as int),
            );
        }
        merge_ranked(&left, &right)
    }
}

/// The samples of a signal in ascending order.
///
/// A signal that holds a NaN is refused, whatever else it holds.
pub fn rank_samples(samples: &[u64]) -> (ranked: Result<Vec<u64>, EstimatorError>)
    ensures
        ranked is Err <==> has_nan(samples@),
        ranked is Err ==> ranked == Err::<Vec<u64>, EstimatorError>(EstimatorError::InvalidInput),
        ranked matches Ok(r) ==> is_ranking_of(r@, samples@),
{
    let n = samples.len();
    let mut i: usize = 0;
    while i < n
        invariant
            i <= n,
            n == samples@.len(),
            forall|k: int| 0 <= k < i ==> !is_nan(#[trigger] samples@[k]),
        decreases n - i,
    {
        if sample_is_nan(samples[i]) {
            return Err(EstimatorError::InvalidInput);
        }
        i += 1;
    }
    let ranked = rank_range(samples, 0, n);
    proof {
        assert(samples@.subrange(0, n as int) =~= samples@);
        lemma_keys_ascending(ranked@);
    }
    Ok(ranked)
}

} // verus!
