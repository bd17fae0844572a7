//! Counting over the bytes of a string: how often each byte occurs, and how
//! often a byte differs from the one before it.

use vstd::prelude::*;
use vstd::seq_lib::*;
use vstd::set_lib::*;
use vstd::string::*;

verus! {

/// How often `byte` occurs in `bytes`.
pub open spec fn occurrences(bytes: Seq<u8>, byte: u8) -> nat {
    bytes.to_multiset().count(byte)
}

/// The sum of `counts`.
pub open spec fn total(counts: Seq<usize>) -> nat
    decreases counts.len(),
{
    if counts.len() == 0 {
        0
    } else {
        total(counts.drop_last()) + counts.last() as nat
    }
}

/// The places in `bytes` whose byte differs from the byte before.
pub open spec fn change_points(bytes: Seq<u8>) -> Set<int> {
    Set::new(|i: int| 0 < i < bytes.len() && bytes[i] != bytes[i - 1])
}

/// The number of places in `bytes` whose byte differs from the byte before.
pub open spec fn changes(bytes: Seq<u8>) -> nat {
    change_points(bytes).len()
}

/// The change points before place `end`.
spec fn change_points_before(bytes: Seq<u8>, end: int) -> Set<int> {
    Set::new(|i: int| 0 < i < end && i < bytes.len() && bytes[i] != bytes[i - 1])
}

/// Looking at one more place adds that place if the byte changes there.
proof fn lemma_change_points_step(bytes: Seq<u8>, end: int)
    requires
        0 < end < bytes.len(),
    ensures
        bytes[end] != bytes[end - 1] ==> change_points_before(bytes, end + 1)
            == change_points_before(bytes, end).insert(end),
        bytes[end] == bytes[end - 1] ==> change_points_before(bytes, end + 1)
            == change_points_before(bytes, end),
        !change_points_before(bytes, end).contains(end),
{
    if bytes[end] != bytes[end - 1] {
        assert(change_points_before(bytes, end + 1) =~= change_points_before(bytes, end).insert(
            end,
        ));
    } else {
        assert(change_points_before(bytes, end + 1) =~= change_points_before(bytes, end));
    }
}

/// Raising one count by one raises the sum by one.
proof fn lemma_total_after_increment(counts: Seq<usize>, at: int)
    requires
        0 <= at < counts.len(),
        counts[at] < usize::MAX,
    ensures
        total(counts.update(at, (counts[at] + 1) as usize)) == total(counts) + 1,
    decreases counts.len(),
{
    let raised = counts.update(at, (counts[at] + 1) as usize);
    if at == counts.len() - 1 {
        assert(raised.drop_last() =~= counts.drop_last());
    } else {
        lemma_total_after_increment(counts.drop_last(), at);
        assert(raised.drop_last() =~= counts.drop_last().update(
            at,
            (counts[at] + 1) as usize,
        ));
    }
}

/// Counts that are all zero sum to zero.
proof fn lemma_total_of_zeros(counts: Seq<usize>)
    requires
        forall|k: int| 0 <= k < counts.len() ==> counts[k] == 0,
    ensures
        total(counts) == 0,
    decreases counts.len(),
{
    if counts.len() > 0 {
        lemma_total_of_zeros(counts.drop_last());
    }
}

/// A string of `n` bytes has finitely many change points, at most `n - 1`
/// of them.
pub proof fn lemma_changes_bounded(bytes: Seq<u8>)
    ensures
        change_points(bytes).finite(),
        changes(bytes) <= bytes.len(),
        bytes.len() >= 1 ==> changes(bytes) < bytes.len(),
{
    if bytes.len() >= 1 {
        let places = set_int_range(1, bytes.len() as int);
        lemma_int_range(1, bytes.len() as int);
        assert(change_points(bytes).subset_of(places));
        lemma_len_subset(change_points(bytes), places);
    } else {
        assert(change_points(bytes) =~= Set::<int>::empty());
    }
}

/// How often each of the 256 byte values occurs in `s`: the count of byte
/// `b` stands at index `b`. The counts sum to the length of `s`.
pub fn byte_frequencies(s: &str) -> (counts: Vec<usize>)
    ensures
        counts@.len() == 256,
        forall|b: u8| counts@[b as int] == occurrences(s.spec_bytes(), b),
        total(counts@) == s.spec_bytes().len(),
{
    let bytes = s.as_bytes();
    let n = bytes.len();
    let mut counts: Vec<usize> = Vec::new();
    let mut k: usize = 0;
    while k < 256
        invariant
            k <= 256,
            counts@.len() == k,
            forall|x: int| 0 <= x < k ==> counts@[x] == 0,
        decreases 256 - k,
    {
        counts.push(0);
        k += 1;
    }
    proof {
        let nothing = Seq::<u8>::empty();
        assert(bytes@.take(0) =~= nothing);
        assert(nothing + nothing =~= nothing);
        lemma_multiset_commutative(nothing, nothing);
        lemma_total_of_zeros(counts@);
    }
    let mut i: usize = 0;
    while i < n
        invariant
            i <= n,
            n == bytes@.len(),
            counts@.len() == 256,
            forall|b: u8| counts@[b as int] == occurrences(bytes@.take(i as int), b),
            forall|x: int| 0 <= x < 256 ==> counts@[x] <= i,
            total(counts@) == i,
        decreases n - i,
    {
        let byte = bytes[i];
        let at = byte as usize;
        proof {
            assert(bytes@.take(i + 1) =~= bytes@.take(i as int).push(byte));
            to_multiset_build(bytes@.take(i as int), byte);
            lemma_total_after_increment(counts@, at as int);
        }
        let raised = counts[at] + 1;
        counts.set(at, raised);
        i += 1;
    }
    assert(bytes@.take(n as int) =~= bytes@);
    counts
}

/// The number of places in `s` whose byte differs from the byte before.
pub fn count_changes(s: &str) -> (runs: usize)
    ensures
        runs == changes(s.spec_bytes()),
{
    let bytes = s.as_bytes();
    let n = bytes.len();
    if n == 0 {
        assert(change_points(bytes@) =~= Set::<int>::empty());
        return 0;
    }
    let mut runs: usize = 0;
    let mut i: usize = 1;
    assert(change_points_before(bytes@, 1) =~= Set::<int>::empty());
    while i < n
        invariant
            1 <= i <= n,
            n == bytes@.len(),
            runs < i,
            change_points_before(bytes@, i as int).finite(),
            runs == change_points_before(bytes@, i as int).len(),
        decreases n - i,
    {
        proof {
            lemma_change_points_step(bytes@, i as int);
        }
        if bytes[i] != bytes[i - 1] {
            runs += 1;
        }
        i += 1;
    }
    assert(change_points(bytes@) =~= change_points_before(bytes@, n as int));
    runs
}

} // verus!
