//! Edit distance between byte strings, and the laws that make it a metric.

use vstd::prelude::*;
use vstd::string::*;

verus! {

/// The least of three costs.
pub open spec fn least_of(x: nat, y: nat, z: nat) -> nat {
    if x <= y && x <= z {
        x
    } else if y <= z {
        y
    } else {
        z
    }
}

/// The cost of turning byte `x` into byte `y`.
pub open spec fn replace_cost(x: u8, y: u8) -> nat {
    if x == y {
        0
    } else {
        1
    }
}

/// The Levenshtein distance of `a` and `b`: the least number of bytes to
/// delete, insert or replace in order to turn `a` into `b`.
///
/// Against the empty string the distance is the other string's length.
/// Otherwise the last step of a cheapest edit deletes the last byte of `a`,
/// inserts the last byte of `b`, or turns the one into the other.
pub open spec fn edit_distance(a: Seq<u8>, b: Seq<u8>) -> nat
    decreases a.len() + b.len(),
{
    if a.len() == 0 {
        b.len()
    } else if b.len() == 0 {
        a.len()
    } else {
        least_of(
            edit_distance(a.drop_last(), b) + 1,
            edit_distance(a, b.drop_last()) + 1,
            edit_distance(a.drop_last(), b.drop_last()) + replace_cost(a.last(), b.last()),
        )
    }
}

/// The distance of the first `i` bytes of `a` and the first `j` bytes of `b`.
pub open spec fn prefix_distance(a: Seq<u8>, b: Seq<u8>, i: int, j: int) -> nat {
    edit_distance(a.take(i), b.take(j))
}

/// The distance never exceeds the length of the longer string.
pub proof fn lemma_distance_at_most_longer(a: Seq<u8>, b: Seq<u8>)
    ensures
        edit_distance(a, b) <= a.len() || edit_distance(a, b) <= b.len(),
    decreases a.len() + b.len(),
{
    if a.len() > 0 && b.len() > 0 {
        lemma_distance_at_most_longer(a.drop_last(), b.drop_last());
    }
}

/// How the distance of two non-empty prefixes follows from the distances of
/// the prefixes that are one byte shorter.
proof fn lemma_prefix_step(a: Seq<u8>, b: Seq<u8>, i: int, j: int)
    requires
        1 <= i <= a.len(),
        1 <= j <= b.len(),
    ensures
        prefix_distance(a, b, i, j) == least_of(
            prefix_distance(a, b, i - 1, j) + 1,
            prefix_distance(a, b, i, j - 1) + 1,
            prefix_distance(a, b, i - 1, j - 1) + replace_cost(a[i - 1], b[j - 1]),
        ),
{
    assert(a.take(i).drop_last() =~= a.take(i - 1));
    assert(b.take(j).drop_last() =~= b.take(j - 1));
}

/// The distance of a string to itself is 0.
pub proof fn lemma_distance_to_self(s: Seq<u8>)
    ensures
        edit_distance(s, s) == 0,
    decreases s.len(),
{
    if s.len() > 0 {
        lemma_distance_to_self(s.drop_last());
    }
}

/// The distance does not depend on the direction of the edit.
pub proof fn lemma_distance_symmetric(a: Seq<u8>, b: Seq<u8>)
    ensures
        edit_distance(a, b) == edit_distance(b, a),
    decreases a.len() + b.len(),
{
    if a.len() > 0 && b.len() > 0 {
        lemma_distance_symmetric(a.drop_last(), b);
        lemma_distance_symmetric(a, b.drop_last());
        lemma_distance_symmetric(a.drop_last(), b.drop_last());
    }
}

/// The distance is at least the difference of the two lengths.
pub proof fn lemma_distance_at_least_length_gap(a: Seq<u8>, b: Seq<u8>)
    ensures
        a.len() <= edit_distance(a, b) + b.len(),
        b.len() <= edit_distance(a, b) + a.len(),
    decreases a.len() + b.len(),
{
    if a.len() > 0 && b.len() > 0 {
        lemma_distance_at_least_length_gap(a.drop_last(), b);
        lemma_distance_at_least_length_gap(a, b.drop_last());
        lemma_distance_at_least_length_gap(a.drop_last(), b.drop_last());
    }
}

/// Only equal strings are at distance 0.
pub proof fn lemma_distance_zero_iff_equal(a: Seq<u8>, b: Seq<u8>)
    ensures
        edit_distance(a, b) == 0 <==> a == b,
    decreases a.len() + b.len(),
{
    if a == b {
        lemma_distance_to_self(a);
    }
    if edit_distance(a, b) == 0 {
        lemma_distance_at_least_length_gap(a, b);
        if a.len() > 0 {
            lemma_distance_zero_iff_equal(a.drop_last(), b.drop_last());
            assert(a =~= a.drop_last().push(a.last()));
            assert(b =~= b.drop_last().push(b.last()));
        } else {
            assert(a =~= b);
        }
    }
}

/// The triangle inequality: editing `a` into `c` by way of `b` is never
/// cheaper than editing `a` into `c` directly.
pub proof fn lemma_distance_triangle(a: Seq<u8>, b: Seq<u8>, c: Seq<u8>)
    ensures
        edit_distance(a, c) <= edit_distance(a, b) + edit_distance(b, c),
    decreases a.len() + b.len() + c.len(),
{
    if a.len() == 0 || c.len() == 0 {
        lemma_distance_at_least_length_gap(a, b);
        lemma_distance_at_least_length_gap(b, c);
    } else if b.len() == 0 {
        lemma_distance_at_most_longer(a, c);
    } else {
        let a1 = a.drop_last();
        let b1 = b.drop_last();
        let c1 = c.drop_last();
        lemma_distance_triangle(a1, b, c);
        lemma_distance_triangle(a, b, c1);
        lemma_distance_triangle(a, b1, c);
        lemma_distance_triangle(a, b1, c1);
        lemma_distance_triangle(a1, b1, c);
        lemma_distance_triangle(a1, b1, c1);
    }
}

/// Levenshtein distance of the bytes of two strings.
///
/// The result is a `u32`, so neither string may be longer than a `u32` can
/// say.
pub fn levenshtein_distance(s1: &str, s2: &str) -> (distance: u32)
    requires
        s1.spec_bytes().len() <= u32::MAX,
        s2.spec_bytes().len() <= u32::MAX,
    ensures
        distance == edit_distance(s1.spec_bytes(), s2.spec_bytes()),
{
    let a = s1.as_bytes();
    let b = s2.as_bytes();
    let n1 = a.len();
    let n2 = b.len();
    if n2 == 0 {
        return n1 as u32;
    }
    // row[t] holds the distance of the current prefix of `a` and the first
    // t + 1 bytes of `b`.
    let mut row: Vec<u32> = Vec::new();
    let mut t: usize = 0;
    while t < n2
        invariant
            t <= n2 <= u32::MAX,
            row@.len() == t,
            forall|k: int| 0 <= k < t ==> row@[k] == k + 1,
        decreases n2 - t,
    {
        t += 1;
        row.push(t as u32);
    }
    let mut i: usize = 0;
    while i < n1
        invariant
            i <= n1 <= u32::MAX,
            1 <= n2 <= u32::MAX,
            n1 == a@.len(),
            n2 == b@.len(),
            row@.len() == n2,
            forall|k: int| 0 <= k < n2 ==> row@[k] == prefix_distance(a@, b@, i as int, k + 1),
        decreases n1 - i,
    {
        i += 1;
        let mut diagonal: u32 = (i - 1) as u32;
        let mut left: u32 = i as u32;
        let mut j: usize = 0;
        while j < n2
            invariant
                1 <= i <= n1 <= u32::MAX,
                j <= n2 <= u32::MAX,
                n1 == a@.len(),
                n2 == b@.len(),
                row@.len() == n2,
                forall|k: int| 0 <= k < j ==> row@[k] == prefix_distance(a@, b@, i as int, k + 1),
                forall|k: int|
                    j <= k < n2 ==> row@[k] == prefix_distance(a@, b@, i - 1, k + 1),
                diagonal == prefix_distance(a@, b@, i - 1, j as int),
                left == prefix_distance(a@, b@, i as int, j as int),
            decreases n2 - j,
        {
            let above = row[j];
            let cost: u64 = if a[i - 1] == b[j] {
                0
            } else {
                1
            };
            let by_delete: u64 = above as u64 + 1;
            let by_insert: u64 = left as u64 + 1;
            let by_replace: u64 = diagonal as u64 + cost;
            let best: u64 = if by_delete <= by_insert && by_delete <= by_replace {
                by_delete
            } else if by_insert <= by_replace {
                by_insert
            } else {
                by_replace
            };
            proof {
                lemma_prefix_step(a@, b@, i as int, j + 1);
                lemma_distance_at_most_longer(a@.take(i as int), b@.take(j + 1));
            }
            diagonal = above;
            left = best as u32;
            row.set(j, left);
            j += 1;
        }
    }
    proof {
        assert(a@.take(n1 as int) =~= a@);
        assert(b@.take(n2 as int) =~= b@);
    }
    row[n2 - 1]
}

} // verus!
