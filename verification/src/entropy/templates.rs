//! Counting recurring templates in a sampled signal.
//!
//! Approximate entropy and sample entropy compare every two windows of a
//! signal and count the pairs whose samples stay within a tolerance of each
//! other. Which two samples are that close is decided by whoever holds the
//! samples, and recorded in a `Proximity`. Everything after that is counting,
//! and is done here.

use crate::error::EstimatorError;
use vstd::prelude::*;

verus! {

/// Which samples of a signal lie within tolerance of each other.
///
/// The view is a square table: row `a`, column `b` says whether samples `a`
/// and `b` are within tolerance.
pub struct Proximity {
    rows: Vec<Vec<bool>>,
}

/// Whether `rows` has as many columns in every row as it has rows.
pub open spec fn is_square(rows: Seq<Seq<bool>>) -> bool {
    forall|a: int| 0 <= a < rows.len() ==> (#[trigger] rows[a]).len() == rows.len()
}

impl View for Proximity {
    type V = Seq<Seq<bool>>;

    closed spec fn view(&self) -> Seq<Seq<bool>> {
        self.rows.deep_view()
    }
}

impl Proximity {
    #[verifier::type_invariant]
    spec fn well_formed(self) -> bool {
        is_square(self@)
    }

    /// The number of samples.
    pub open spec fn size(self) -> nat {
        self@.len()
    }

    /// Whether samples `a` and `b` are within tolerance. Outside the signal
    /// nothing is.
    pub open spec fn near(self, a: int, b: int) -> bool {
        0 <= a < self@.len() && 0 <= b < self@[a].len() && self@[a][b]
    }

    /// Takes a table that says in row `a`, column `b` whether samples `a`
    /// and `b` are within tolerance. A table that is not square is refused.
    pub fn from_rows(rows: Vec<Vec<bool>>) -> (table: Result<Proximity, EstimatorError>)
        ensures
            table is Ok <==> is_square(rows.deep_view()),
            table is Err ==> table == Err::<Proximity, EstimatorError>(EstimatorError::InvalidInput),
            table matches Ok(t) ==> t@ == rows.deep_view(),
    {
        let n = rows.len();
        let mut a: usize = 0;
        while a < n
            invariant
                a <= n,
                n == rows@.len(),
                forall|x: int| 0 <= x < a ==> (#[trigger] rows.deep_view()[x]).len() == n,
            decreases n - a,
        {
            assert(rows.deep_view()[a as int].len() == rows@[a as int]@.len());
            if rows[a].len() != n {
                return Err(EstimatorError::InvalidInput);
            }
            a += 1;
        }
        Ok(Proximity { rows })
    }

    /// The number of samples.
    pub fn len(&self) -> (n: usize)
        ensures
            n == self.size(),
    {
        self.rows.len()
    }

    /// Whether samples `a` and `b` are within tolerance.
    pub fn is_near(&self, a: usize, b: usize) -> (near: bool)
        ensures
            near == self.near(a as int, b as int),
    {
        proof {
            use_type_invariant(self);
        }
        if a < self.rows.len() {
            assert(self@[a as int] =~= self.rows@[a as int]@);
            b < self.rows.len() && self.rows[a][b]
        } else {
            false
        }
    }
}

/// Whether the samples `k` places into the windows at `i` and at `j` are
/// within tolerance.
pub open spec fn paired(table: Proximity, i: int, j: int, k: int) -> bool {
    table.near(i + k, j + k)
}

/// Whether the windows of `len` samples at `i` and at `j` match: sample for
/// sample they are within tolerance.
pub open spec fn templates_match(table: Proximity, i: int, j: int, len: int) -> bool {
    forall|k: int| 0 <= k < len ==> #[trigger] paired(table, i, j, k)
}

/// Whether `pair` names the starts of two windows of `len` samples, the
/// earlier one first, that lie within the signal and match.
pub open spec fn is_matching_pair(table: Proximity, len: nat, pair: (int, int)) -> bool {
    &&& 0 <= pair.0 < pair.1
    &&& pair.1 + len <= table.size()
    &&& templates_match(table, pair.0, pair.1, len as int)
}

/// The pairs of distinct windows of `len` samples that match.
pub open spec fn matching_pairs(table: Proximity, len: nat) -> Set<(int, int)> {
    Set::new(|pair: (int, int)| is_matching_pair(table, len, pair))
}

/// The number of pairs of distinct windows of `len` samples that match.
pub open spec fn template_matches(table: Proximity, len: nat) -> nat {
    matching_pairs(table, len).len()
}

/// The matching pairs that a scan by rows has seen when it has compared the
/// window at `i` with the windows up to `j`.
spec fn pairs_seen(table: Proximity, len: nat, i: int, j: int) -> Set<(int, int)> {
    Set::new(
        |pair: (int, int)|
            is_matching_pair(table, len, pair) && (pair.0 < i || (pair.0 == i && pair.1 <= j)),
    )
}

/// What the scan has seen grows by the one pair that it compares.
proof fn lemma_pairs_seen_step(table: Proximity, len: nat, i: int, j: int)
    requires
        0 <= i < j,
    ensures
        is_matching_pair(table, len, (i, j)) ==> pairs_seen(table, len, i, j) == pairs_seen(
            table,
            len,
            i,
            j - 1,
        ).insert((i, j)),
        !is_matching_pair(table, len, (i, j)) ==> pairs_seen(table, len, i, j) == pairs_seen(
            table,
            len,
            i,
            j - 1,
        ),
        !pairs_seen(table, len, i, j - 1).contains((i, j)),
{
    if is_matching_pair(table, len, (i, j)) {
        assert(pairs_seen(table, len, i, j) =~= pairs_seen(table, len, i, j - 1).insert((i, j)));
    } else {
        assert(pairs_seen(table, len, i, j) =~= pairs_seen(table, len, i, j - 1));
    }
}

/// A row that is done leaves the scan where the next row begins.
proof fn lemma_pairs_seen_next_row(table: Proximity, len: nat, i: int, j: int)
    requires
        0 <= i,
        j + len >= table.size(),
    ensures
        pairs_seen(table, len, i, j) == pairs_seen(table, len, i + 1, i + 1),
{
    assert(pairs_seen(table, len, i, j) =~= pairs_seen(table, len, i + 1, i + 1));
}

/// What the scan has seen is finite.
proof fn lemma_pairs_seen_finite(table: Proximity, len: nat, i: int, j: int)
    requires
        0 <= i <= j,
    ensures
        pairs_seen(table, len, i, j).finite(),
    decreases i, j - i,
{
    if j > i {
        lemma_pairs_seen_finite(table, len, i, j - 1);
        lemma_pairs_seen_step(table, len, i, j);
    } else if i > 0 {
        let end = if table.size() >= i {
            table.size() as int
        } else {
            i
        };
        lemma_pairs_seen_finite(table, len, i - 1, end);
        lemma_pairs_seen_next_row(table, len, i - 1, end);
    } else {
        assert(pairs_seen(table, len, 0, 0) =~= Set::<(int, int)>::empty());
    }
}

/// Only finitely many pairs of windows match.
pub proof fn lemma_matching_pairs_finite(table: Proximity, len: nat)
    ensures
        matching_pairs(table, len).finite(),
{
    let n = table.size() as int;
    lemma_pairs_seen_finite(table, len, n, n);
    assert(matching_pairs(table, len) =~= pairs_seen(table, len, n, n));
}

/// A signal with fewer than two windows of `len` samples has no pair of
/// them.
pub proof fn lemma_matches_need_two_windows(table: Proximity, len: nat)
    requires
        table.size() <= len,
    ensures
        template_matches(table, len) == 0,
{
    assert(matching_pairs(table, len) =~= Set::<(int, int)>::empty());
}

/// Lengthening the windows by one sample never adds a match: two windows
/// that match over `len + 1` samples match over `len` samples.
pub proof fn lemma_longer_templates_match_less(table: Proximity, len: nat)
    ensures
        matching_pairs(table, len + 1).subset_of(matching_pairs(table, len)),
        template_matches(table, len + 1) <= template_matches(table, len),
{
    let longer = matching_pairs(table, len + 1);
    let shorter = matching_pairs(table, len);
    assert forall|pair: (int, int)| longer.contains(pair) implies shorter.contains(pair) by {
        assert forall|k: int| 0 <= k < len implies #[trigger] paired(table, pair.0, pair.1, k) by {
            assert(paired(table, pair.0, pair.1, k));
        }
    }
    lemma_matching_pairs_finite(table, len);
    vstd::set_lib::lemma_len_subset(longer, shorter);
}

/// Compares the windows of `len` samples at `i` and at `j`.
fn windows_match(table: &Proximity, i: usize, j: usize, len: usize) -> (same: bool)
    requires
        i <= j,
        j + len <= table.size(),
    ensures
        same == templates_match(*table, i as int, j as int, len as int),
{
    let n = table.len();
    let mut k: usize = 0;
    while k < len
        invariant
            k <= len,
            i <= j,
            j + len <= n,
            forall|x: int| 0 <= x < k ==> #[trigger] paired(*table, i as int, j as int, x),
        decreases len - k,
    {
        if !table.is_near(i + k, j + k) {
            assert(!paired(*table, i as int, j as int, k as int));
            return false;
        }
        k += 1;
    }
    true
}

/// Counts the pairs of distinct windows of `len` samples that match.
pub fn count_template_matches(table: &Proximity, len: usize) -> (count: u128)
    ensures
        count == template_matches(*table, len as nat),
        count <= table.size() * table.size(),
{
    let n = table.len();
    if len > n {
        proof {
            lemma_matches_need_two_windows(*table, len as nat);
        }
        return 0;
    }
    let last = n - len;
    let mut count: u128 = 0;
    let mut i: usize = 0;
    proof {
        lemma_pairs_seen_finite(*table, len as nat, 0, 0);
        assert(pairs_seen(*table, len as nat, 0, 0) =~= Set::<(int, int)>::empty());
    }
    while i < last
        invariant
            i <= last,
            last + len == n,
            n == table.size(),
            pairs_seen(*table, len as nat, i as int, i as int).finite(),
            count == pairs_seen(*table, len as nat, i as int, i as int).len(),
            count <= i * last,
        decreases last - i,
    {
        let ghost before = count;
        let mut j: usize = i;
        while j < last
            invariant
                i <= j <= last,
                i < last,
                last + len == n,
                n == table.size(),
                pairs_seen(*table, len as nat, i as int, j as int).finite(),
                count == pairs_seen(*table, len as nat, i as int, j as int).len(),
                before <= i * last,
                count <= before + (j - i),
            decreases last - j,
        {
            j += 1;
            assert(i * last + last <= last * last) by (nonlinear_arith)
                requires
                    i < last,
            ;
            assert(last * last <= 0xffff_ffff_ffff_ffff * 0xffff_ffff_ffff_ffff)
                by (nonlinear_arith)
                requires
                    last <= 0xffff_ffff_ffff_ffff,
            ;
            proof {
                lemma_pairs_seen_step(*table, len as nat, i as int, j as int);
            }
            if windows_match(table, i, j, len) {
                count += 1;
            }
        }
        proof {
            lemma_pairs_seen_next_row(*table, len as nat, i as int, last as int);
        }
        assert(i * last + last == (i + 1) * last) by (nonlinear_arith);
        i += 1;
    }
    proof {
        assert(matching_pairs(*table, len as nat) =~= pairs_seen(
            *table,
            len as nat,
            last as int,
            last as int,
        ));
    }
    assert(count <= n * n) by (nonlinear_arith)
        requires
            count <= last * last,
            last <= n,
    ;
    count
}

/// An exact fraction of two counts.
#[derive(Clone, Copy, Debug, PartialEq, Eq, Structural)]
pub struct Ratio {
    pub numerator: u128,
    pub denominator: u128,
}

/// The two fractions whose quotient approximate entropy takes the logarithm
/// of, for windows of `m` and of `m + 1` samples.
///
/// Each is the number of matching pairs of windows plus one, over the number
/// of windows. A signal of no more than `m` samples is refused: it has no
/// window of `m + 1` samples.
pub fn approximate_entropy_terms(table: &Proximity, m: usize) -> (terms: Result<
    (Ratio, Ratio),
    EstimatorError,
>)
    ensures
        terms is Err <==> table.size() <= m,
        terms is Err ==> terms == Err::<(Ratio, Ratio), EstimatorError>(
            EstimatorError::InvalidInput,
        ),
        terms matches Ok((shorter, longer)) ==> {
            &&& shorter.numerator == template_matches(*table, m as nat) + 1
            &&& shorter.denominator == table.size() - m + 1
            &&& longer.numerator == template_matches(*table, (m + 1) as nat) + 1
            &&& longer.denominator == table.size() - m
        },
{
    let n = table.len();
    if n <= m {
        return Err(EstimatorError::InvalidInput);
    }
    assert(n * n <= 0xffff_ffff_ffff_ffff * 0xffff_ffff_ffff_ffff) by (nonlinear_arith)
        requires
            n <= 0xffff_ffff_ffff_ffff,
    ;
    let shorter = Ratio {
        numerator: count_template_matches(table, m) + 1,
        denominator: (n - m) as u128 + 1,
    };
    let longer = Ratio {
        numerator: count_template_matches(table, m + 1) + 1,
        denominator: (n - m) as u128,
    };
    Ok((shorter, longer))
}

/// The fraction whose negated logarithm is the sample entropy: the number
/// of matching pairs of windows of `m + 1` samples over the number of
/// matching pairs of windows of `m` samples.
///
/// Where no two windows of `m` samples match, the fraction is undefined.
/// Otherwise it is at most 1.
pub fn sample_entropy_ratio(table: &Proximity, m: usize) -> (ratio: Result<Ratio, EstimatorError>)
    ensures
        ratio is Err <==> template_matches(*table, m as nat) == 0,
        ratio is Err ==> ratio == Err::<Ratio, EstimatorError>(EstimatorError::Undefined),
        ratio matches Ok(r) ==> {
            &&& r.numerator == template_matches(*table, (m + 1) as nat)
            &&& r.denominator == template_matches(*table, m as nat)
            &&& r.numerator <= r.denominator
        },
{
    let n = table.len();
    if n <= m {
        proof {
            lemma_matches_need_two_windows(*table, m as nat);
        }
        return Err(EstimatorError::Undefined);
    }
    let denominator = count_template_matches(table, m);
    if denominator == 0 {
        return Err(EstimatorError::Undefined);
    }
    let numerator = count_template_matches(table, m + 1);
    proof {
        lemma_longer_templates_match_less(*table, m as nat);
    }
    Ok(Ratio { numerator, denominator })
}

} // verus!
