//! Dictionary complexity of a byte string: the number of phrases that a
//! greedy left-to-right factorisation needs.

use vstd::prelude::*;

verus! {

/// The `width` bytes that start at `start` together with the byte that
/// follows them.
pub open spec fn block(data: Seq<u8>, start: int, width: int) -> Seq<u8> {
    data.subrange(start, start + width + 1)
}

/// Whether the block at `pointer` also starts somewhere before `pointer`.
pub open spec fn seen_before(data: Seq<u8>, pointer: int, width: int) -> bool {
    exists|i: int|
        0 <= i < pointer && #[trigger] block(data, i, width) == block(data, pointer, width)
}

/// The number of phrases that the scan still opens when it stands at
/// `pointer` with a window of `width` bytes.
///
/// A block that was seen before lets the window grow by one byte. A block
/// that is new closes a phrase: the pointer moves past the window, and the
/// window shrinks to one byte again. The scan ends when window and following
/// byte no longer fit into the data.
pub open spec fn phrases_from(data: Seq<u8>, pointer: int, width: int) -> nat
    decreases data.len() - pointer - width,
{
    if pointer < 0 || width < 1 || pointer + width >= data.len() {
        0
    } else if seen_before(data, pointer, width) {
        phrases_from(data, pointer, width + 1)
    } else {
        1 + phrases_from(data, pointer + width, 1)
    }
}

/// The complexity of `data`: one for the trivial phrase, and one more for
/// each phrase that the scan opens.
pub open spec fn lz_complexity(data: Seq<u8>) -> nat {
    1 + phrases_from(data, 0, 1)
}

/// Compares the `len` bytes at `a` with the `len` bytes at `b`.
fn ranges_equal(data: &[u8], a: usize, b: usize, len: usize) -> (same: bool)
    requires
        a + len <= data@.len(),
        b + len <= data@.len(),
    ensures
        same == (data@.subrange(a as int, a + len) == data@.subrange(b as int, b + len)),
{
    let n = data.len();
    let mut k: usize = 0;
    while k < len
        invariant
            n == data@.len(),
            k <= len,
            a + len <= data@.len(),
            b + len <= data@.len(),
            forall|t: int| a <= t < a + k ==> #[trigger] data@[t] == data@[t - a + b],
        decreases len - k,
    {
        if data[a + k] != data[b + k] {
            proof {
                let x = data@.subrange(a as int, a + len);
                let y = data@.subrange(b as int, b + len);
                assert(x[k as int] != y[k as int]);
            }
            return false;
        }
        k += 1;
    }
    assert(data@.subrange(a as int, a + len) =~= data@.subrange(b as int, b + len));
    true
}

/// Searches the starts before `pointer` for the block at `pointer`.
fn occurs_earlier(data: &[u8], pointer: usize, width: usize) -> (found: bool)
    requires
        pointer + width < data@.len(),
    ensures
        found == seen_before(data@, pointer as int, width as int),
{
    let n = data.len();
    let mut i: usize = 0;
    while i < pointer
        invariant
            n == data@.len(),
            i <= pointer,
            pointer + width < data@.len(),
            forall|t: int|
                0 <= t < i ==> #[trigger] block(data@, t, width as int) != block(
                    data@,
                    pointer as int,
                    width as int,
                ),
        decreases pointer - i,
    {
        if ranges_equal(data, i, pointer, width + 1) {
            assert(block(data@, i as int, width as int) == block(
                data@,
                pointer as int,
                width as int,
            ));
            return true;
        }
        i += 1;
    }
    false
}

/// Lempel-Ziv complexity of a byte string.
///
/// Strings of fewer than two bytes have complexity 1.
pub fn lempel_ziv_complexity(data: &[u8]) -> (complexity: usize)
    ensures
        complexity == lz_complexity(data@),
{
    let n = data.len();
    let mut complexity: usize = 1;
    let mut pointer: usize = 0;
    let mut window_size: usize = 1;
    while window_size < n - pointer
        invariant
            n == data@.len(),
            1 <= window_size,
            pointer <= n,
            pointer + window_size <= n || n == 0,
            complexity <= pointer + 1,
            complexity + phrases_from(data@, pointer as int, window_size as int) == lz_complexity(
                data@,
            ),
        decreases n - pointer - window_size,
    {
        if occurs_earlier(data, pointer, window_size) {
            window_size += 1;
        } else {
            complexity += 1;
            pointer += window_size;
            window_size = 1;
        }
    }
    complexity
}

/// Whether the phrase that opens at `pointer` is `width` bytes long: of the
/// windows that start there, the one of `width` bytes is the first whose
/// block is new.
pub open spec fn phrase_closes(data: Seq<u8>, pointer: int, width: int) -> bool {
    &&& 0 <= pointer
    &&& 1 <= width
    &&& pointer + width < data.len()
    &&& !seen_before(data, pointer, width)
    &&& forall|v: int| 1 <= v < width ==> #[trigger] seen_before(data, pointer, v)
}

/// While every block was seen before, growing the window leaves the count
/// of phrases as it is.
proof fn lemma_window_grows(data: Seq<u8>, pointer: int, from: int, to: int)
    requires
        0 <= pointer,
        1 <= from <= to,
        pointer + to <= data.len(),
        forall|v: int| from <= v < to ==> #[trigger] seen_before(data, pointer, v),
    ensures
        phrases_from(data, pointer, from) == phrases_from(data, pointer, to),
    decreases to - from,
{
    if from < to {
        assert(seen_before(data, pointer, from));
        lemma_window_grows(data, pointer, from + 1, to);
    }
}

/// A phrase counts once, and the scan goes on behind it with a window of one
/// byte.
pub proof fn lemma_phrase_counts_once(data: Seq<u8>, pointer: int, width: int)
    requires
        phrase_closes(data, pointer, width),
    ensures
        phrases_from(data, pointer, 1) == 1 + phrases_from(data, pointer + width, 1),
{
    lemma_window_grows(data, pointer, 1, width);
}

/// Where every block up to the end of the data was seen before, no phrase
/// opens any more.
pub proof fn lemma_scan_ends(data: Seq<u8>, pointer: int)
    requires
        0 <= pointer,
        forall|v: int|
            1 <= v && pointer + v < data.len() ==> #[trigger] seen_before(data, pointer, v),
    ensures
        phrases_from(data, pointer, 1) == 0,
{
    if pointer + 1 < data.len() {
        lemma_window_grows(data, pointer, 1, data.len() - pointer);
    }
}

/// From any scan position, the scan opens at most as many phrases as there
/// are bytes left behind the window.
pub proof fn lemma_phrases_bounded(data: Seq<u8>, pointer: int, width: int)
    ensures
        pointer >= 0 && width >= 1 && pointer + width <= data.len() ==> phrases_from(
            data,
            pointer,
            width,
        ) <= data.len() - pointer - width,
        pointer + width >= data.len() ==> phrases_from(data, pointer, width) == 0,
    decreases data.len() - pointer - width,
{
    if pointer >= 0 && width >= 1 && pointer + width < data.len() {
        if seen_before(data, pointer, width) {
            lemma_phrases_bounded(data, pointer, width + 1);
        } else {
            lemma_phrases_bounded(data, pointer + width, 1);
        }
    }
}

/// The complexity is at least 1 and at most the length of the data; data of
/// fewer than two bytes has complexity exactly 1.
pub proof fn lemma_complexity_bounds(data: Seq<u8>)
    ensures
        1 <= lz_complexity(data),
        data.len() >= 1 ==> lz_complexity(data) <= data.len(),
        data.len() <= 1 ==> lz_complexity(data) == 1,
{
    lemma_phrases_bounded(data, 0, 1);
}

/// Whether every byte of `data` equals the first one.
pub open spec fn is_constant(data: Seq<u8>) -> bool {
    forall|i: int| 0 <= i < data.len() ==> #[trigger] data[i] == data[0]
}

/// In constant data the scan that stands at the second byte never opens a
/// phrase: every block there starts at the first byte too.
proof fn lemma_constant_tail(data: Seq<u8>, width: int)
    requires
        is_constant(data),
        width >= 1,
    ensures
        phrases_from(data, 1, width) == 0,
    decreases data.len() - width,
{
    if 1 + width < data.len() {
        assert(block(data, 0, width) =~= block(data, 1, width));
        lemma_constant_tail(data, width + 1);
    }
}

/// A run of two or more equal bytes has complexity 2: the first byte is a
/// new phrase, and everything behind it repeats what came before.
pub proof fn lemma_constant_run_complexity(data: Seq<u8>)
    requires
        data.len() >= 2,
        is_constant(data),
    ensures
        lz_complexity(data) == 2,
{
    assert(!seen_before(data, 0, 1));
    lemma_constant_tail(data, 1);
}

/// Whether no byte occurs twice in `data`.
pub open spec fn is_repetition_free(data: Seq<u8>) -> bool {
    forall|i: int, j: int| 0 <= i < j < data.len() ==> data[i] != data[j]
}

/// In data without a repeated byte, every byte but the last opens a phrase.
proof fn lemma_repetition_free_tail(data: Seq<u8>, pointer: int)
    requires
        is_repetition_free(data),
        0 <= pointer < data.len(),
    ensures
        phrases_from(data, pointer, 1) == data.len() - 1 - pointer,
    decreases data.len() - pointer,
{
    if pointer + 1 < data.len() {
        assert forall|i: int| 0 <= i < pointer implies #[trigger] block(data, i, 1) != block(
            data,
            pointer,
            1,
        ) by {
            assert(block(data, i, 1)[0] == data[i]);
            assert(block(data, pointer, 1)[0] == data[pointer]);
        }
        lemma_repetition_free_tail(data, pointer + 1);
    }
}

/// Data in which no byte repeats is incompressible: its complexity is its
/// length.
pub proof fn lemma_repetition_free_complexity(data: Seq<u8>)
    requires
        data.len() >= 1,
        is_repetition_free(data),
    ensures
        lz_complexity(data) == data.len(),
{
    lemma_repetition_free_tail(data, 0);
}

} // verus!
