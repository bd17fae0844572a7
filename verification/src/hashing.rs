//! Two 32-bit string hashes, printed in hexadecimal.
//!
//! Neither is cryptographic. Both start from the same basis and fold the
//! bytes in one at a time: the byte is xor-ed into the state, and the state
//! is then multiplied by a fixed prime modulo 2^32. One hash multiplies, the
//! other adds shifted copies of the state; the two come to the same digest.

use vstd::prelude::*;
use vstd::string::*;

verus! {

/// The state before the first byte of the shift-and-add hash.
pub const MURMUR_SEED: u32 = 0x811c9dc5;

/// The multiplier of the FNV-1a hash: 2^24 + 2^8 + 0x93.
pub const FNV_PRIME: u32 = 16777619;

/// The state before the first byte of the FNV-1a hash.
pub const FNV_OFFSET_BASIS: u32 = 2166136261;

/// One step of FNV-1a: xor the byte in, then multiply by the prime modulo 2^32.
pub open spec fn fnv_mix(state: u32, byte: u8) -> u32 {
    (((state ^ (byte as u32)) as nat * FNV_PRIME as nat) % 0x1_0000_0000) as u32
}

/// The FNV-1a digest of `bytes`.
pub open spec fn fnv_digest(bytes: Seq<u8>) -> u32
    decreases bytes.len(),
{
    if bytes.len() == 0 {
        FNV_OFFSET_BASIS
    } else {
        fnv_mix(fnv_digest(bytes.drop_last()), bytes.last())
    }
}

/// The sum modulo 2^32 of `x` and of `x` shifted left by 1, 4, 7, 8 and 24
/// bits.
pub open spec fn shift_add(x: u32) -> u32 {
    ((x + (x << 1) + (x << 4) + (x << 7) + (x << 8) + (x << 24)) % 0x1_0000_0000) as u32
}

/// One step of the shift-and-add hash: xor the byte in, then add the shifted
/// copies.
pub open spec fn murmur_mix(state: u32, byte: u8) -> u32 {
    shift_add(state ^ (byte as u32))
}

/// The shift-and-add digest of `bytes`.
pub open spec fn murmur_digest(bytes: Seq<u8>) -> u32
    decreases bytes.len(),
{
    if bytes.len() == 0 {
        MURMUR_SEED
    } else {
        murmur_mix(murmur_digest(bytes.drop_last()), bytes.last())
    }
}

/// The hexadecimal digit for a value below 16, in lower case.
pub open spec fn hex_digit(n: nat) -> char {
    if n == 0 {
        '0'
    } else if n == 1 {
        '1'
    } else if n == 2 {
        '2'
    } else if n == 3 {
        '3'
    } else if n == 4 {
        '4'
    } else if n == 5 {
        '5'
    } else if n == 6 {
        '6'
    } else if n == 7 {
        '7'
    } else if n == 8 {
        '8'
    } else if n == 9 {
        '9'
    } else if n == 10 {
        'a'
    } else if n == 11 {
        'b'
    } else if n == 12 {
        'c'
    } else if n == 13 {
        'd'
    } else if n == 14 {
        'e'
    } else {
        'f'
    }
}

/// The hexadecimal numeral of `v`: lower case, most significant digit first,
/// no prefix and no leading zero (0 itself is "0").
pub open spec fn hex_digits(v: nat) -> Seq<char>
    decreases v,
{
    if v < 16 {
        seq![hex_digit(v)]
    } else {
        hex_digits(v / 16).push(hex_digit(v % 16))
    }
}

/// Adding the shifted copies multiplies by the FNV prime.
pub proof fn lemma_shift_add_is_multiplication(x: u32)
    ensures
        shift_add(x) == ((x as nat * FNV_PRIME as nat) % 0x1_0000_0000) as u32,
{
    let m: int = 0x1_0000_0000;
    assert(x << 1 == (x * 2) % 0x1_0000_0000) by (bit_vector);
    assert(x << 4 == (x * 16) % 0x1_0000_0000) by (bit_vector);
    assert(x << 7 == (x * 128) % 0x1_0000_0000) by (bit_vector);
    assert(x << 8 == (x * 256) % 0x1_0000_0000) by (bit_vector);
    assert(x << 24 == (x * 16777216) % 0x1_0000_0000) by (bit_vector);
    let wraps = (x * 2) / m + (x * 16) / m + (x * 128) / m + (x * 256) / m + (x * 16777216) / m;
    let sum = x + (x << 1) + (x << 4) + (x << 7) + (x << 8) + (x << 24);
    assert(sum == m * (-wraps) + x * 16777619);
    vstd::arithmetic::div_mod::lemma_mod_multiples_vanish(-wraps, x * 16777619, m);
}

/// The two hashes agree on every input.
pub proof fn lemma_digests_agree(bytes: Seq<u8>)
    ensures
        murmur_digest(bytes) == fnv_digest(bytes),
    decreases bytes.len(),
{
    if bytes.len() > 0 {
        lemma_digests_agree(bytes.drop_last());
        lemma_shift_add_is_multiplication(fnv_digest(bytes.drop_last()) ^ (bytes.last() as u32));
    }
}

/// FNV-1a over a byte slice.
pub fn fnv_hash_bytes(bytes: &[u8]) -> (digest: u32)
    ensures
        digest == fnv_digest(bytes@),
{
    let n = bytes.len();
    let mut hash: u32 = FNV_OFFSET_BASIS;
    let mut i: usize = 0;
    while i < n
        invariant
            i <= n,
            n == bytes@.len(),
            hash == fnv_digest(bytes@.take(i as int)),
        decreases n - i,
    {
        assert(bytes@.take(i + 1).drop_last() =~= bytes@.take(i as int));
        hash ^= bytes[i] as u32;
        hash = hash.wrapping_mul(FNV_PRIME);
        i += 1;
    }
    assert(bytes@.take(n as int) =~= bytes@);
    hash
}

/// The shift-and-add hash over a byte slice.
pub fn murmur_hash_bytes(bytes: &[u8]) -> (digest: u32)
    ensures
        digest == murmur_digest(bytes@),
{
    let n = bytes.len();
    let mut h1: u32 = MURMUR_SEED;
    let mut i: usize = 0;
    while i < n
        invariant
            i <= n,
            n == bytes@.len(),
            h1 == murmur_digest(bytes@.take(i as int)),
        decreases n - i,
    {
        assert(bytes@.take(i + 1).drop_last() =~= bytes@.take(i as int));
        h1 ^= bytes[i] as u32;
        h1 = h1.wrapping_add(h1 << 1).wrapping_add(h1 << 4).wrapping_add(h1 << 7).wrapping_add(
            h1 << 8,
        ).wrapping_add(h1 << 24);
        i += 1;
    }
    assert(bytes@.take(n as int) =~= bytes@);
    h1
}

/// The one-character string for a digit below 16.
fn hex_digit_str(n: u32) -> (digit: &'static str)
    requires
        n < 16,
    ensures
        digit@ == seq![hex_digit(n as nat)],
{
    proof {
        reveal_strlit("0");
        reveal_strlit("1");
        reveal_strlit("2");
        reveal_strlit("3");
        reveal_strlit("4");
        reveal_strlit("5");
        reveal_strlit("6");
        reveal_strlit("7");
        reveal_strlit("8");
        reveal_strlit("9");
        reveal_strlit("a");
        reveal_strlit("b");
        reveal_strlit("c");
        reveal_strlit("d");
        reveal_strlit("e");
        reveal_strlit("f");
    }
    let digit = if n == 0 {
        "0"
    } else if n == 1 {
        "1"
    } else if n == 2 {
        "2"
    } else if n == 3 {
        "3"
    } else if n == 4 {
        "4"
    } else if n == 5 {
        "5"
    } else if n == 6 {
        "6"
    } else if n == 7 {
        "7"
    } else if n == 8 {
        "8"
    } else if n == 9 {
        "9"
    } else if n == 10 {
        "a"
    } else if n == 11 {
        "b"
    } else if n == 12 {
        "c"
    } else if n == 13 {
        "d"
    } else if n == 14 {
        "e"
    } else {
        "f"
    };
    assert(digit@ =~= seq![hex_digit(n as nat)]);
    digit
}

/// Appends the hexadecimal numeral of `v` to `out`.
fn push_hex(out: &mut String, v: u32)
    ensures
        final(out)@ == old(out)@ + hex_digits(v as nat),
    decreases v,
{
    if v >= 16 {
        push_hex(out, v / 16);
    }
    out.append(hex_digit_str(v % 16));
    assert(out@ =~= old(out)@ + hex_digits(v as nat));
}

/// The hexadecimal numeral of `v`.
pub fn to_hex(v: u32) -> (hex: String)
    ensures
        hex@ == hex_digits(v as nat),
{
    let mut hex = String::new();
    push_hex(&mut hex, v);
    assert(hex@ =~= hex_digits(v as nat));
    hex
}

/// The shift-and-add hash of the bytes of `s`, in hexadecimal.
pub fn murmur_hash(s: &str) -> (hex: String)
    ensures
        hex@ == hex_digits(murmur_digest(s.spec_bytes()) as nat),
{
    to_hex(murmur_hash_bytes(s.as_bytes()))
}

/// The FNV-1a hash of the bytes of `s`, in hexadecimal.
pub fn fnv_hash(s: &str) -> (hex: String)
    ensures
        hex@ == hex_digits(fnv_digest(s.spec_bytes()) as nat),
{
    to_hex(fnv_hash_bytes(s.as_bytes()))
}

} // verus!
