use veil_core::hashing::{fnv_hash_bytes, murmur_hash_bytes, to_hex};
use veil_core::{fnv_hash, murmur_hash};

#[test]
fn fnv_hash_of_known_strings() {
    assert_eq!(fnv_hash(""), "811c9dc5");
    assert_eq!(fnv_hash("a"), "e40c292c");
    assert_eq!(fnv_hash("abc"), "1a47e90b");
    assert_eq!(fnv_hash("hello"), "4f9f2cab");
    assert_eq!(fnv_hash("foobar"), "bf9cf968");
}

#[test]
fn murmur_hash_of_known_strings() {
    assert_eq!(murmur_hash(""), "811c9dc5");
    assert_eq!(murmur_hash("a"), "e40c292c");
    assert_eq!(murmur_hash("abc"), "1a47e90b");
    assert_eq!(murmur_hash("hello"), "4f9f2cab");
    assert_eq!(murmur_hash("foobar"), "bf9cf968");
}

#[test]
fn hashes_take_the_utf8_bytes() {
    assert_eq!(fnv_hash("é"), "1e9de8c1");
    assert_eq!(fnv_hash("héllo"), "4aa48540");
    assert_eq!(murmur_hash("héllo"), "4aa48540");
}

#[test]
fn hex_has_no_leading_zero() {
    assert_eq!(fnv_hash("The quick brown fox jumps over the lazy dog"), "48fff90");
    assert_eq!(fnv_hash("68"), "de8d5a3");
    assert_eq!(murmur_hash("5908"), "2f65b");
}

#[test]
fn hex_of_numbers() {
    assert_eq!(to_hex(0), "0");
    assert_eq!(to_hex(9), "9");
    assert_eq!(to_hex(10), "a");
    assert_eq!(to_hex(15), "f");
    assert_eq!(to_hex(16), "10");
    assert_eq!(to_hex(255), "ff");
    assert_eq!(to_hex(0x1234_abcd), "1234abcd");
    assert_eq!(to_hex(u32::MAX), "ffffffff");
    assert_eq!(to_hex(0x0100_0000), "1000000");
}

#[test]
fn hex_agrees_with_std_formatting() {
    let mut v: u32 = 1;
    for _ in 0..200 {
        assert_eq!(to_hex(v), format!("{:x}", v));
        v = v.wrapping_mul(2_654_435_761).wrapping_add(12345);
    }
}

#[test]
fn digests_of_known_bytes() {
    assert_eq!(fnv_hash_bytes(b""), 0x811c_9dc5);
    assert_eq!(fnv_hash_bytes(b"a"), 0xe40c_292c);
    assert_eq!(fnv_hash_bytes(b"foobar"), 0xbf9c_f968);
    assert_eq!(murmur_hash_bytes(b"hello"), 0x4f9f_2cab);
}

#[test]
fn the_two_hashes_agree() {
    let mut data: Vec<u8> = Vec::new();
    let mut x: u32 = 17;
    for _ in 0..300 {
        assert_eq!(murmur_hash_bytes(&data), fnv_hash_bytes(&data));
        x = x.wrapping_mul(1_103_515_245).wrapping_add(12345);
        data.push((x >> 16) as u8);
    }
}
