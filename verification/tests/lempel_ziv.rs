use veil_core::entropy::lempel_ziv_complexity;

#[test]
fn empty_input_has_complexity_one() {
    assert_eq!(lempel_ziv_complexity(&[]), 1);
}

#[test]
fn single_byte_has_complexity_one() {
    assert_eq!(lempel_ziv_complexity(&[7]), 1);
    assert_eq!(lempel_ziv_complexity(b"a"), 1);
}

#[test]
fn run_of_equal_bytes_has_complexity_two() {
    assert_eq!(lempel_ziv_complexity(&[0, 0, 0, 0]), 2);
    assert_eq!(lempel_ziv_complexity(b"aa"), 2);
    for n in 2..40usize {
        let run = vec![0xabu8; n];
        assert_eq!(lempel_ziv_complexity(&run), 2, "run of {} bytes", n);
    }
}

#[test]
fn distinct_bytes_are_incompressible() {
    assert_eq!(lempel_ziv_complexity(&[0, 1, 2, 3]), 4);
    let all: Vec<u8> = (0..=255u8).collect();
    assert_eq!(lempel_ziv_complexity(&all), 256);
}

#[test]
fn periodic_input_is_cheap() {
    assert_eq!(lempel_ziv_complexity(b"ab"), 2);
    assert_eq!(lempel_ziv_complexity(b"aba"), 3);
    assert_eq!(lempel_ziv_complexity(b"abab"), 3);
    assert_eq!(lempel_ziv_complexity(b"abababab"), 3);
    assert_eq!(lempel_ziv_complexity(b"abcabcabcabc"), 4);
}

#[test]
fn mixed_inputs() {
    assert_eq!(lempel_ziv_complexity(b"aabbaabb"), 5);
    assert_eq!(lempel_ziv_complexity(b"mississippi"), 8);
    assert_eq!(lempel_ziv_complexity(b"0001101001000101"), 8);
    assert_eq!(lempel_ziv_complexity(b"the quick brown fox"), 19);
}

#[test]
fn complexity_stays_within_its_bounds() {
    let inputs: [&[u8]; 5] = [b"", b"x", b"xyxyxyzzzz", b"hello, world", &[255, 0, 255, 0, 1]];
    for data in inputs {
        let c = lempel_ziv_complexity(data);
        assert!(c >= 1);
        assert!(c <= data.len().max(1));
    }
}

#[test]
fn input_is_left_untouched() {
    let data = vec![3u8, 1, 3, 1, 3];
    let copy = data.clone();
    let _ = lempel_ziv_complexity(&data);
    assert_eq!(data, copy);
}
