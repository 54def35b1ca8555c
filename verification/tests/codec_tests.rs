use preimage_search::codec::{add_with_carry, from_digits, to_base62_digits, to_digits};

#[test]
fn to_digits_is_little_endian() {
    assert_eq!(to_digits(1000, 10, 4), vec![0, 0, 0, 1]);
    assert_eq!(to_digits(123, 10, 5), vec![3, 2, 1, 0, 0]);
    assert_eq!(to_digits(0, 62, 3), vec![0, 0, 0]);
    assert_eq!(to_digits(5, 16, 1), vec![5]);
}

#[test]
fn to_digits_of_length_zero_is_empty() {
    assert_eq!(to_digits(77, 10, 0), Vec::<u32>::new());
}

#[test]
fn to_digits_drops_the_high_part() {
    assert_eq!(to_digits(12345, 10, 3), vec![5, 4, 3]);
    assert_eq!(to_digits(16, 16, 1), vec![0]);
}

#[test]
fn to_base62_digits_known_values() {
    assert_eq!(to_base62_digits(0), [0u32; 8]);
    assert_eq!(to_base62_digits(123_456_789), [33, 46, 0, 22, 8, 0, 0, 0]);
    assert_eq!(to_base62_digits(218_340_105_584_895), [61u32; 8]);
    assert_eq!(to_base62_digits(218_340_105_584_896), [0u32; 8]);
    assert_eq!(to_base62_digits(11_217_692_018), [26, 8, 18, 10, 15, 12, 0, 0]);
}

#[test]
fn to_base62_digits_agrees_with_to_digits() {
    for index in [0u128, 1, 61, 62, 3843, 3844, 999_999_999, u128::MAX] {
        assert_eq!(to_base62_digits(index).to_vec(), to_digits(index, 62, 8));
    }
}

#[test]
fn from_digits_known_values() {
    assert_eq!(from_digits(&[0, 0, 0, 1], 10), Some(1000));
    assert_eq!(from_digits(&[33, 46, 0, 22, 8, 0, 0, 0], 62), Some(123_456_789));
    assert_eq!(from_digits(&[], 62), Some(0));
    assert_eq!(from_digits(&[61; 8], 62), Some(218_340_105_584_895));
}

#[test]
fn from_digits_reports_what_does_not_fit() {
    // 2^128 = 1 followed by 128 zeros in base 2.
    let mut digits = vec![0u32; 128];
    digits.push(1);
    assert_eq!(from_digits(&digits, 2), None);
    // 2^128 - 1 still fits.
    assert_eq!(from_digits(&vec![1u32; 128], 2), Some(u128::MAX));
    // A high digit of zero adds nothing.
    let mut padded = vec![1u32; 128];
    padded.push(0);
    assert_eq!(from_digits(&padded, 2), Some(u128::MAX));
}

#[test]
fn codec_round_trip_over_a_whole_space() {
    // radix 5, length 4: all 625 indices.
    for index in 0..625u128 {
        assert_eq!(from_digits(&to_digits(index, 5, 4), 5), Some(index));
    }
}

#[test]
fn codec_round_trip_base62() {
    for index in [0u128, 1, 61, 62, 11_217_692_018, 218_340_105_584_895] {
        assert_eq!(from_digits(&to_digits(index, 62, 8), 62), Some(index));
    }
}

#[test]
fn add_with_carry_propagates() {
    assert_eq!(add_with_carry(&[9, 9, 0], &[1, 0, 0], 10), vec![0, 0, 1]);
    assert_eq!(add_with_carry(&[61, 61, 0], &[1, 0, 0], 62), vec![0, 0, 1]);
    assert_eq!(add_with_carry(&[5, 5], &[5, 5], 10), vec![0, 1]);
    assert_eq!(add_with_carry(&[], &[], 10), Vec::<u32>::new());
}

#[test]
fn add_with_carry_drops_the_top_carry() {
    assert_eq!(add_with_carry(&[9, 9], &[1, 0], 10), vec![0, 0]);
    assert_eq!(add_with_carry(&[9, 9], &[9, 9], 10), vec![8, 9]);
    assert_eq!(add_with_carry(&[15], &[1], 16), vec![0]);
}

#[test]
fn add_with_carry_works_at_the_largest_radix() {
    let top = u32::MAX - 1;
    assert_eq!(add_with_carry(&[top, 0], &[top, 0], u32::MAX), vec![top - 1, 1]);
}

#[test]
fn carry_correctness_over_a_whole_space() {
    // radix 3, length 4: every a, b with a + b < 81.
    for a in 0..81u128 {
        for b in 0..(81 - a) {
            assert_eq!(
                add_with_carry(&to_digits(a, 3, 4), &to_digits(b, 3, 4), 3),
                to_digits(a + b, 3, 4)
            );
        }
    }
}

#[test]
fn carry_wraps_modulo_the_space() {
    for a in 0..81u128 {
        for b in 0..81u128 {
            assert_eq!(
                add_with_carry(&to_digits(a, 3, 4), &to_digits(b, 3, 4), 3),
                to_digits((a + b) % 81, 3, 4)
            );
        }
    }
}
