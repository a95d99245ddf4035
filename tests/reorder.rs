use fft::reorder::bit_reversal_permutation;
use fft::size::{check_size, is_power_of_two, FftError};

#[test]
fn test_bit_reversal_permutation() {
    let mut data1 = vec![1.0f32, 2.0, 3.0, 4.0];
    let expect = vec![1.0f32, 3.0, 2.0, 4.0];
    bit_reversal_permutation(&mut data1);
    assert_eq!(expect, data1);
}

#[test]
fn bit_reversal_of_eight() {
    let mut data: Vec<u32> = (0..8).collect();
    bit_reversal_permutation(&mut data);
    assert_eq!(data, vec![0, 4, 2, 6, 1, 5, 3, 7]);
}

#[test]
fn bit_reversal_of_sixteen() {
    let mut data: Vec<u32> = (0..16).collect();
    bit_reversal_permutation(&mut data);
    assert_eq!(data, vec![0, 8, 4, 12, 2, 10, 6, 14, 1, 9, 5, 13, 3, 11, 7, 15]);
}

#[test]
fn bit_reversal_twice_is_identity() {
    let orig: Vec<i64> = vec![5, -3, 9, 0, 12, 7, -8, 1, 4, 4, 2, 6, 11, -1, 3, 10, 20, 21, 22, 23, 24, 25, 26, 27, 28, 29, 30, 31, 32, 33, 34, 35];
    let mut data = orig.clone();
    bit_reversal_permutation(&mut data);
    assert_ne!(data, orig);
    bit_reversal_permutation(&mut data);
    assert_eq!(data, orig);
}

#[test]
fn bit_reversal_of_one_and_two_is_identity() {
    let mut one = vec![7.5f32];
    bit_reversal_permutation(&mut one);
    assert_eq!(one, vec![7.5f32]);
    let mut two = vec![1.0f32, 2.0];
    bit_reversal_permutation(&mut two);
    assert_eq!(two, vec![1.0f32, 2.0]);
}

#[test]
fn powers_of_two() {
    assert!(!is_power_of_two(0));
    assert!(is_power_of_two(1));
    assert!(is_power_of_two(2));
    assert!(!is_power_of_two(3));
    assert!(is_power_of_two(1024));
    assert!(!is_power_of_two(1023));
    assert!(!is_power_of_two(12));
    assert!(is_power_of_two(1usize << (usize::BITS - 1)));
    assert!(!is_power_of_two(usize::MAX));
}

#[test]
fn size_checks() {
    assert_eq!(check_size(0, 0, 0), Err(FftError::InvalidSize));
    assert_eq!(check_size(3, 3, 3), Err(FftError::InvalidSize));
    assert_eq!(check_size(8, 8, 4), Err(FftError::LengthMismatch));
    assert_eq!(check_size(8, 8, 8), Ok(()));
    assert_eq!(check_size(1, 1, 1), Ok(()));
}
