use wasm_audio::bits::{bitrev, is_power_of_2, numbits};
use wasm_audio::engine::FftError;
use wasm_audio::permute::{bit_reverse_copy, try_bit_reverse_copy};

#[test]
fn test_bit_reverse_copy() {
    let a = vec![0, 1, 2, 3, 4, 5, 6, 7];
    let mut b = vec![0; a.len()];
    bit_reverse_copy(&a, &mut b);
    assert_eq!(b, vec![0, 4, 2, 6, 1, 5, 3, 7]);
}

#[test]
fn test_getbits() {
    assert_eq!(numbits(0), 0);
    assert_eq!(numbits(1), 1);
    assert_eq!(numbits(0b10), 2);
    assert_eq!(numbits(0b11), 2);
    assert_eq!(numbits(0b100), 3);
    assert_eq!(numbits(0b101), 3);
    assert_eq!(numbits(0b110), 3);
    assert_eq!(numbits(0b111), 3);
    assert_eq!(numbits(0b1000), 4);
    assert_eq!(numbits(0b1111), 4);
    assert_eq!(numbits(0b10000000), 8);
    assert_eq!(numbits(0b10101010), 8);
    assert_eq!(numbits(0b1000000000000000), 16);
    assert_eq!(numbits(0b1010101010101010), 16);
}

#[test]
fn test_bitrev() {
    assert_eq!(bitrev(0, 3), 0);
    assert_eq!(bitrev(0b001, 3), 0b100);
    assert_eq!(bitrev(0b100, 3), 0b001);
    assert_eq!(bitrev(0b1010, 4), 0b0101);
    assert_eq!(bitrev(0b0101, 4), 0b1010);
    assert_eq!(bitrev(0b101000, 6), 0b000101);
    assert_eq!(bitrev(0b000101, 6), 0b101000);
    assert_eq!(bitrev(0b11001100, 8), 0b00110011);
    assert_eq!(bitrev(0b11111001100, 8), 0b00110011);
}

#[test]
fn numbits_of_largest_value() {
    assert_eq!(numbits(usize::MAX), usize::BITS as usize);
}

#[test]
fn bitrev_twice_restores_every_index() {
    for b in 0..=10usize {
        for k in 0..(1usize << b) {
            assert_eq!(bitrev(bitrev(k, b), b), k);
        }
    }
}

#[test]
fn bitrev_of_zero_bits_is_zero() {
    assert_eq!(bitrev(0, 0), 0);
    assert_eq!(bitrev(12345, 0), 0);
}

#[test]
fn bitrev_over_full_word() {
    assert_eq!(bitrev(1, usize::BITS as usize), 1usize << (usize::BITS - 1));
    assert_eq!(bitrev(usize::MAX, usize::BITS as usize), usize::MAX);
}

#[test]
fn power_of_two_edge_cases() {
    assert!(!is_power_of_2(0));
    assert!(is_power_of_2(1));
    assert!(is_power_of_2(2));
    assert!(!is_power_of_2(3));
    assert!(is_power_of_2(4));
    assert!(!is_power_of_2(6));
    assert!(!is_power_of_2(12));
    assert!(is_power_of_2(1024));
    assert!(is_power_of_2(1usize << (usize::BITS - 1)));
    assert!(!is_power_of_2(usize::MAX));
}

#[test]
fn bit_reverse_copy_of_one_element() {
    let a = vec![42];
    let mut b = vec![0];
    bit_reverse_copy(&a, &mut b);
    assert_eq!(b, vec![42]);
}

#[test]
fn bit_reverse_copy_of_sixteen() {
    let a: Vec<u32> = (0..16).collect();
    let mut b = vec![0u32; 16];
    bit_reverse_copy(&a, &mut b);
    assert_eq!(b, vec![0, 8, 4, 12, 2, 10, 6, 14, 1, 9, 5, 13, 3, 11, 7, 15]);
}

#[test]
fn checked_bit_reverse_copy_refuses_bad_sizes_untouched() {
    let a = vec![1, 2, 3, 4, 5, 6];
    let mut b = vec![9; 6];
    assert_eq!(try_bit_reverse_copy(&a, &mut b), Err(FftError::NotPowerOfTwo));
    assert_eq!(b, vec![9; 6]);
    let mut c = vec![9; 4];
    assert_eq!(try_bit_reverse_copy(&a, &mut c), Err(FftError::LengthMismatch));
    assert_eq!(c, vec![9; 4]);
    let a4 = vec![1, 2, 3, 4];
    assert_eq!(try_bit_reverse_copy(&a4, &mut c), Ok(()));
    assert_eq!(c, vec![1, 3, 2, 4]);
}
