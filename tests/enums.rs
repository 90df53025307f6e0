use bitfield::error::BitfieldError;
use bitfield::variants::{enum_bit_size, enum_variants_pow_of_2, validate_enum, Variant};

fn implicit(count: usize) -> Vec<Variant> {
    (0..count).map(|i| Variant { name: format!("V{}", i), discriminant: None }).collect()
}

fn with(discriminants: &[Option<i128>]) -> Vec<Variant> {
    discriminants
        .iter()
        .enumerate()
        .map(|(i, d)| Variant { name: format!("V{}", i), discriminant: *d })
        .collect()
}

#[test]
fn power_of_two_counts_give_their_exponent() {
    for (count, bits) in [(1usize, 0u8), (2, 1), (4, 2), (8, 3), (16, 4), (32, 5), (64, 6)] {
        assert_eq!(validate_enum(&implicit(count)), Ok(bits));
    }
}

#[test]
fn other_counts_are_not_powers_of_two() {
    for count in [3usize, 5, 6, 7] {
        assert_eq!(validate_enum(&implicit(count)), Err(BitfieldError::NotPowerOfTwo(count)));
        assert!(!enum_variants_pow_of_2(&implicit(count)));
    }
}

#[test]
fn enum_without_variants_is_refused() {
    assert_eq!(validate_enum(&implicit(0)), Err(BitfieldError::InvalidBitWidth));
    assert_eq!(enum_bit_size(&implicit(0)), None);
}

#[test]
fn bit_size_rounds_up() {
    assert_eq!(enum_bit_size(&implicit(1)), Some(0));
    assert_eq!(enum_bit_size(&implicit(3)), Some(2));
    assert_eq!(enum_bit_size(&implicit(5)), Some(3));
    assert_eq!(enum_bit_size(&implicit(8)), Some(3));
    assert_eq!(enum_bit_size(&implicit(9)), Some(4));
}

#[test]
fn explicit_discriminants_continue_implicitly() {
    let vs = with(&[Some(2), None, Some(0), None]);
    assert_eq!(validate_enum(&vs), Ok(2));
}

#[test]
fn discriminant_out_of_range_is_reported() {
    let vs = with(&[None, Some(3), None, None]);
    assert_eq!(validate_enum(&vs), Err(BitfieldError::DiscriminantOutOfRange(2, 4)));
    let vs = with(&[Some(-1), None]);
    assert_eq!(validate_enum(&vs), Err(BitfieldError::DiscriminantOutOfRange(0, -1)));
    let vs = with(&[Some(1), Some(2)]);
    assert_eq!(validate_enum(&vs), Err(BitfieldError::DiscriminantOutOfRange(1, 2)));
}

#[test]
fn duplicate_discriminants_are_accepted() {
    let vs = with(&[Some(1), Some(1)]);
    assert_eq!(validate_enum(&vs), Ok(1));
}
