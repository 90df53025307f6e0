use bitfield::error::BitfieldError;
use bitfield::layout::{compute_layout, FieldDecl};
use bitfield::specifier::{get_upper_size_bound, is_pow_of_2, resolve};

fn decl(name: &str, width: u8) -> FieldDecl {
    FieldDecl { name: String::from(name), width }
}

#[test]
fn storage_width_is_the_smallest_that_fits() {
    for w in 1..=64u8 {
        let expected = [8u8, 16, 32, 64].into_iter().find(|&s| s >= w).unwrap();
        assert_eq!(resolve(w), Ok(expected));
        assert_eq!(get_upper_size_bound(w), expected);
    }
    assert_eq!(resolve(8), Ok(8));
    assert_eq!(resolve(9), Ok(16));
    assert_eq!(resolve(33), Ok(64));
}

#[test]
fn widths_outside_one_to_sixty_four_are_refused() {
    assert_eq!(resolve(0), Err(BitfieldError::InvalidWidth));
    assert_eq!(resolve(65), Err(BitfieldError::InvalidWidth));
    assert_eq!(resolve(255), Err(BitfieldError::InvalidWidth));
}

#[test]
fn layout_offsets_are_contiguous() {
    let decls = vec![decl("a", 3), decl("b", 9), decl("c", 1), decl("d", 64), decl("e", 19)];
    let layout = compute_layout(&decls).unwrap();
    assert_eq!(layout.total_bits, 96);
    assert_eq!(layout.bytes, 12);
    let offsets: Vec<usize> = layout.fields.iter().map(|f| f.offset).collect();
    assert_eq!(offsets, vec![0, 3, 12, 13, 77]);
    for (f, d) in layout.fields.iter().zip(decls.iter()) {
        assert_eq!(f.name, d.name);
        assert_eq!(f.width, d.width);
    }
}

#[test]
fn empty_struct_is_refused() {
    assert_eq!(compute_layout(&vec![]).unwrap_err(), BitfieldError::EmptyStruct);
}

#[test]
fn invalid_field_width_is_refused() {
    let decls = vec![decl("a", 4), decl("b", 0), decl("c", 4)];
    assert_eq!(compute_layout(&decls).unwrap_err(), BitfieldError::InvalidWidth);
    let decls = vec![decl("a", 65), decl("b", 7)];
    assert_eq!(compute_layout(&decls).unwrap_err(), BitfieldError::InvalidWidth);
}

#[test]
fn misaligned_total_is_refused() {
    let decls = vec![decl("a", 1), decl("b", 3), decl("c", 5)];
    assert_eq!(compute_layout(&decls).unwrap_err(), BitfieldError::MisalignedSize(9));
}

#[test]
fn powers_of_two_are_recognised() {
    assert!(!is_pow_of_2(0));
    assert!(is_pow_of_2(1));
    assert!(is_pow_of_2(2));
    assert!(!is_pow_of_2(3));
    assert!(is_pow_of_2(64));
    assert!(!is_pow_of_2(96));
    assert!(is_pow_of_2(1usize << 63));
    assert!(!is_pow_of_2(usize::MAX));
}
