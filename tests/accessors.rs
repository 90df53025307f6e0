use bitfield::access::get;
use bitfield::layout::{compute_layout, FieldDecl, FieldLayout};
use bitfield::mask::{byte_mask, get_segment_value, set_segment_byte};
use bitfield::segment::Byte;
use bitfield::storage::Bitfield;

fn field(offset: usize, width: u8) -> FieldLayout {
    FieldLayout { name: String::from("f"), offset, width }
}

fn decl(name: &str, width: u8) -> FieldDecl {
    FieldDecl { name: String::from(name), width }
}

#[test]
fn masks_select_the_segment_bits() {
    assert_eq!(byte_mask(2, 3, true), 0b0011_1000);
    assert_eq!(byte_mask(2, 3, false), 0b1100_0111);
    assert_eq!(byte_mask(0, 8, true), 0xff);
    assert_eq!(byte_mask(0, 8, false), 0x00);
    assert_eq!(byte_mask(7, 1, true), 0b0000_0001);
    assert_eq!(byte_mask(0, 1, true), 0b1000_0000);
}

#[test]
fn segment_value_is_right_justified_then_shifted() {
    let seg = Byte { index: 0, start: 1, len: 3 };
    assert_eq!(get_segment_value(0, &seg, 0b0101_1111), 0b101);
    assert_eq!(get_segment_value(4, &seg, 0b0101_1111), 0b101_0000);
}

#[test]
fn segment_byte_keeps_neighbouring_bits() {
    let seg = Byte { index: 0, start: 1, len: 3 };
    assert_eq!(set_segment_byte(0, &seg, 0b010, 0xff), 0b1010_1111);
    assert_eq!(set_segment_byte(2, &seg, 0b1_0011, 0x00), 0b0100_0000);
}

#[test]
fn three_fields_in_one_byte() {
    let layout = compute_layout(&vec![decl("a", 1), decl("b", 3), decl("c", 4)]).unwrap();
    let offsets: Vec<(usize, u8)> = layout.fields.iter().map(|f| (f.offset, f.width)).collect();
    assert_eq!(offsets, vec![(0, 1), (1, 3), (4, 4)]);
    assert_eq!(layout.bytes, 1);
    let mut b = Bitfield::new(layout);
    assert_eq!(b.data, vec![0u8]);
    b.set_field(0, 1).set_field(1, 5).set_field(2, 9);
    assert_eq!(b.data, vec![0xD9]);
    assert_eq!(b.get_field(0), 1);
    assert_eq!(b.get_field(1), 5);
    assert_eq!(b.get_field(2), 9);
}

#[test]
fn twelve_bit_field_is_written_high_byte_first() {
    let mut buf = vec![0u8; 2];
    bitfield::access::set(&field(0, 12), &mut buf, 0xABC);
    assert_eq!(buf, vec![0xAB, 0xC0]);
    assert_eq!(get(&field(0, 12), &buf), 0xABC);
}

#[test]
fn set_then_get_returns_the_value() {
    let pattern: u64 = 0x9E37_79B9_7F4A_7C15;
    for width in 1..=64u8 {
        for offset in [0usize, 1, 5, 7, 8, 13] {
            let value = if width == 64 { pattern } else { pattern & ((1u64 << width) - 1) };
            let mut buf = vec![0x5Au8; 10];
            let before = buf.clone();
            let f = field(offset, width);
            bitfield::access::set(&f, &mut buf, value);
            assert_eq!(get(&f, &buf), value);
            let end = offset + width as usize;
            for i in 0..buf.len() {
                if i * 8 + 8 <= offset || end <= i * 8 {
                    assert_eq!(buf[i], before[i]);
                }
            }
        }
    }
}

#[test]
fn oversized_values_are_truncated() {
    let mut buf = vec![0u8; 1];
    bitfield::access::set(&field(2, 3), &mut buf, 0b1111_1010);
    assert_eq!(get(&field(2, 3), &buf), 0b010);
    assert_eq!(buf, vec![0b0001_0000]);
}

#[test]
fn setting_twice_equals_setting_once() {
    let f = field(5, 13);
    let mut once = vec![0x33u8, 0xCC, 0x0F];
    bitfield::access::set(&f, &mut once, 0x1ABC);
    let mut twice = once.clone();
    bitfield::access::set(&f, &mut twice, 0x1ABC);
    assert_eq!(once, twice);
}

#[test]
fn writing_one_field_keeps_the_others() {
    let layout = compute_layout(&vec![decl("x", 5), decl("y", 17), decl("z", 2)]).unwrap();
    let mut b = Bitfield::new(layout);
    b.set_field(0, 0b10110);
    b.set_field(2, 0b11);
    b.set_field(1, 0x1_2345);
    assert_eq!(b.get_field(0), 0b10110);
    assert_eq!(b.get_field(1), 0x1_2345);
    assert_eq!(b.get_field(2), 0b11);
    assert_eq!(b.data, vec![0b1011_0100, 0b1000_1101, 0b0001_0111]);
}
