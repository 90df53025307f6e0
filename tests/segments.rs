use bitfield::error::BitfieldError;
use bitfield::segment::{field_bytes, resolve_segments, Byte};

fn check_bytes(bytes: &[Byte], expected: &[(usize, usize, usize)]) {
    assert_eq!(bytes.len(), expected.len());
    for (b, &(start, index, len)) in bytes.iter().zip(expected.iter()) {
        assert_eq!(b.start, start);
        assert_eq!(b.index, index);
        assert_eq!(b.len, len);
    }
}

#[test]
fn test_get_field_bytes() {
    check_bytes(&field_bytes(0, 1), &[(0, 0, 1)]);
    check_bytes(&field_bytes(7, 1), &[(7, 0, 1)]);
    check_bytes(&field_bytes(15, 1), &[(7, 1, 1)]);
    check_bytes(&field_bytes(0, 12), &[(0, 0, 8), (0, 1, 4)]);
    check_bytes(&field_bytes(7, 14), &[(7, 0, 1), (0, 1, 8), (0, 2, 5)]);
    check_bytes(&field_bytes(15, 2), &[(7, 1, 1), (0, 2, 1)]);
    check_bytes(&field_bytes(80, 20), &[(0, 10, 8), (0, 11, 8), (0, 12, 4)]);
}

#[test]
fn twelve_bit_field_spans_two_bytes() {
    let segs = resolve_segments(0, 12).unwrap();
    assert_eq!(
        segs,
        vec![Byte { index: 0, start: 0, len: 8 }, Byte { index: 1, start: 0, len: 4 }]
    );
}

#[test]
fn straddling_field_has_three_segments() {
    let segs = resolve_segments(7, 14).unwrap();
    assert_eq!(
        segs,
        vec![
            Byte { index: 0, start: 7, len: 1 },
            Byte { index: 1, start: 0, len: 8 },
            Byte { index: 2, start: 0, len: 5 },
        ]
    );
}

#[test]
fn field_inside_one_byte_has_one_segment() {
    let segs = resolve_segments(10, 5).unwrap();
    assert_eq!(segs, vec![Byte { index: 1, start: 2, len: 5 }]);
}

#[test]
fn zero_width_segments_are_refused() {
    assert_eq!(resolve_segments(3, 0), Err(BitfieldError::ZeroWidthField));
}

#[test]
fn segments_partition_every_range() {
    for offset in 0..40usize {
        for length in 1..=64usize {
            let segs = resolve_segments(offset, length).unwrap();
            let mut pos = offset;
            for s in &segs {
                assert!(s.start < 8 && s.len >= 1 && s.start + s.len <= 8);
                assert_eq!(s.index * 8 + s.start, pos);
                pos += s.len;
            }
            assert_eq!(pos, offset + length);
            for w in segs.windows(2) {
                assert_eq!(w[1].index, w[0].index + 1);
            }
        }
    }
}
