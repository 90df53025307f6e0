use vstd::prelude::*;
use crate::segment::Byte;

verus! {

/// Bit `b` of the byte `x`, counted from the most-significant bit (`b < 8`).
pub open spec fn byte_bit(x: u8, b: u8) -> bool {
    (x >> ((7 - b) as u8)) & 1u8 == 1u8
}

/// Bit `k` of `v`, counted from the least-significant bit (`k < 64`).
pub open spec fn value_bit(v: u64, k: u64) -> bool {
    (v >> k) & 1u64 == 1u64
}

/// The byte whose bits `[start, start + len)`, counted from the
/// most-significant bit, are set and whose other bits are clear.
pub open spec fn mask_of(start: u8, len: u8) -> u8 {
    (0xffu8 >> start) & (0xffu8 << ((8 - start - len) as u8))
}

/// The value of the bits `[start, start + len)` of `x`, read
/// most-significant bit first.
pub open spec fn byte_bits(x: u8, start: int, len: nat) -> u64
    decreases len,
{
    if len == 0 {
        0
    } else {
        (byte_bits(x, start, (len - 1) as nat) << 1u64) | (if byte_bit(x, (start + len - 1) as u8) {
            1u64
        } else {
            0u64
        })
    }
}

proof fn lemma_mask_bit(s: u8, l: u8, b: u8)
    by (bit_vector)
    requires
        s < 8,
        1 <= l,
        s + l <= 8,
        b < 8,
    ensures
        byte_bit(mask_of(s, l), b) == (s <= b && b < s + l),
        byte_bit(!mask_of(s, l), b) == !(s <= b && b < s + l),
{
}

proof fn lemma_extract_first(x: u8, s: u8)
    by (bit_vector)
    requires
        s < 8,
    ensures
        (((x & mask_of(s, 1)) >> ((7 - s) as u8)) as u64) == (if byte_bit(x, s) {
            1u64
        } else {
            0u64
        }),
{
}

proof fn lemma_extract_step(x: u8, s: u8, l: u8)
    by (bit_vector)
    requires
        1 <= l,
        s + l < 8,
    ensures
        (((x & mask_of(s, (l + 1) as u8)) >> ((8 - s - l - 1) as u8)) as u64) == (((((x
            & mask_of(s, l)) >> ((8 - s - l) as u8)) as u64) << 1u64) | (if byte_bit(
            x,
            (s + l) as u8,
        ) {
            1u64
        } else {
            0u64
        })),
{
}

/// Masking a byte to the bits `[s, s + l)` and moving them to the low end
/// gives their value.
proof fn lemma_extract(x: u8, s: u8, l: u8)
    requires
        1 <= l,
        s + l <= 8,
    ensures
        (((x & mask_of(s, l)) >> ((8 - s - l) as u8)) as u64) == byte_bits(x, s as int, l as nat),
    decreases l,
{
    if l == 1 {
        lemma_extract_first(x, s);
        assert(byte_bits(x, s as int, 0) == 0u64);
        assert((0u64 << 1u64) == 0u64) by (bit_vector);
        assert((0u64 << 1u64) | 1u64 == 1u64 && (0u64 << 1u64) | 0u64 == 0u64) by (bit_vector);
    } else {
        lemma_extract(x, s, (l - 1) as u8);
        lemma_extract_step(x, s, (l - 1) as u8);
    }
}

proof fn lemma_set_bit(value: u64, shift: u64, s: u8, l: u8, cur: u8, b: u8)
    by (bit_vector)
    requires
        s < 8,
        1 <= l,
        s + l <= 8,
        shift + l <= 64,
        b < 8,
    ensures
        byte_bit(
            ((((value >> shift) << ((8 - s - l) as u64)) as u8) & mask_of(s, l)) | (cur & !mask_of(
                s,
                l,
            )),
            b,
        ) == if s <= b && b < s + l {
            value_bit(value, (shift + s + l - 1 - b) as u64)
        } else {
            byte_bit(cur, b)
        },
{
}

/// The 8-bit mask of the bits `[start, start + len)` of a byte, counted from
/// the most-significant bit; with `keep_field_bits` false, its complement.
pub fn byte_mask(start: usize, len: usize, keep_field_bits: bool) -> (r: u8)
    requires
        start < 8,
        1 <= len,
        start + len <= 8,
    ensures
        keep_field_bits ==> r == mask_of(start as u8, len as u8),
        !keep_field_bits ==> r == !mask_of(start as u8, len as u8),
        forall|b: u8|
            b < 8 ==> (#[trigger] byte_bit(r, b) == (keep_field_bits == (start <= b && b < start
                + len))),
{
    let s: u8 = start as u8;
    let l: u8 = len as u8;
    let m: u8 = (0xffu8 >> s) & (0xffu8 << (8 - s - l));
    let r: u8 = if keep_field_bits {
        m
    } else {
        !m
    };
    proof {
        assert forall|b: u8| b < 8 implies (#[trigger] byte_bit(r, b) == (keep_field_bits == (start
            <= b && b < start + len))) by {
            lemma_mask_bit(s, l, b);
        }
    }
    r
}

/// The bits of `seg` in `byte_value`, moved to the low end and then shifted
/// left by `accumulated_shift`, the number of field bits that follow them.
pub fn get_segment_value(accumulated_shift: usize, seg: &Byte, byte_value: u8) -> (r: u64)
    requires
        seg.well_formed(),
        accumulated_shift + seg.len <= 64,
    ensures
        r == byte_bits(byte_value, seg.start as int, seg.len as nat) << (accumulated_shift as u64),
{
    let m = byte_mask(seg.start, seg.len, true);
    let masked: u8 = byte_value & m;
    let mut v: u64 = masked as u64;
    let k: u64 = (8 - seg.len - seg.start) as u64;
    if seg.start + seg.len != 8 {
        v = v >> k;
    }
    proof {
        let ku8 = k as u8;
        assert((masked as u64) >> k == (masked >> ku8) as u64) by (bit_vector)
            requires
                k < 8,
                ku8 == k,
        ;
        assert((masked as u64) >> 0u64 == masked as u64) by (bit_vector);
        lemma_extract(byte_value, seg.start as u8, seg.len as u8);
    }
    let sh: u64 = accumulated_shift as u64;
    if accumulated_shift != 0 {
        v = v << sh;
    }
    proof {
        assert(v << 0u64 == v) by (bit_vector);
    }
    v
}

/// The byte `current_byte` with the bits of `seg` replaced by those of
/// `input_value` that sit `accumulated_shift` places above its low end: the
/// low bits consumed by the segments that follow are skipped.
pub fn set_segment_byte(accumulated_shift: usize, seg: &Byte, input_value: u64, current_byte: u8) -> (r: u8)
    requires
        seg.well_formed(),
        accumulated_shift + seg.len <= 64,
    ensures
        forall|b: u8|
            b < 8 ==> #[trigger] byte_bit(r, b) == if seg.start <= b && b < seg.start + seg.len {
                value_bit(input_value, (accumulated_shift + seg.start + seg.len - 1 - b) as u64)
            } else {
                byte_bit(current_byte, b)
            },
{
    let sh: u64 = accumulated_shift as u64;
    let k: u64 = (8 - seg.start - seg.len) as u64;
    let mut v: u64 = input_value;
    if accumulated_shift > 0 {
        v = v >> sh;
    }
    if seg.start + seg.len != 8 {
        v = v << k;
    }
    let keep = byte_mask(seg.start, seg.len, true);
    let clear = byte_mask(seg.start, seg.len, false);
    let r: u8 = ((v as u8) & keep) | (current_byte & clear);
    proof {
        assert(input_value >> 0u64 == input_value) by (bit_vector);
        assert((input_value >> sh) << 0u64 == input_value >> sh) by (bit_vector);
        assert(v == (input_value >> sh) << k);
        let s = seg.start as u8;
        let l = seg.len as u8;
        assert forall|b: u8| b < 8 implies #[trigger] byte_bit(r, b) == if seg.start <= b && b
            < seg.start + seg.len {
            value_bit(input_value, (accumulated_shift + seg.start + seg.len - 1 - b) as u64)
        } else {
            byte_bit(current_byte, b)
        } by {
            lemma_set_bit(input_value, sh, s, l, current_byte, b);
        }
    }
    r
}

} // verus!
