use vstd::prelude::*;
use crate::layout::FieldLayout;
use crate::mask::{byte_bit, byte_bits, get_segment_value, set_segment_byte, value_bit};
use crate::segment::{field_bytes, is_segmentation, lemma_segments_partition, Byte};
use crate::specifier::valid_width;
use vstd::arithmetic::power2::{lemma_pow2_pos, lemma_pow2_unfold, pow2};
use vstd::bits::lemma_u64_shr_is_div;

verus! {

/// Bit `pos` of the buffer: bit `pos % 8` of byte `pos / 8`, counted from the
/// most-significant bit.
pub open spec fn bit_at(buf: Seq<u8>, pos: int) -> bool {
    byte_bit(buf[pos / 8], (pos % 8) as u8)
}

/// The value of the `len` bits of the buffer that start at bit `pos`, read
/// most-significant bit first.
pub open spec fn field_bits(buf: Seq<u8>, pos: int, len: nat) -> u64
    decreases len,
{
    if len == 0 {
        0
    } else {
        (field_bits(buf, pos, (len - 1) as nat) << 1u64) | (if bit_at(buf, pos + len - 1) {
            1u64
        } else {
            0u64
        })
    }
}

/// `new` is `old` with the `width` bits at bit `offset` replaced by the low
/// `width` bits of `value`, most-significant first; every other bit is kept.
pub open spec fn written(old: Seq<u8>, new: Seq<u8>, offset: int, width: int, value: u64) -> bool {
    &&& new.len() == old.len()
    &&& forall|p: int|
        0 <= p < 8 * new.len() ==> #[trigger] bit_at(new, p) == if offset <= p < offset + width {
            value_bit(value, (offset + width - 1 - p) as u64)
        } else {
            bit_at(old, p)
        }
}

/// Byte `i` holds no bit of the range `[offset, offset + width)`.
pub open spec fn byte_outside(i: int, offset: int, width: int) -> bool {
    i * 8 + 8 <= offset || offset + width <= i * 8
}

proof fn lemma_in_byte(p: int, i: int)
    requires
        i * 8 <= p < i * 8 + 8,
    ensures
        p / 8 == i,
        p % 8 == p - i * 8,
{
}

/// The bits of a segment read from the buffer are those of its byte.
proof fn lemma_field_in_byte(buf: Seq<u8>, seg: Byte, l: nat)
    requires
        seg.well_formed(),
        l <= seg.len,
        seg.index < buf.len(),
    ensures
        field_bits(buf, seg.first_bit(), l) == byte_bits(buf[seg.index as int], seg.start as int, l),
    decreases l,
{
    if l > 0 {
        lemma_field_in_byte(buf, seg, (l - 1) as nat);
        lemma_in_byte(seg.first_bit() + l - 1, seg.index as int);
    }
}

proof fn lemma_concat_step(x: u64, y: u64, c: u64, b: u64)
    by (bit_vector)
    requires
        b < 63,
    ensures
        ((((x << b) | y) << 1u64) | c) == ((x << ((b + 1) as u64)) | ((y << 1u64) | c)),
{
}

/// The value of `a + b` bits is that of the first `a`, shifted past the last
/// `b`, combined with that of the last `b`.
proof fn lemma_concat(buf: Seq<u8>, pos: int, a: nat, b: nat)
    requires
        a >= 1,
        a + b <= 64,
    ensures
        field_bits(buf, pos, a + b) == (field_bits(buf, pos, a) << (b as u64)) | field_bits(
            buf,
            pos + a,
            b,
        ),
    decreases b,
{
    let x = field_bits(buf, pos, a);
    if b == 0 {
        assert((x << 0u64) | 0u64 == x) by (bit_vector);
    } else {
        lemma_concat(buf, pos, a, (b - 1) as nat);
        let y = field_bits(buf, pos + a, (b - 1) as nat);
        let c: u64 = if bit_at(buf, pos + a + b - 1) {
            1u64
        } else {
            0u64
        };
        lemma_concat_step(x, y, c, (b - 1) as u64);
    }
}

/// Reads the field from the buffer: the value of its bits, most-significant
/// first.
pub fn get(field: &FieldLayout, buffer: &Vec<u8>) -> (r: u64)
    requires
        valid_width(field.width as int),
        field.end() <= 8 * buffer@.len(),
        field.end() <= usize::MAX,
    ensures
        r == field_bits(buffer@, field.offset as int, field.width as nat),
{
    let w: usize = field.width as usize;
    let segs = field_bytes(field.offset, w);
    let ghost end = field.end();
    proof {
        lemma_segments_partition(segs@, field.offset as int, w as int);
    }
    let mut result: u64 = 0;
    let mut shift: usize = 0;
    let mut k: usize = segs.len();
    while k > 0
        invariant
            is_segmentation(segs@, field.offset as int, w as int),
            w == field.width,
            valid_width(w as int),
            end == field.offset + w,
            end <= 8 * buffer@.len(),
            forall|j: int|
                0 <= j < segs@.len() ==> field.offset <= (#[trigger] segs@[j]).first_bit()
                    && segs@[j].end_bit() <= end,
            forall|j: int|
                0 <= j < segs@.len() - 1 ==> (#[trigger] segs@[j]).end_bit() == segs@[j
                    + 1].first_bit(),
            k <= segs@.len(),
            k == segs@.len() ==> shift == 0,
            k < segs@.len() ==> shift == end - segs@[k as int].first_bit(),
            result == field_bits(buffer@, end - shift, shift as nat),
        decreases k,
    {
        k = k - 1;
        let seg = segs[k];
        assert(seg.well_formed());
        proof {
            if k + 1 < segs@.len() {
                assert(seg.end_bit() == segs@[k + 1].first_bit());
            } else {
                assert(seg == segs@.last());
            }
        }
        let part = get_segment_value(shift, &seg, buffer[seg.index]);
        proof {
            lemma_field_in_byte(buffer@, seg, seg.len as nat);
            lemma_concat(buffer@, seg.first_bit(), seg.len as nat, shift as nat);
        }
        result = part | result;
        shift = shift + seg.len;
    }
    result
}

/// Writes the low bits of `value` into the field, most-significant first;
/// higher bits of `value` are dropped and every other bit of the buffer is
/// kept.
pub fn set(field: &FieldLayout, buffer: &mut Vec<u8>, value: u64)
    requires
        valid_width(field.width as int),
        field.end() <= 8 * old(buffer)@.len(),
        field.end() <= usize::MAX,
    ensures
        written(old(buffer)@, final(buffer)@, field.offset as int, field.width as int, value),
        forall|i: int|
            0 <= i < final(buffer)@.len() && byte_outside(i, field.offset as int, field.width as int)
                ==> #[trigger] final(buffer)@[i] == old(buffer)@[i],
{
    let w: usize = field.width as usize;
    let segs = field_bytes(field.offset, w);
    let ghost end = field.end();
    let ghost original = buffer@;
    proof {
        lemma_segments_partition(segs@, field.offset as int, w as int);
    }
    let mut shift: usize = 0;
    let mut k: usize = segs.len();
    while k > 0
        invariant
            is_segmentation(segs@, field.offset as int, w as int),
            w == field.width,
            valid_width(w as int),
            end == field.offset + w,
            end <= 8 * original.len(),
            buffer@.len() == original.len(),
            forall|j: int|
                0 <= j < segs@.len() ==> field.offset <= (#[trigger] segs@[j]).first_bit()
                    && segs@[j].end_bit() <= end,
            forall|j: int|
                0 <= j < segs@.len() - 1 ==> (#[trigger] segs@[j]).end_bit() == segs@[j
                    + 1].first_bit(),
            k <= segs@.len(),
            k == segs@.len() ==> shift == 0,
            k < segs@.len() ==> shift == end - segs@[k as int].first_bit(),
            forall|p: int|
                0 <= p < 8 * buffer@.len() ==> #[trigger] bit_at(buffer@, p) == if end - shift <= p
                    < end {
                    value_bit(value, (end - 1 - p) as u64)
                } else {
                    bit_at(original, p)
                },
            forall|i: int|
                0 <= i < buffer@.len() && byte_outside(i, field.offset as int, w as int)
                    ==> #[trigger] buffer@[i] == original[i],
        decreases k,
    {
        k = k - 1;
        let seg = segs[k];
        assert(seg.well_formed());
        proof {
            if k + 1 < segs@.len() {
                assert(seg.end_bit() == segs@[k + 1].first_bit());
            }
        }
        let ghost before = buffer@;
        let current = buffer[seg.index];
        let b = set_segment_byte(shift, &seg, value, current);
        buffer[seg.index] = b;
        proof {
            assert forall|p: int| 0 <= p < 8 * buffer@.len() implies #[trigger] bit_at(buffer@, p)
                == if end - (shift + seg.len) <= p < end {
                value_bit(value, (end - 1 - p) as u64)
            } else {
                bit_at(original, p)
            } by {
                if seg.index * 8 <= p < seg.index * 8 + 8 {
                    lemma_in_byte(p, seg.index as int);
                    let bb: u8 = (p % 8) as u8;
                    assert(byte_bit(b, bb) == if seg.start <= bb && bb < seg.start + seg.len {
                        value_bit(value, (shift + seg.start + seg.len - 1 - bb) as u64)
                    } else {
                        byte_bit(current, bb)
                    });
                    assert(bit_at(before, p) == byte_bit(current, (p % 8) as u8));
                } else {
                    assert(p / 8 != seg.index) by {
                        if p / 8 == seg.index {
                            lemma_in_byte(p, p / 8);
                        }
                    }
                    assert(bit_at(buffer@, p) == bit_at(before, p));
                }
            }
        }
        shift = shift + seg.len;
    }
    proof {
        assert(end - shift == field.offset);
    }
}

proof fn lemma_shift_step(v: u64, k: u64)
    by (bit_vector)
    requires
        k < 63,
    ensures
        (((v >> ((k + 1) as u64)) << 1u64) | (if (v >> k) & 1u64 == 1u64 {
            1u64
        } else {
            0u64
        })) == v >> k,
{
}

/// After a write, the first `j` bits of the field hold the value without its
/// low `width - j` bits.
proof fn lemma_written_prefix(
    old: Seq<u8>,
    new: Seq<u8>,
    offset: int,
    width: int,
    value: u64,
    j: nat,
)
    requires
        valid_width(width),
        0 <= offset,
        offset + width <= 8 * old.len(),
        written(old, new, offset, width, value),
        value < pow2(width as nat),
        1 <= j <= width,
    ensures
        field_bits(new, offset, j) == value >> ((width - j) as u64),
    decreases j,
{
    assert(bit_at(new, offset + j - 1) == value_bit(value, (width - j) as u64));
    if j == 1 {
        let k = (width - 1) as u64;
        lemma_u64_shr_is_div(value, k);
        lemma_pow2_unfold(width as nat);
        lemma_pow2_pos(k as nat);
        let p = pow2(k as nat);
        assert(value as nat / p < 2) by (nonlinear_arith)
            requires
                value < 2 * p,
                p > 0,
        ;
        let x = value >> k;
        assert(field_bits(new, offset, 0) == 0u64);
        assert(((0u64 << 1u64) | (if x & 1u64 == 1u64 {
            1u64
        } else {
            0u64
        })) == x) by (bit_vector)
            requires
                x <= 1,
        ;
    } else {
        lemma_written_prefix(old, new, offset, width, value, (j - 1) as nat);
        lemma_shift_step(value, (width - j) as u64);
        assert(((width - j + 1) as u64) == (((width - j) as u64) + 1) as u64);
    }
}

/// Reading a field after writing a value that fits its width gives that
/// value back.
pub proof fn lemma_set_then_get(
    old: Seq<u8>,
    new: Seq<u8>,
    offset: int,
    width: int,
    value: u64,
)
    requires
        valid_width(width),
        0 <= offset,
        offset + width <= 8 * old.len(),
        written(old, new, offset, width, value),
        value < pow2(width as nat),
    ensures
        field_bits(new, offset, width as nat) == value,
{
    lemma_written_prefix(old, new, offset, width, value, width as nat);
    assert(value >> 0u64 == value) by (bit_vector);
}

proof fn lemma_byte_ext(x: u8, y: u8)
    by (bit_vector)
    requires
        byte_bit(x, 0u8) == byte_bit(y, 0u8),
        byte_bit(x, 1u8) == byte_bit(y, 1u8),
        byte_bit(x, 2u8) == byte_bit(y, 2u8),
        byte_bit(x, 3u8) == byte_bit(y, 3u8),
        byte_bit(x, 4u8) == byte_bit(y, 4u8),
        byte_bit(x, 5u8) == byte_bit(y, 5u8),
        byte_bit(x, 6u8) == byte_bit(y, 6u8),
        byte_bit(x, 7u8) == byte_bit(y, 7u8),
    ensures
        x == y,
{
}

/// Two buffers of one length that agree on every bit are equal.
proof fn lemma_buffer_ext(a: Seq<u8>, b: Seq<u8>)
    requires
        a.len() == b.len(),
        forall|p: int| 0 <= p < 8 * a.len() ==> #[trigger] bit_at(a, p) == bit_at(b, p),
    ensures
        a == b,
{
    assert forall|i: int| 0 <= i < a.len() implies a[i] == b[i] by {
        assert forall|c: u8| c < 8 implies #[trigger] byte_bit(a[i], c) == byte_bit(b[i], c) by {
            lemma_in_byte(i * 8 + c, i);
            assert(bit_at(a, i * 8 + c) == bit_at(b, i * 8 + c));
        }
        lemma_byte_ext(a[i], b[i]);
    }
    assert(a =~= b);
}

/// Writing the same value into a field twice leaves the buffer as one write
/// does.
pub proof fn lemma_set_idempotent(
    old: Seq<u8>,
    once: Seq<u8>,
    twice: Seq<u8>,
    offset: int,
    width: int,
    value: u64,
)
    requires
        written(old, once, offset, width, value),
        written(once, twice, offset, width, value),
    ensures
        twice == once,
{
    assert forall|p: int| 0 <= p < 8 * twice.len() implies #[trigger] bit_at(twice, p) == bit_at(
        once,
        p,
    ) by {
        assert(bit_at(once, p) == if offset <= p < offset + width {
            value_bit(value, (offset + width - 1 - p) as u64)
        } else {
            bit_at(old, p)
        });
    }
    lemma_buffer_ext(twice, once);
}

} // verus!
