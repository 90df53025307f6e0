use vstd::prelude::*;
use crate::error::BitfieldError;

verus! {

/// The part of a field's bit range that lies in one byte of the buffer.
///
/// `index` is the byte, `start` the first bit within it counted from the
/// most-significant bit, and `len` the number of bits.
#[derive(Debug, Clone, Copy, PartialEq, Eq, Structural)]
pub struct Byte {
    pub start: usize,
    pub len: usize,
    pub index: usize,
}

impl Byte {
    /// The position in the buffer of the segment's first bit.
    pub open spec fn first_bit(&self) -> int {
        self.index * 8 + self.start
    }

    /// The position in the buffer just past the segment's last bit.
    pub open spec fn end_bit(&self) -> int {
        self.first_bit() + self.len
    }

    /// A non-empty run of bits inside one byte.
    pub open spec fn well_formed(&self) -> bool {
        &&& self.start < 8
        &&& 1 <= self.len
        &&& self.start + self.len <= 8
    }
}

/// `s` covers the bits `[from, to)` in order, one segment per byte: every
/// segment but the last runs to the end of its byte, and every segment but
/// the first starts at the beginning of the next byte.
pub open spec fn segments_cover(s: Seq<Byte>, from: int, to: int) -> bool {
    &&& s.len() == 0 ==> from == to
    &&& s.len() > 0 ==> s[0].first_bit() == from && s.last().end_bit() == to
    &&& forall|k: int| 0 <= k < s.len() ==> (#[trigger] s[k]).well_formed()
    &&& forall|k: int|
        0 <= k < s.len() - 1 ==> {
            &&& (#[trigger] s[k]).start + s[k].len == 8
            &&& s[k + 1].start == 0
            &&& s[k + 1].index == s[k].index + 1
        }
}

/// `s` is the segmentation of the field of `length` bits at bit `offset`.
pub open spec fn is_segmentation(s: Seq<Byte>, offset: int, length: int) -> bool {
    &&& length >= 1
    &&& s.len() >= 1
    &&& segments_cover(s, offset, offset + length)
}

/// Splits the field of `bits` bits that starts at bit `prev` into the
/// segments of the bytes it touches, in order of increasing byte index.
pub fn field_bytes(prev: usize, bits: usize) -> (r: Vec<Byte>)
    requires
        bits >= 1,
        prev + bits <= usize::MAX,
    ensures
        is_segmentation(r@, prev as int, bits as int),
{
    let mut bytes: Vec<Byte> = Vec::new();
    let end: usize = prev + bits;
    let mut pos: usize = prev;
    while pos < end
        invariant
            prev <= pos <= end,
            end == prev + bits,
            segments_cover(bytes@, prev as int, pos as int),
            bytes@.len() > 0 && pos < end ==> bytes@.last().start + bytes@.last().len == 8,
        decreases end - pos,
    {
        let index: usize = pos / 8;
        let start: usize = pos % 8;
        let room: usize = 8 - start;
        let len: usize = if end - pos < room {
            end - pos
        } else {
            room
        };
        let ghost old_bytes = bytes@;
        bytes.push(Byte { start, len, index });
        proof {
            if old_bytes.len() > 0 {
                let last = old_bytes.last();
                assert(pos == last.index * 8 + 8);
                assert(index == last.index + 1);
                assert(start == 0);
            }
            assert forall|k: int| 0 <= k < bytes@.len() - 1 implies {
                &&& (#[trigger] bytes@[k]).start + bytes@[k].len == 8
                &&& bytes@[k + 1].start == 0
                &&& bytes@[k + 1].index == bytes@[k].index + 1
            } by {
                if k < old_bytes.len() - 1 {
                    assert(bytes@[k] == old_bytes[k]);
                    assert(bytes@[k + 1] == old_bytes[k + 1]);
                }
            }
        }
        pos = pos + len;
    }
    bytes
}

/// The segments of the field of `length` bits at bit `offset`; a field of no
/// bits is refused.
pub fn resolve_segments(offset: usize, length: usize) -> (r: Result<Vec<Byte>, BitfieldError>)
    requires
        offset + length <= usize::MAX,
    ensures
        length == 0 ==> r == Err::<Vec<Byte>, BitfieldError>(BitfieldError::ZeroWidthField),
        length > 0 ==> r is Ok && is_segmentation(r->Ok_0@, offset as int, length as int),
{
    if length == 0 {
        Err(BitfieldError::ZeroWidthField)
    } else {
        Ok(field_bytes(offset, length))
    }
}

/// Bit `p` lies in one of the segments.
pub open spec fn bit_covered(s: Seq<Byte>, p: int) -> bool {
    exists|k: int| 0 <= k < s.len() && (#[trigger] s[k]).first_bit() <= p < s[k].end_bit()
}

proof fn lemma_first_from(s: Seq<Byte>, from: int, to: int, k: int)
    requires
        s.len() >= 1,
        segments_cover(s, from, to),
        0 <= k < s.len(),
    ensures
        from <= s[k].first_bit(),
    decreases k,
{
    if k > 0 {
        lemma_first_from(s, from, to, k - 1);
        assert(s[k - 1].well_formed());
    }
}

proof fn lemma_end_to(s: Seq<Byte>, from: int, to: int, k: int)
    requires
        s.len() >= 1,
        segments_cover(s, from, to),
        0 <= k < s.len(),
    ensures
        s[k].end_bit() <= to,
    decreases s.len() - k,
{
    if k < s.len() - 1 {
        lemma_end_to(s, from, to, k + 1);
        assert(s[k + 1].well_formed());
        assert(s[k].start + s[k].len == 8);
    }
}

proof fn lemma_ordered(s: Seq<Byte>, from: int, to: int, k1: int, k2: int)
    requires
        segments_cover(s, from, to),
        0 <= k1 < k2 < s.len(),
    ensures
        s[k1].end_bit() <= s[k2].first_bit(),
    decreases k2 - k1,
{
    if k2 > k1 + 1 {
        lemma_ordered(s, from, to, k1, k2 - 1);
        assert(s[k2 - 1].well_formed());
    }
}

proof fn lemma_locate(s: Seq<Byte>, from: int, to: int, p: int, k: int)
    requires
        s.len() >= 1,
        segments_cover(s, from, to),
        0 <= k < s.len(),
        s[k].first_bit() <= p < to,
    ensures
        bit_covered(s, p),
    decreases s.len() - k,
{
    if p < s[k].end_bit() {
        assert(s[k].first_bit() <= p < s[k].end_bit());
    } else {
        lemma_locate(s, from, to, p, k + 1);
    }
}

/// The segments of a field partition its bit range: they lie inside it in
/// order, one right after the other and without overlap, each inside a
/// single byte, and every bit of the range falls in one of them.
pub proof fn lemma_segments_partition(s: Seq<Byte>, offset: int, length: int)
    requires
        is_segmentation(s, offset, length),
    ensures
        forall|k: int|
            0 <= k < s.len() ==> offset <= (#[trigger] s[k]).first_bit() && s[k].end_bit()
                <= offset + length,
        forall|k: int|
            0 <= k < s.len() ==> (#[trigger] s[k]).index * 8 <= s[k].first_bit() && s[k].end_bit()
                <= s[k].index * 8 + 8,
        forall|k: int| 0 <= k < s.len() - 1 ==> (#[trigger] s[k]).end_bit() == s[k + 1].first_bit(),
        forall|k1: int, k2: int|
            0 <= k1 < k2 < s.len() ==> (#[trigger] s[k1]).end_bit() <= (#[trigger] s[k2]).first_bit(),
        forall|p: int| offset <= p < offset + length ==> #[trigger] bit_covered(s, p),
{
    let to = offset + length;
    assert forall|k: int| 0 <= k < s.len() - 1 implies (#[trigger] s[k]).end_bit() == s[k
        + 1].first_bit() by {}
    assert forall|k: int| 0 <= k < s.len() implies offset <= (#[trigger] s[k]).first_bit()
        && s[k].end_bit() <= to by {
        lemma_first_from(s, offset, to, k);
        lemma_end_to(s, offset, to, k);
    }
    assert forall|k1: int, k2: int| 0 <= k1 < k2 < s.len() implies (#[trigger] s[k1]).end_bit()
        <= (#[trigger] s[k2]).first_bit() by {
        lemma_ordered(s, offset, to, k1, k2);
    }
    assert forall|p: int| offset <= p < to implies #[trigger] bit_covered(s, p) by {
        lemma_locate(s, offset, to, p, 0);
    }
}

} // verus!
