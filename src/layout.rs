use vstd::prelude::*;
use crate::error::BitfieldError;
use crate::specifier::{resolve, valid_width};

verus! {

/// A field as declared: its name and its width in bits.
#[derive(Debug, Clone)]
pub struct FieldDecl {
    pub name: String,
    pub width: u8,
}

/// A field placed in a layout: its name, the position of its first bit, and
/// its width in bits.
#[derive(Debug, Clone)]
pub struct FieldLayout {
    pub name: String,
    pub offset: usize,
    pub width: u8,
}

impl FieldLayout {
    /// The position just past the field's last bit.
    pub open spec fn end(&self) -> int {
        self.offset + self.width
    }
}

/// The fields of a struct placed one after another from bit 0, and the size
/// of the storage that holds them.
#[derive(Debug, Clone)]
pub struct Layout {
    pub fields: Vec<FieldLayout>,
    pub total_bits: usize,
    pub bytes: usize,
}

/// The number of bits taken by the first `n` declared fields.
pub open spec fn bits_before(decls: Seq<FieldDecl>, n: int) -> int
    decreases n,
{
    if n <= 0 {
        0
    } else {
        bits_before(decls, n - 1) + decls[n - 1].width
    }
}

/// Every declared width lies in 1..=64.
pub open spec fn widths_valid(decls: Seq<FieldDecl>) -> bool {
    forall|i: int| 0 <= i < decls.len() ==> valid_width(#[trigger] decls[i].width as int)
}

impl Layout {
    /// Every field has a valid width and lies inside the storage, which is a
    /// whole number of bytes.
    pub open spec fn well_formed(&self) -> bool {
        &&& self.bytes * 8 == self.total_bits
        &&& forall|i: int|
            0 <= i < self.fields@.len() ==> valid_width((#[trigger] self.fields@[i]).width as int)
                && self.fields@[i].end() <= self.total_bits
    }

    /// The layout places the declared fields in order, each right after the
    /// one before, and its storage is the total number of bits over 8.
    pub open spec fn describes(&self, decls: Seq<FieldDecl>) -> bool {
        &&& self.fields@.len() == decls.len()
        &&& forall|i: int|
            0 <= i < decls.len() ==> {
                &&& (#[trigger] self.fields@[i]).name@ == decls[i].name@
                &&& self.fields@[i].width == decls[i].width
                &&& self.fields@[i].offset == bits_before(decls, i)
            }
        &&& self.total_bits == bits_before(decls, decls.len() as int)
        &&& self.bytes == self.total_bits / 8
    }
}

proof fn lemma_bits_before_bound(decls: Seq<FieldDecl>, n: int)
    requires
        0 <= n <= decls.len(),
        forall|j: int| 0 <= j < n ==> valid_width(#[trigger] decls[j].width as int),
    ensures
        0 <= bits_before(decls, n) <= 64 * n,
    decreases n,
{
    if n > 0 {
        lemma_bits_before_bound(decls, n - 1);
    }
}

/// Places the declared fields from bit 0 in declaration order. A struct
/// without fields, a width outside 1..=64, and a total that is not a whole
/// number of bytes are refused, in that order.
pub fn compute_layout(decls: &Vec<FieldDecl>) -> (r: Result<Layout, BitfieldError>)
    requires
        decls@.len() * 64 <= usize::MAX,
    ensures
        decls@.len() == 0 ==> r == Err::<Layout, BitfieldError>(BitfieldError::EmptyStruct),
        decls@.len() > 0 && !widths_valid(decls@) ==> r == Err::<Layout, BitfieldError>(
            BitfieldError::InvalidWidth,
        ),
        decls@.len() > 0 && widths_valid(decls@) && bits_before(decls@, decls@.len() as int) % 8
            != 0 ==> r == Err::<Layout, BitfieldError>(
            BitfieldError::MisalignedSize(bits_before(decls@, decls@.len() as int) as usize),
        ),
        decls@.len() > 0 && widths_valid(decls@) && bits_before(decls@, decls@.len() as int) % 8
            == 0 ==> r is Ok && r->Ok_0.describes(decls@) && r->Ok_0.well_formed(),
{
    if decls.len() == 0 {
        return Err(BitfieldError::EmptyStruct);
    }
    let mut fields: Vec<FieldLayout> = Vec::new();
    let mut bits: usize = 0;
    let mut i: usize = 0;
    while i < decls.len()
        invariant
            0 <= i <= decls@.len(),
            decls@.len() * 64 <= usize::MAX,
            bits == bits_before(decls@, i as int),
            fields@.len() == i,
            forall|j: int| 0 <= j < i ==> valid_width(#[trigger] decls@[j].width as int),
            forall|j: int|
                0 <= j < i ==> {
                    &&& (#[trigger] fields@[j]).name@ == decls@[j].name@
                    &&& fields@[j].width == decls@[j].width
                    &&& fields@[j].offset == bits_before(decls@, j)
                },
        decreases decls@.len() - i,
    {
        let decl = &decls[i];
        match resolve(decl.width) {
            Err(e) => {
                return Err(e);
            },
            Ok(_) => {},
        }
        proof {
            lemma_bits_before_bound(decls@, i as int + 1);
        }
        fields.push(FieldLayout { name: decl.name.clone(), offset: bits, width: decl.width });
        bits = bits + decl.width as usize;
        i = i + 1;
    }
    if bits % 8 != 0 {
        return Err(BitfieldError::MisalignedSize(bits));
    }
    let layout = Layout { fields, total_bits: bits, bytes: bits / 8 };
    proof {
        assert forall|j: int| 0 <= j < layout.fields@.len() implies valid_width(
            (#[trigger] layout.fields@[j]).width as int,
        ) && layout.fields@[j].end() <= layout.total_bits by {
            assert(bits_before(decls@, j + 1) == layout.fields@[j].end());
            lemma_bits_before_monotone(decls@, j + 1, decls@.len() as int);
        }
    }
    Ok(layout)
}

proof fn lemma_bits_before_monotone(decls: Seq<FieldDecl>, m: int, n: int)
    requires
        0 <= m <= n <= decls.len(),
    ensures
        bits_before(decls, m) <= bits_before(decls, n),
    decreases n - m,
{
    if m < n {
        lemma_bits_before_monotone(decls, m, n - 1);
    }
}

/// A layout of a non-empty list of valid fields whose widths add up to whole
/// bytes starts at bit 0, places each field right after the one before (so
/// the offsets strictly increase), ends at the total number of bits, and
/// stores them in that total over 8 bytes.
pub proof fn lemma_layout_contiguous(decls: Seq<FieldDecl>, layout: Layout)
    requires
        decls.len() > 0,
        widths_valid(decls),
        bits_before(decls, decls.len() as int) % 8 == 0,
        layout.describes(decls),
    ensures
        layout.fields@[0].offset == 0,
        forall|i: int|
            0 <= i < decls.len() - 1 ==> {
                &&& (#[trigger] layout.fields@[i]).offset < layout.fields@[i + 1].offset
                &&& layout.fields@[i + 1].offset == layout.fields@[i].end()
            },
        layout.fields@.last().end() == layout.total_bits,
        layout.total_bits == bits_before(decls, decls.len() as int),
        layout.bytes * 8 == layout.total_bits,
{
    assert(layout.fields@[0].offset == bits_before(decls, 0));
    assert forall|i: int| 0 <= i < decls.len() - 1 implies {
        &&& (#[trigger] layout.fields@[i]).offset < layout.fields@[i + 1].offset
        &&& layout.fields@[i + 1].offset == layout.fields@[i].end()
    } by {
        assert(layout.fields@[i + 1].offset == bits_before(decls, i + 1));
        assert(valid_width(decls[i].width as int));
    }
    let n = decls.len() as int;
    assert(layout.fields@[n - 1].offset == bits_before(decls, n - 1));
}

} // verus!
