use vstd::prelude::*;
use crate::access::{field_bits, get, written};
use crate::layout::Layout;

verus! {

/// A packed storage block: the bytes that hold the fields of a layout.
#[derive(Debug, Clone)]
pub struct Bitfield {
    pub layout: Layout,
    pub data: Vec<u8>,
}

impl Bitfield {
    /// The layout is well formed and the storage has its size.
    pub open spec fn well_formed(&self) -> bool {
        &&& self.layout.well_formed()
        &&& self.data@.len() == self.layout.bytes
    }

    /// A block for the layout, with every byte zero.
    pub fn new(layout: Layout) -> (r: Bitfield)
        requires
            layout.well_formed(),
        ensures
            r.well_formed(),
            r.layout == layout,
            r.data@ == Seq::new(layout.bytes as nat, |i: int| 0u8),
    {
        let mut data: Vec<u8> = Vec::new();
        let mut i: usize = 0;
        while i < layout.bytes
            invariant
                i <= layout.bytes,
                data@ == Seq::new(i as nat, |j: int| 0u8),
            decreases layout.bytes - i,
        {
            data.push(0u8);
            i = i + 1;
            proof {
                assert(data@ =~= Seq::new(i as nat, |j: int| 0u8));
            }
        }
        Bitfield { layout, data }
    }

    /// The value of field `i`.
    pub fn get_field(&self, i: usize) -> (r: u64)
        requires
            self.well_formed(),
            i < self.layout.fields@.len(),
        ensures
            r == field_bits(
                self.data@,
                self.layout.fields@[i as int].offset as int,
                self.layout.fields@[i as int].width as nat,
            ),
    {
        let f = &self.layout.fields[i];
        get(f, &self.data)
    }

    /// Writes the low bits of `value` into field `i`; the other fields keep
    /// their values. Returns the block, so that writes can be chained.
    pub fn set_field(&mut self, i: usize, value: u64) -> (r: &mut Bitfield)
        requires
            old(self).well_formed(),
            i < old(self).layout.fields@.len(),
        ensures
            r.well_formed(),
            r.layout == old(self).layout,
            written(
                old(self).data@,
                r.data@,
                old(self).layout.fields@[i as int].offset as int,
                old(self).layout.fields@[i as int].width as int,
                value,
            ),
            *final(self) == *final(r),
    {
        let f = &self.layout.fields[i];
        assert(self.layout.fields@[i as int].end() <= self.layout.total_bits);
        crate::access::set(f, &mut self.data, value);
        self
    }
}

} // verus!
