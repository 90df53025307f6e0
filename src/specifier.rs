use vstd::prelude::*;
use vstd::arithmetic::power2::is_pow2;
use crate::error::BitfieldError;

verus! {

/// The widths a field value is stored in.
pub open spec fn is_storage_width(s: int) -> bool {
    s == 8 || s == 16 || s == 32 || s == 64
}

/// The smallest storage width that holds `width` bits.
pub open spec fn storage_width(width: int) -> int {
    if width <= 8 {
        8
    } else if width <= 16 {
        16
    } else if width <= 32 {
        32
    } else {
        64
    }
}

/// A bit width that a specifier can have.
pub open spec fn valid_width(width: int) -> bool {
    1 <= width <= 64
}

/// The storage width of a field of `size` bits.
pub fn get_upper_size_bound(size: u8) -> (r: u8)
    requires
        valid_width(size as int),
    ensures
        r as int == storage_width(size as int),
{
    if size <= 8 {
        8
    } else if size <= 16 {
        16
    } else if size <= 32 {
        32
    } else {
        64
    }
}

/// Looks up the storage width of a bit width, which must lie in 1..=64.
pub fn resolve(width: u8) -> (r: Result<u8, BitfieldError>)
    ensures
        valid_width(width as int) ==> r == Ok::<u8, BitfieldError>(storage_width(width as int) as u8),
        !valid_width(width as int) ==> r == Err::<u8, BitfieldError>(BitfieldError::InvalidWidth),
{
    if width == 0 || width > 64 {
        Err(BitfieldError::InvalidWidth)
    } else {
        Ok(get_upper_size_bound(width))
    }
}

/// The storage width of a valid bit width is the smallest of 8, 16, 32 and 64
/// that is at least that width.
pub proof fn lemma_storage_width_is_smallest(width: int)
    requires
        valid_width(width),
    ensures
        is_storage_width(storage_width(width)),
        width <= storage_width(width),
        forall|s: int| is_storage_width(s) && width <= s ==> storage_width(width) <= s,
{
}

/// Whether `v` is a power of two.
pub fn is_pow_of_2(v: usize) -> (r: bool)
    ensures
        r == is_pow2(v as int),
{
    if v == 0 {
        proof { reveal(is_pow2); }
        return false;
    }
    let mut c: usize = v;
    while c % 2 == 0
        invariant
            c > 0,
            is_pow2(v as int) == is_pow2(c as int),
        decreases c,
    {
        proof { reveal(is_pow2); }
        c = c / 2;
    }
    proof { reveal(is_pow2); }
    c == 1
}

} // verus!
