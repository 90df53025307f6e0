use vstd::prelude::*;
use vstd::arithmetic::power2::{
    is_pow2, is_pow2_equiv, lemma2_to64, lemma2_to64_rest, lemma_pow2_strictly_increases,
    lemma_pow2_unfold, pow2,
};
use vstd::arithmetic::power::pow;
use crate::error::BitfieldError;
use crate::specifier::is_pow_of_2;

verus! {

/// An enum variant as declared: its name and its explicit discriminant, if
/// it has one.
#[derive(Debug, Clone)]
pub struct Variant {
    pub name: String,
    pub discriminant: Option<i128>,
}

/// The discriminant of variant `i`: its explicit one, else one more than
/// that of the variant before, else 0 for the first variant.
pub open spec fn resolved_discriminant(vs: Seq<Variant>, i: int) -> int
    decreases i,
{
    if i < 0 {
        0
    } else {
        match vs[i].discriminant {
            Some(d) => d as int,
            None => if i == 0 {
                0
            } else {
                resolved_discriminant(vs, i - 1) + 1
            },
        }
    }
}

/// The number of bits needed for `count` distinct values: the least `b`
/// with `count <= 2^b`.
pub open spec fn is_bit_size(count: int, b: nat) -> bool {
    &&& count <= pow2(b)
    &&& b == 0 || pow2((b - 1) as nat) < count
}

/// Whether the number of variants is a power of two.
pub fn enum_variants_pow_of_2(variants: &Vec<Variant>) -> (r: bool)
    ensures
        r == is_pow2(variants@.len() as int),
{
    is_pow_of_2(variants.len())
}

/// The number of bits needed to tell the variants apart; none for an enum
/// without variants.
pub fn enum_bit_size(variants: &Vec<Variant>) -> (r: Option<u8>)
    ensures
        variants@.len() == 0 ==> r is None,
        variants@.len() > 0 ==> r is Some && r->Some_0 <= 64 && is_bit_size(
            variants@.len() as int,
            r->Some_0 as nat,
        ),
{
    let count: usize = variants.len();
    if count == 0 {
        return None;
    }
    let mut p: u128 = 1;
    let mut bits: u8 = 0;
    proof {
        lemma2_to64();
    }
    while p < count as u128
        invariant
            p == pow2(bits as nat),
            bits <= 64,
            count >= 1,
            bits == 0 || pow2((bits - 1) as nat) < count,
        decreases 64 - bits,
    {
        proof {
            lemma_pow2_unfold((bits + 1) as nat);
            lemma2_to64_rest();
        }
        p = p * 2;
        bits = bits + 1;
    }
    Some(bits)
}

/// A power of two needs exactly its exponent in bits.
proof fn lemma_bit_size_of_pow2(count: int, b: nat)
    requires
        is_pow2(count),
        is_bit_size(count, b),
    ensures
        pow2(b) == count,
{
    reveal(is_pow2);
    is_pow2_equiv(count);
    let k = choose|k: nat| pow(2, k) == count;
    assert(pow2(k) == count);
    if k < b {
        if k < b - 1 {
            lemma_pow2_strictly_increases(k, (b - 1) as nat);
        }
    } else if k > b {
        lemma_pow2_strictly_increases(b, k);
    }
}

/// Checks an enum used as a specifier and gives its bit width. An enum
/// without variants, a number of variants that is not a power of two, and
/// the first variant whose discriminant does not fit the bit width are
/// refused, in that order.
pub fn validate_enum(variants: &Vec<Variant>) -> (r: Result<u8, BitfieldError>)
    ensures
        variants@.len() == 0 ==> r == Err::<u8, BitfieldError>(BitfieldError::InvalidBitWidth),
        variants@.len() > 0 && !is_pow2(variants@.len() as int) ==> r == Err::<u8, BitfieldError>(
            BitfieldError::NotPowerOfTwo(variants@.len() as usize),
        ),
        variants@.len() > 0 && is_pow2(variants@.len() as int) ==> {
            let n = variants@.len() as int;
            match r {
                Ok(bits) => pow2(bits as nat) == n && forall|i: int|
                    0 <= i < n ==> 0 <= #[trigger] resolved_discriminant(variants@, i) < pow2(
                        bits as nat,
                    ),
                Err(BitfieldError::DiscriminantOutOfRange(i, d)) => {
                    &&& i < n
                    &&& d == resolved_discriminant(variants@, i as int)
                    &&& !(0 <= d < n)
                    &&& forall|j: int|
                        0 <= j < i ==> 0 <= #[trigger] resolved_discriminant(variants@, j) < n
                },
                Err(_) => false,
            }
        },
{
    let count: usize = variants.len();
    if count == 0 {
        return Err(BitfieldError::InvalidBitWidth);
    }
    if !is_pow_of_2(count) {
        return Err(BitfieldError::NotPowerOfTwo(count));
    }
    let bits: u8 = match enum_bit_size(variants) {
        Some(b) => b,
        None => {
            return Err(BitfieldError::InvalidBitWidth);
        },
    };
    if bits > 64 {
        return Err(BitfieldError::InvalidBitWidth);
    }
    proof {
        lemma_bit_size_of_pow2(count as int, bits as nat);
    }
    let mut prev: i128 = 0;
    let mut i: usize = 0;
    while i < count
        invariant
            count == variants@.len(),
            is_pow2(count as int),
            0 <= i <= count,
            pow2(bits as nat) == count,
            i > 0 ==> prev == resolved_discriminant(variants@, i - 1),
            forall|j: int| 0 <= j < i ==> 0 <= #[trigger] resolved_discriminant(variants@, j) < count,
        decreases count - i,
    {
        let d: i128 = match variants[i].discriminant {
            Some(x) => x,
            None => if i == 0 {
                0
            } else {
                prev + 1
            },
        };
        if d < 0 || d >= count as i128 {
            return Err(BitfieldError::DiscriminantOutOfRange(i, d));
        }
        prev = d;
        i = i + 1;
    }
    Ok(bits)
}

} // verus!
