//! Small helpers: fixed-array concatenation and sign extension.

use vstd::prelude::*;

verus! {

/// Mask keeping the low `index` bits: values whose meaningful content
/// occupies bits `[0, index)` are exactly those unchanged by it.
pub open spec fn low_mask(index: u64) -> u64
    recommends
        1 <= index < 64,
{
    ((1u64 << index) - 1) as u64
}

/// Mask of all bits at positions `index` and above.
pub open spec fn high_mask(index: u64) -> u64
    recommends
        1 <= index < 64,
{
    (((1u64 << ((64 - index) as u64)) - 1) as u64) << index
}

/// Whether bit `index - 1` of `data` is set: the sign bit of a value whose
/// meaningful content occupies bits `[0, index)`.
pub open spec fn sign_bit_set(data: u64, index: u64) -> bool
    recommends
        1 <= index < 64,
{
    (data >> ((index - 1) as u64)) & 1u64 == 1u64
}

/// Mathematical meaning of sign extension: the low `index` bits of `data`
/// kept as they are, every bit from `index` upward filled with the value of
/// bit `index - 1`.
pub open spec fn sign_extend_spec(data: u64, index: u64) -> u64
    recommends
        1 <= index < 64,
{
    if sign_bit_set(data, index) {
        (data & low_mask(index)) | high_mask(index)
    } else {
        data & low_mask(index)
    }
}

/// Sign-extend the value held in bits `[0, index)` of `data` to the full
/// 64-bit width: the low bits are kept, and every bit from `index` upward is
/// set to the value of bit `index - 1`.
pub fn sign_extend(data: u64, index: u64) -> (r: u64)
    requires
        1 <= index < 64,
    ensures
        r == sign_extend_spec(data, index),
{
    proof {
        assert(1u64 << index >= 1 && 1u64 << ((64 - index) as u64) >= 1) by (bit_vector)
            requires
                1 <= index < 64,
        ;
    }
    let is_signed = (data >> (index - 1)) & 1 == 1;
    let signed = ((1u64 << (64 - index)) - 1) << index;
    let mask = (1u64 << index) - 1;
    if is_signed {
        (data & mask) | signed
    } else {
        data & mask
    }
}

/// Concatenate two 32-byte digests into one 64-byte block, left then right.
pub fn concat_fixed(a: [u8; 32], b: [u8; 32]) -> (r: [u8; 64])
    ensures
        r@ == a@ + b@,
{
    let mut r = [0u8; 64];
    let mut i: usize = 0;
    while i < 32
        invariant
            i <= 32,
            forall|j: int| 0 <= j < i ==> r@[j] == a@[j],
        decreases 32 - i,
    {
        r[i] = a[i];
        i = i + 1;
    }
    let mut k: usize = 0;
    while k < 32
        invariant
            k <= 32,
            forall|j: int| 0 <= j < 32 ==> r@[j] == a@[j],
            forall|j: int| 0 <= j < k ==> r@[32 + j] == b@[j],
        decreases 32 - k,
    {
        r[32 + k] = b[k];
        k = k + 1;
    }
    assert(r@ =~= a@ + b@);
    r
}

} // verus!
