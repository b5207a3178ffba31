//! Tombstone mask: a packed bit-set backed by the `bitvec` crate.
//!
//! The bit-vector is an outside structure whose declaration Verus refuses,
//! so it lives in an opaque wrapper struct, and the few operations the
//! storage needs are pinned down as trusted contracts over an abstract
//! sequence of booleans, `mask_bits`; everything built on top of them is
//! verified against those contracts.

use vstd::prelude::*;

verus! {

/// Packed bit-set of tombstones; bit `i` says that slot `i` is deleted or
/// was never populated.
#[verifier::external_body]
pub struct DeletedMask {
    bits: bitvec::vec::BitVec,
}

/// The bits held by a mask, in index order.
pub uninterp spec fn mask_bits(mask: DeletedMask) -> Seq<bool>;

/// Relies on `BitVec::new`: constructs an empty bit-vector.
#[verifier::external_body]
pub(crate) fn mask_new() -> (r: DeletedMask)
    ensures
        mask_bits(r) == Seq::<bool>::empty(),
{
    DeletedMask { bits: bitvec::vec::BitVec::new() }
}

/// Relies on `BitSlice::set` (through `BitVec`'s deref): writes one bit in
/// place; `set` panics only when the index is out of bounds.
#[verifier::external_body]
pub(crate) fn mask_set(mask: &mut DeletedMask, index: usize, value: bool)
    requires
        (index as int) < mask_bits(*old(mask)).len(),
    ensures
        mask_bits(*final(mask)) == mask_bits(*old(mask)).update(index as int, value),
{
    mask.bits.set(index, value);
}

/// Relies on `BitSlice`'s `Index` impl: reads one bit; indexing panics only
/// when the index is out of bounds.
#[verifier::external_body]
pub(crate) fn mask_get(mask: &DeletedMask, index: usize) -> (r: bool)
    requires
        (index as int) < mask_bits(*mask).len(),
    ensures
        r == mask_bits(*mask)[index as int],
{
    mask.bits[index]
}

/// Relies on `BitVec::push`: appends one bit; `push` panics only when the
/// length would pass the bit-vector's maximum, which on the 64-bit targets
/// this crate assumes is far above this bound (on a 32-bit target that
/// maximum sits below it, but such a mask cannot be reached there before
/// allocation fails).
#[verifier::external_body]
pub(crate) fn mask_push(mask: &mut DeletedMask, value: bool)
    requires
        mask_bits(*old(mask)).len() < u32::MAX,
    ensures
        mask_bits(*final(mask)) == mask_bits(*old(mask)).push(value),
{
    mask.bits.push(value);
}

/// Relies on `BitVec::resize`: like `Vec::resize`, truncates or extends with
/// the fill bit; `resize` panics only when the new length would pass the
/// bit-vector's maximum, far above this bound on the 64-bit targets this
/// crate assumes.
#[verifier::external_body]
pub(crate) fn mask_resize(mask: &mut DeletedMask, new_len: usize, value: bool)
    requires
        new_len <= u32::MAX,
    ensures
        mask_bits(*final(mask)).len() == new_len,
        forall|j: int|
            0 <= j < new_len && j < mask_bits(*old(mask)).len() ==> mask_bits(*final(mask))[j]
                == mask_bits(*old(mask))[j],
        forall|j: int|
            mask_bits(*old(mask)).len() <= j < new_len ==> mask_bits(*final(mask))[j] == value,
{
    mask.bits.resize(new_len, value);
}

} // verus!
