//! Clearing of owned buffers before their memory is released.

use vstd::prelude::*;
use zeroize::Zeroize;

verus! {

/// `zeroize::Zeroize::zeroize` for `Vec<u8>`: overwrites the elements and
/// empties the vector.  That the released memory was overwritten is not
/// visible in the value that remains.
#[verifier::external_body]
pub(crate) fn wipe_bytes(buffer: &mut Vec<u8>)
    ensures
        final(buffer)@.len() == 0,
    opens_invariants none
    no_unwind
{
    buffer.zeroize();
}

/// `zeroize::Zeroize::zeroize` for `Vec<u32>`: overwrites the elements and
/// empties the vector.  That the released memory was overwritten is not
/// visible in the value that remains.
#[verifier::external_body]
pub(crate) fn wipe_words(buffer: &mut Vec<u32>)
    ensures
        final(buffer)@.len() == 0,
    opens_invariants none
    no_unwind
{
    buffer.zeroize();
}

/// `zeroize::Zeroize::zeroize` for `Vec<u64>`: overwrites the elements and
/// empties the vector.  That the released memory was overwritten is not
/// visible in the value that remains.
#[verifier::external_body]
pub(crate) fn wipe_long_words(buffer: &mut Vec<u64>)
    ensures
        final(buffer)@.len() == 0,
    opens_invariants none
    no_unwind
{
    buffer.zeroize();
}

/// `zeroize::Zeroize::zeroize` for a slice of `u64`: every element becomes zero
/// and none is removed.
#[verifier::external_body]
pub(crate) fn blank_long_words(buffer: &mut Vec<u64>)
    ensures
        final(buffer)@ == Seq::new(old(buffer)@.len(), |i: int| 0u64),
    opens_invariants none
    no_unwind
{
    buffer.as_mut_slice().zeroize();
}

} // verus!
