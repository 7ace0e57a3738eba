//! The 32-lane instantiation of the continuation-length validator,
//! matching the width of the 256-bit vector registers it was designed
//! for, together with its ASCII fast-path variant.

use vstd::prelude::*;

use crate::utf8::is_utf8_seq;

verus! {

/// Returns whether `bytes` is well-formed UTF-8, checking thirty-two
/// bytes per step.
pub fn is_utf8(bytes: &[u8]) -> (r: bool)
    ensures
        r == is_utf8_seq(bytes@),
{
    crate::lemire::is_utf8_at_width(bytes, 32)
}

/// The variant with a fast path for wholly ASCII chunks: such a chunk
/// skips the per-lane pipeline and only checks that the previous chunk
/// left no continuation bytes owed.
pub fn is_utf8_ascii_path(bytes: &[u8]) -> (r: bool)
    ensures
        r == is_utf8_seq(bytes@),
{
    crate::lemire::is_utf8_ascii_path_at_width(bytes, 32)
}

} // verus!
