//! The 16-lane instantiation of the range-table validator, matching the
//! width of the 128-bit vector registers it was designed for.

use vstd::prelude::*;

use crate::utf8::is_utf8_seq;

verus! {

/// Returns whether `bytes` is well-formed UTF-8, checking sixteen bytes
/// per step.
pub fn is_utf8(bytes: &[u8]) -> (r: bool)
    ensures
        r == is_utf8_seq(bytes@),
{
    crate::range::is_utf8_at_width(bytes, 16)
}

} // verus!
