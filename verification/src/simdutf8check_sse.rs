//! Free-function form of the 16-lane continuation-length validator,
//! under the C-style names of Daniel Lemire's simdutf8check routines.

use vstd::prelude::*;

use crate::lemire::model::{car_at, chunk_err, nib};
use crate::lemire::{ProcessedUtfBytes, State};
use crate::utf8::is_utf8_seq;

verus! {

/// The cross-chunk state threaded between calls of [`checkUTF8Bytes`]:
/// the previous chunk's bytes, their high nibbles, and the carried
/// continuation obligations.
#[allow(non_camel_case_types)]
pub struct processed_utf_bytes {
    pub rawbytes: Vec<u8>,
    pub high_nibbles: Vec<u8>,
    pub carried_continuations: Vec<u8>,
}

impl processed_utf_bytes {
    /// All three lane vectors have width `w`, and the nibbles belong to
    /// the bytes.
    pub open spec fn wf(&self, w: int) -> bool {
        &&& self.rawbytes@.len() == w
        &&& self.high_nibbles@.len() == w
        &&& self.carried_continuations@.len() == w
        &&& forall|j: int| 0 <= j < w ==> self.high_nibbles@[j] as int == nib(self.rawbytes@[j])
    }
}

/// Check one 16-byte chunk: OR the four checks' error lanes into
/// `has_error` and return the state the next chunk must see.
#[allow(non_snake_case)]
pub fn checkUTF8Bytes(
    current_bytes: &Vec<u8>,
    previous: &processed_utf_bytes,
    has_error: &mut Vec<u8>,
) -> (r: processed_utf_bytes)
    requires
        current_bytes@.len() == 16,
        previous.wf(16),
        old(has_error)@.len() == 16,
    ensures
        r.wf(16),
        r.rawbytes@ == current_bytes@,
        forall|j: int| 0 <= j < 16 ==> r.carried_continuations@[j] as int == car_at(
            previous.carried_continuations@,
            current_bytes@,
            16,
            j,
        ),
        final(has_error)@.len() == 16,
        (forall|j: int| 0 <= j < 16 ==> final(has_error)@[j] == 0) <==> ((forall|j: int|
            0 <= j < 16 ==> old(has_error)@[j] == 0) && !chunk_err(
            previous.rawbytes@,
            previous.carried_continuations@,
            current_bytes@,
            16,
            16,
        )),
{
    let mut st = State {
        previous: ProcessedUtfBytes {
            rawbytes: previous.rawbytes.clone(),
            high_nibbles: previous.high_nibbles.clone(),
            carried_continuations: previous.carried_continuations.clone(),
        },
        has_error: Vec::new(),
    };
    core::mem::swap(&mut st.has_error, has_error);
    st.check_bytes(current_bytes);
    core::mem::swap(&mut st.has_error, has_error);
    processed_utf_bytes {
        rawbytes: st.previous.rawbytes,
        high_nibbles: st.previous.high_nibbles,
        carried_continuations: st.previous.carried_continuations,
    }
}

/// Returns whether `bytes` is well-formed UTF-8, checking sixteen bytes
/// per step.
pub fn validate_utf8_fast(bytes: &[u8]) -> (r: bool)
    ensures
        r == is_utf8_seq(bytes@),
{
    crate::lemire::is_utf8_at_width(bytes, 16)
}

} // verus!
