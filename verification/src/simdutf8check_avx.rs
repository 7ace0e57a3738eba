//! Free-function form of the 32-lane continuation-length validator,
//! under the C-style names of Daniel Lemire's simdutf8check routines,
//! together with the ASCII fast-path variants.

use vstd::prelude::*;

use crate::lemire::model::{all_ascii, car_at, chunk_err, nib, pc_thresh_err};
use crate::lemire::{ProcessedUtfBytes, State};
use crate::utf8::is_utf8_seq;

verus! {

/// The cross-chunk state threaded between calls of [`avxcheckUTF8Bytes`]:
/// the previous chunk's bytes, their high nibbles, and the carried
/// continuation obligations.
#[allow(non_camel_case_types)]
pub struct avx_processed_utf_bytes {
    pub rawbytes: Vec<u8>,
    pub high_nibbles: Vec<u8>,
    pub carried_continuations: Vec<u8>,
}

impl avx_processed_utf_bytes {
    /// All three lane vectors have width `w`, and the nibbles belong to
    /// the bytes.
    pub open spec fn wf(&self, w: int) -> bool {
        &&& self.rawbytes@.len() == w
        &&& self.high_nibbles@.len() == w
        &&& self.carried_continuations@.len() == w
        &&& forall|j: int| 0 <= j < w ==> self.high_nibbles@[j] as int == nib(self.rawbytes@[j])
    }
}

/// Check one 32-byte chunk: OR the four checks' error lanes into
/// `has_error` and return the state the next chunk must see.
#[allow(non_snake_case)]
pub fn avxcheckUTF8Bytes(
    current_bytes: &Vec<u8>,
    previous: &avx_processed_utf_bytes,
    has_error: &mut Vec<u8>,
) -> (r: avx_processed_utf_bytes)
    requires
        current_bytes@.len() == 32,
        previous.wf(32),
        old(has_error)@.len() == 32,
    ensures
        r.wf(32),
        r.rawbytes@ == current_bytes@,
        forall|j: int| 0 <= j < 32 ==> r.carried_continuations@[j] as int == car_at(
            previous.carried_continuations@,
            current_bytes@,
            32,
            j,
        ),
        final(has_error)@.len() == 32,
        (forall|j: int| 0 <= j < 32 ==> final(has_error)@[j] == 0) <==> ((forall|j: int|
            0 <= j < 32 ==> old(has_error)@[j] == 0) && !chunk_err(
            previous.rawbytes@,
            previous.carried_continuations@,
            current_bytes@,
            32,
            32,
        )),
{
    let mut st = State {
        previous: ProcessedUtfBytes {
            rawbytes: previous.rawbytes.clone(),
            high_nibbles: previous.high_nibbles.clone(),
            carried_continuations: previous.carried_continuations.clone(),
        },
        has_error: Vec::new(),
    };
    core::mem::swap(&mut st.has_error, has_error);
    st.check_bytes(current_bytes);
    core::mem::swap(&mut st.has_error, has_error);
    avx_processed_utf_bytes {
        rawbytes: st.previous.rawbytes,
        high_nibbles: st.previous.high_nibbles,
        carried_continuations: st.previous.carried_continuations,
    }
}

/// The fast-path chunk step: a wholly ASCII chunk only checks the
/// carried vector and hands back the previous state unchanged; any other
/// chunk takes the full pipeline.
#[allow(non_snake_case)]
pub fn avxcheckUTF8Bytes_asciipath(
    current_bytes: &Vec<u8>,
    previous: &avx_processed_utf_bytes,
    has_error: &mut Vec<u8>,
) -> (r: avx_processed_utf_bytes)
    requires
        current_bytes@.len() == 32,
        previous.wf(32),
        old(has_error)@.len() == 32,
    ensures
        r.wf(32),
        final(has_error)@.len() == 32,
        all_ascii(current_bytes@) ==> r.rawbytes@ == previous.rawbytes@
            && r.carried_continuations@ == previous.carried_continuations@ && ((forall|j: int|
            0 <= j < 32 ==> final(has_error)@[j] == 0) <==> ((forall|j: int|
            0 <= j < 32 ==> old(has_error)@[j] == 0) && !pc_thresh_err(
            previous.carried_continuations@,
            32,
        ))),
        !all_ascii(current_bytes@) ==> r.rawbytes@ == current_bytes@ && (forall|j: int|
            0 <= j < 32 ==> r.carried_continuations@[j] as int == car_at(
                previous.carried_continuations@,
                current_bytes@,
                32,
                j,
            )) && ((forall|j: int| 0 <= j < 32 ==> final(has_error)@[j] == 0) <==> ((forall|
            j: int,
        |
            0 <= j < 32 ==> old(has_error)@[j] == 0) && !chunk_err(
            previous.rawbytes@,
            previous.carried_continuations@,
            current_bytes@,
            32,
            32,
        ))),
{
    let mut st = State {
        previous: ProcessedUtfBytes {
            rawbytes: previous.rawbytes.clone(),
            high_nibbles: previous.high_nibbles.clone(),
            carried_continuations: previous.carried_continuations.clone(),
        },
        has_error: Vec::new(),
    };
    core::mem::swap(&mut st.has_error, has_error);
    st.check_bytes_ascii_path(current_bytes);
    core::mem::swap(&mut st.has_error, has_error);
    avx_processed_utf_bytes {
        rawbytes: st.previous.rawbytes,
        high_nibbles: st.previous.high_nibbles,
        carried_continuations: st.previous.carried_continuations,
    }
}

/// Returns whether `bytes` is well-formed UTF-8, checking thirty-two
/// bytes per step.
pub fn validate_utf8_fast_avx(bytes: &[u8]) -> (r: bool)
    ensures
        r == is_utf8_seq(bytes@),
{
    crate::lemire::is_utf8_at_width(bytes, 32)
}

/// The fast-path variant of [`validate_utf8_fast_avx`]: wholly ASCII
/// chunks skip the per-lane pipeline and only check that no continuation
/// bytes are still owed.
pub fn validate_utf8_fast_avx_asciipath(bytes: &[u8]) -> (r: bool)
    ensures
        r == is_utf8_seq(bytes@),
{
    crate::lemire::is_utf8_ascii_path_at_width(bytes, 32)
}

} // verus!
