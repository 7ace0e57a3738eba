//! Daniel Lemire's continuation-length UTF-8 validation algorithm,
//! expressed over a generic lane width.
//!
//! Each chunk of `w` bytes is classified by high nibble into announced
//! sequence lengths, the outstanding continuation obligation is carried
//! across the chunk boundary by two shifted saturating passes, and four
//! independent checks (range ceiling, continuation accounting, the ED/F4
//! follower maxima, and the two-table overlong exclusion) are OR-ed into a
//! lane-wide error accumulator.  The 16-lane and 32-lane entry points in
//! [`sse`] and [`avx`] instantiate the same verified core.

pub mod asc_proofs;
pub mod model;
pub mod proofs;

pub mod avx;
pub mod sse;

use vstd::prelude::*;

use crate::lemire::model::{
    car_at, chunk_of, chunk_err, clen, clen_of_nib, e_big, e_cont, e_max, e_overlong, end_err,
    errs_upto, lane_err, lemire_result, nib, pc_after, praw_after, prev_byte_at, sgn, ssub,
    sum_at, wrap8, zeros,
};
use crate::utf8::is_utf8_seq;

verus! {

/// An OR of two bytes is zero exactly when both are.
proof fn lemma_or_zero(x: u8, y: u8)
    ensures
        (x | y) == 0 <==> (x == 0 && y == 0),
{
    assert((x | y) == 0 <==> (x == 0 && y == 0)) by (bit_vector);
}

/// A byte's high nibble, by shift and mask.
pub(crate) fn high_nibble(b: u8) -> (r: u8)
    ensures
        r as int == nib(b),
        r < 16,
{
    proof {
        assert(((b >> 4) & 0xF) as int == b as int / 16 && ((b >> 4) & 0xF) < 16)
            by (bit_vector);
    }
    (b >> 4) & 0xF
}

/// Unsigned saturating subtraction of one byte.
pub(crate) fn saturating_sub(a: u8, b: u8) -> (r: u8)
    ensures
        r as int == ssub(a as int, b as int),
{
    if a >= b {
        a - b
    } else {
        0
    }
}

/// Wrapping byte addition.
pub(crate) fn wrapping_add(a: u8, b: u8) -> (r: u8)
    ensures
        r as int == wrap8(a as int + b as int),
{
    let s: u16 = a as u16 + b as u16;
    proof {
        assert(s < 512);
        vstd::arithmetic::div_mod::lemma_mod_bound(a as int + b as int, 256);
    }
    (s % 256) as u8
}

/// Comparison of two bytes read as signed bytes, as `cmpgt` does.
pub(crate) fn signed_gt(a: u8, b: u8) -> (r: bool)
    ensures
        r == (sgn(a as int) > sgn(b as int)),
{
    let sa: i16 = if a >= 128 {
        a as i16 - 256
    } else {
        a as i16
    };
    let sb: i16 = if b >= 128 {
        b as i16 - 256
    } else {
        b as i16
    };
    sa > sb
}

/// The lane vector holding the last byte of `a` followed by all but the
/// last byte of `b` (the one-lane cross-chunk shift).
fn push_last_byte_of_a_to_b(a: &Vec<u8>, b: &Vec<u8>) -> (r: Vec<u8>)
    requires
        a@.len() == b@.len(),
        a@.len() >= 2,
    ensures
        r@.len() == b@.len(),
        r@[0] == a@[a@.len() - 1],
        forall|j: int| 1 <= j < r@.len() ==> r@[j] == b@[j - 1],
{
    let w = b.len();
    let mut r: Vec<u8> = Vec::new();
    r.push(a[w - 1]);
    let mut j: usize = 1;
    while j < w
        invariant
            1 <= j <= w,
            w == a@.len() == b@.len(),
            r@.len() == j,
            r@[0] == a@[w - 1],
            forall|k: int| 1 <= k < j ==> r@[k] == b@[k - 1],
        decreases w - j,
    {
        r.push(b[j - 1]);
        j = j + 1;
    }
    r
}

/// The lane vector holding the last two bytes of `a` followed by all but
/// the last two bytes of `b` (the two-lane cross-chunk shift).
fn push_last_2bytes_of_a_to_b(a: &Vec<u8>, b: &Vec<u8>) -> (r: Vec<u8>)
    requires
        a@.len() == b@.len(),
        a@.len() >= 3,
    ensures
        r@.len() == b@.len(),
        r@[0] == a@[a@.len() - 2],
        r@[1] == a@[a@.len() - 1],
        forall|j: int| 2 <= j < r@.len() ==> r@[j] == b@[j - 2],
{
    let w = b.len();
    let mut r: Vec<u8> = Vec::new();
    r.push(a[w - 2]);
    r.push(a[w - 1]);
    let mut j: usize = 2;
    while j < w
        invariant
            2 <= j <= w,
            w == a@.len() == b@.len(),
            r@.len() == j,
            r@[0] == a@[w - 2],
            r@[1] == a@[w - 1],
            forall|k: int| 2 <= k < j ==> r@[k] == b@[k - 2],
        decreases w - j,
    {
        r.push(b[j - 2]);
        j = j + 1;
    }
    r
}

/// The 16-entry length table, read off a byte's high nibble: total
/// sequence length 1 for ASCII nibbles, 0 for continuations, then 2, 2,
/// 3, 4 for the lead nibbles C through F.
fn continuation_lengths(high_nibbles: &Vec<u8>) -> (r: Vec<u8>)
    requires
        forall|j: int| 0 <= j < high_nibbles@.len() ==> high_nibbles@[j] < 16,
    ensures
        r@.len() == high_nibbles@.len(),
        forall|j: int| 0 <= j < r@.len() ==> r@[j] as int == clen_of_nib(
            high_nibbles@[j] as int,
        ),
{
    let w = high_nibbles.len();
    let mut r: Vec<u8> = Vec::new();
    let mut j: usize = 0;
    while j < w
        invariant
            0 <= j <= w,
            w == high_nibbles@.len(),
            forall|k: int| 0 <= k < w ==> high_nibbles@[k] < 16,
            r@.len() == j,
            forall|k: int| 0 <= k < j ==> r@[k] as int == clen_of_nib(high_nibbles@[k] as int),
        decreases w - j,
    {
        let h = high_nibbles[j];
        let v: u8 = if h < 8 {
            1
        } else if h < 12 {
            0
        } else if h < 14 {
            2
        } else if h == 14 {
            3
        } else {
            4
        };
        r.push(v);
        j = j + 1;
    }
    r
}

/// The carried-continuation pass: shift the obligations right by one and
/// two lanes across the chunk boundary, taper them by one and two, and
/// add them back in.
fn carry_continuations(initial_lengths: &Vec<u8>, previous_carries: &Vec<u8>) -> (r: Vec<u8>)
    requires
        initial_lengths@.len() == previous_carries@.len(),
        initial_lengths@.len() >= 4,
    ensures
        r@.len() == initial_lengths@.len(),
        forall|j: int| 0 <= j < r@.len() ==> r@[j] as int == wrap8(
            wrap8(
                initial_lengths@[j] + ssub(
                    if j == 0 {
                        previous_carries@[r@.len() - 1] as int
                    } else {
                        initial_lengths@[j - 1] as int
                    },
                    1,
                ),
            ) + ssub(
                if j == 0 {
                    previous_carries@[r@.len() - 2] as int
                } else if j == 1 {
                    previous_carries@[r@.len() - 1] as int
                } else {
                    wrap8(
                        initial_lengths@[j - 2] + ssub(
                            if j == 2 {
                                previous_carries@[r@.len() - 1] as int
                            } else {
                                initial_lengths@[j - 3] as int
                            },
                            1,
                        ),
                    )
                },
                2,
            ),
        ),
{
    let w = initial_lengths.len();
    let shifted1 = push_last_byte_of_a_to_b(previous_carries, initial_lengths);
    let mut sum: Vec<u8> = Vec::new();
    let mut j: usize = 0;
    while j < w
        invariant
            0 <= j <= w,
            w == initial_lengths@.len() == shifted1@.len(),
            w >= 4,
            sum@.len() == j,
            forall|k: int| 0 <= k < j ==> sum@[k] as int == wrap8(
                initial_lengths@[k] + ssub(shifted1@[k] as int, 1),
            ),
        decreases w - j,
    {
        let r1 = saturating_sub(shifted1[j], 1);
        sum.push(wrapping_add(initial_lengths[j], r1));
        j = j + 1;
    }
    let shifted2 = push_last_2bytes_of_a_to_b(previous_carries, &sum);
    let mut carries: Vec<u8> = Vec::new();
    let mut j2: usize = 0;
    while j2 < w
        invariant
            0 <= j2 <= w,
            w == initial_lengths@.len() == shifted1@.len() == sum@.len() == shifted2@.len(),
            w >= 4,
            shifted1@[0] == previous_carries@[w - 1],
            forall|k: int| 1 <= k < w ==> shifted1@[k] == initial_lengths@[k - 1],
            shifted2@[0] == previous_carries@[w - 2],
            shifted2@[1] == previous_carries@[w - 1],
            forall|k: int| 2 <= k < w ==> shifted2@[k] == sum@[k - 2],
            forall|k: int| 0 <= k < w ==> sum@[k] as int == wrap8(
                initial_lengths@[k] + ssub(shifted1@[k] as int, 1),
            ),
            carries@.len() == j2,
            forall|k: int| 0 <= k < j2 ==> carries@[k] as int == wrap8(
                sum@[k] + ssub(shifted2@[k] as int, 2),
            ),
        decreases w - j2,
    {
        let r2 = saturating_sub(shifted2[j2], 2);
        carries.push(wrapping_add(sum[j2], r2));
        j2 = j2 + 1;
    }
    carries
}

/// The cross-chunk state of the algorithm: the previous chunk's bytes,
/// their high nibbles, and the carried continuation obligations.
pub struct ProcessedUtfBytes {
    pub rawbytes: Vec<u8>,
    pub high_nibbles: Vec<u8>,
    pub carried_continuations: Vec<u8>,
}

impl ProcessedUtfBytes {
    /// All three lane vectors have width `w`.
    pub open spec fn wf(&self, w: int) -> bool {
        self.rawbytes@.len() == w && self.high_nibbles@.len() == w
            && self.carried_continuations@.len() == w
    }

    /// The neutral state before the first chunk: all lanes zero.
    pub fn new(w: usize) -> (r: ProcessedUtfBytes)
        ensures
            r.wf(w as int),
            r.rawbytes@ =~= zeros(w as int),
            r.high_nibbles@ =~= zeros(w as int),
            r.carried_continuations@ =~= zeros(w as int),
    {
        let mut v: Vec<u8> = Vec::new();
        let mut j: usize = 0;
        while j < w
            invariant
                v@.len() == j,
                0 <= j <= w,
                forall|k: int| 0 <= k < j ==> v@[k] == 0,
            decreases w - j,
        {
            v.push(0);
            j = j + 1;
        }
        let r = ProcessedUtfBytes {
            rawbytes: v.clone(),
            high_nibbles: v.clone(),
            carried_continuations: v,
        };
        r
    }

    /// Record a chunk's bytes and their high nibbles.
    pub fn count_nibbles(&mut self, bytes: &Vec<u8>)
        ensures
            final(self).rawbytes@ == bytes@,
            final(self).high_nibbles@.len() == bytes@.len(),
            forall|j: int| 0 <= j < bytes@.len() ==> final(self).high_nibbles@[j] as int == nib(
                bytes@[j],
            ) && final(self).high_nibbles@[j] < 16,
            final(self).carried_continuations == old(self).carried_continuations,
    {
        self.rawbytes = bytes.clone();
        let mut nibs: Vec<u8> = Vec::new();
        let mut j: usize = 0;
        let w = bytes.len();
        while j < w
            invariant
                0 <= j <= w,
                w == bytes@.len(),
                nibs@.len() == j,
                forall|k: int| 0 <= k < j ==> nibs@[k] as int == nib(bytes@[k]) && nibs@[k]
                    < 16,
            decreases w - j,
        {
            nibs.push(high_nibble(bytes[j]));
            j = j + 1;
        }
        self.high_nibbles = nibs;
    }
}

/// The running state of the validator: the previous chunk's processed
/// form and the OR-accumulated error lanes.
pub struct State {
    pub previous: ProcessedUtfBytes,
    pub has_error: Vec<u8>,
}

impl State {
    /// The lane width this state was built for.
    pub open spec fn width(&self) -> int {
        self.has_error@.len() as int
    }

    /// The state's vectors all have the same width, at least four lanes,
    /// and the remembered nibbles belong to the remembered bytes.
    pub open spec fn wf(&self) -> bool {
        &&& self.previous.wf(self.width())
        &&& self.width() >= 4
        &&& forall|j: int| 0 <= j < self.width() ==> self.previous.high_nibbles@[j] as int
            == nib(self.previous.rawbytes@[j])
    }

    /// No error lane has been set.
    pub open spec fn error_free(&self) -> bool {
        forall|j: int| 0 <= j < self.width() ==> self.has_error@[j] == 0
    }

    /// The starting state: neutral carry, no errors.
    pub fn new(w: usize) -> (r: State)
        requires
            w >= 4,
        ensures
            r.wf(),
            r.width() == w,
            r.previous.rawbytes@ =~= zeros(w as int),
            r.previous.high_nibbles@ =~= zeros(w as int),
            r.previous.carried_continuations@ =~= zeros(w as int),
            r.error_free(),
    {
        let previous = ProcessedUtfBytes::new(w);
        let mut v: Vec<u8> = Vec::new();
        let mut j: usize = 0;
        while j < w
            invariant
                v@.len() == j,
                0 <= j <= w,
                forall|k: int| 0 <= k < j ==> v@[k] == 0,
            decreases w - j,
        {
            v.push(0);
            j = j + 1;
        }
        State { previous, has_error: v }
    }

    /// All byte values must be no larger than F4: OR in the saturated
    /// excess of each lane.
    fn check_smaller_than_0xf4(&mut self, current_bytes: &Vec<u8>)
        requires
            old(self).wf(),
            current_bytes@.len() == old(self).width(),
        ensures
            final(self).wf(),
            final(self).width() == old(self).width(),
            final(self).previous == old(self).previous,
            final(self).error_free() <==> (old(self).error_free() && !(exists|j: int|
                0 <= j < current_bytes@.len() && e_big(current_bytes@, j))),
    {
        let w = current_bytes.len();
        let mut j: usize = 0;
        while j < w
            invariant
                0 <= j <= w,
                self.wf(),
                self.width() == w,
                old(self).wf(),
                old(self).width() == w,
                old(self).previous == self.previous,
                w == current_bytes@.len(),
                self.previous == old(self).previous,
                forall|k: int|
                    #![trigger self.has_error@[k]]
                    #![trigger old(self).has_error@[k]]
                    #![trigger e_big(current_bytes@, k)]
                    0 <= k < j ==> (self.has_error@[k] == 0 <==> (old(self).has_error@[k] == 0
                        && !e_big(current_bytes@, k))),
                forall|k: int| j <= k < w ==> self.has_error@[k] == old(self).has_error@[k],
            decreases w - j,
        {
            let excess = saturating_sub(current_bytes[j], 0xF4);
            let prior = self.has_error[j];
            proof {
                lemma_or_zero(prior, excess);
            }
            self.has_error.set(j, prior | excess);
            j = j + 1;
        }
    }

    /// The continuation accounting check: a lane errs when the carried
    /// obligation agrees with "this lane announces a length".
    fn check_continuations(&mut self, initial_lengths: &Vec<u8>, carries: &Vec<u8>)
        requires
            old(self).wf(),
            initial_lengths@.len() == old(self).width(),
            carries@.len() == old(self).width(),
        ensures
            final(self).wf(),
            final(self).width() == old(self).width(),
            final(self).previous == old(self).previous,
            final(self).error_free() <==> (old(self).error_free() && !(exists|j: int|
                0 <= j < carries@.len() && ((sgn(carries@[j] as int) > sgn(
                    initial_lengths@[j] as int,
                )) == (sgn(initial_lengths@[j] as int) > 0)))),
    {
        let w = carries.len();
        let mut j: usize = 0;
        while j < w
            invariant
                0 <= j <= w,
                self.wf(),
                self.width() == w,
                old(self).wf(),
                old(self).width() == w,
                old(self).previous == self.previous,
                w == initial_lengths@.len() == carries@.len(),
                self.previous == old(self).previous,
                forall|k: int|
                    #![trigger self.has_error@[k]]
                    #![trigger old(self).has_error@[k]]
                    #![trigger carries@[k]]
                    0 <= k < j ==> (self.has_error@[k] == 0 <==> (old(self).has_error@[k] == 0
                        && !((sgn(carries@[k] as int) > sgn(initial_lengths@[k] as int)) == (sgn(
                        initial_lengths@[k] as int,
                    ) > 0)))),
                forall|k: int| j <= k < w ==> self.has_error@[k] == old(self).has_error@[k],
            decreases w - j,
        {
            let over = signed_gt(carries[j], initial_lengths[j]);
            let announces = signed_gt(initial_lengths[j], 0);
            let mask: u8 = if over == announces {
                0xFF
            } else {
                0
            };
            let prior = self.has_error[j];
            proof {
                lemma_or_zero(prior, mask);
            }
            self.has_error.set(j, prior | mask);
            j = j + 1;
        }
    }

    /// After ED the next byte must stay at or below 9F, after F4 at or
    /// below 8F.
    fn check_first_continuation_max(&mut self, current_bytes: &Vec<u8>, off1_current_bytes: &Vec<u8>)
        requires
            old(self).wf(),
            current_bytes@.len() == old(self).width(),
            off1_current_bytes@.len() == old(self).width(),
        ensures
            final(self).wf(),
            final(self).width() == old(self).width(),
            final(self).previous == old(self).previous,
            final(self).error_free() <==> (old(self).error_free() && !(exists|j: int|
                0 <= j < current_bytes@.len() && e_max(off1_current_bytes@[j], current_bytes@[j]))),
    {
        let w = current_bytes.len();
        let mut j: usize = 0;
        while j < w
            invariant
                0 <= j <= w,
                self.wf(),
                self.width() == w,
                old(self).wf(),
                old(self).width() == w,
                old(self).previous == self.previous,
                w == current_bytes@.len() == off1_current_bytes@.len(),
                self.previous == old(self).previous,
                forall|k: int|
                    #![trigger self.has_error@[k]]
                    #![trigger old(self).has_error@[k]]
                    #![trigger e_max(off1_current_bytes@[k], current_bytes@[k])]
                    0 <= k < j ==> (self.has_error@[k] == 0 <==> (old(self).has_error@[k] == 0
                        && !e_max(off1_current_bytes@[k], current_bytes@[k]))),
                forall|k: int| j <= k < w ==> self.has_error@[k] == old(self).has_error@[k],
            decreases w - j,
        {
            let bad_follow_ed = off1_current_bytes[j] == 0xED && signed_gt(current_bytes[j], 0x9F);
            let bad_follow_f4 = off1_current_bytes[j] == 0xF4 && signed_gt(current_bytes[j], 0x8F);
            let mask: u8 = if bad_follow_ed || bad_follow_f4 {
                0xFF
            } else {
                0
            };
            let prior = self.has_error[j];
            proof {
                lemma_or_zero(prior, mask);
            }
            self.has_error.set(j, prior | mask);
            j = j + 1;
        }
    }

    /// The two-table overlong check: a lead below its class minimum whose
    /// follower is also below the class's follower minimum.
    fn check_overlong(
        &mut self,
        current_bytes: &Vec<u8>,
        off1_current_bytes: &Vec<u8>,
        hibits: &Vec<u8>,
        previous_hibits: &Vec<u8>,
    )
        requires
            old(self).wf(),
            current_bytes@.len() == old(self).width(),
            off1_current_bytes@.len() == old(self).width(),
            hibits@.len() == old(self).width(),
            previous_hibits@.len() == old(self).width(),
            forall|j: int| 1 <= j < old(self).width() ==> hibits@[j - 1] as int == nib(
                off1_current_bytes@[j],
            ),
            previous_hibits@[old(self).width() - 1] as int == nib(off1_current_bytes@[0]),
        ensures
            final(self).wf(),
            final(self).width() == old(self).width(),
            final(self).previous == old(self).previous,
            final(self).error_free() <==> (old(self).error_free() && !(exists|j: int|
                0 <= j < current_bytes@.len() && e_overlong(
                    off1_current_bytes@[j],
                    current_bytes@[j],
                ))),
    {
        let w = current_bytes.len();
        let off1_hibits = push_last_byte_of_a_to_b(previous_hibits, hibits);
        let mut j: usize = 0;
        while j < w
            invariant
                0 <= j <= w,
                self.wf(),
                self.width() == w,
                old(self).wf(),
                old(self).width() == w,
                old(self).previous == self.previous,
                w == current_bytes@.len() == off1_current_bytes@.len() == off1_hibits@.len(),
                forall|k: int| 0 <= k < w ==> off1_hibits@[k] as int == nib(
                    off1_current_bytes@[k],
                ),
                self.previous == old(self).previous,
                forall|k: int|
                    #![trigger self.has_error@[k]]
                    #![trigger old(self).has_error@[k]]
                    #![trigger e_overlong(off1_current_bytes@[k], current_bytes@[k])]
                    0 <= k < j ==> (self.has_error@[k] == 0 <==> (old(self).has_error@[k] == 0
                        && !e_overlong(off1_current_bytes@[k], current_bytes@[k]))),
                forall|k: int| j <= k < w ==> self.has_error@[k] == old(self).has_error@[k],
            decreases w - j,
        {
            let h = off1_hibits[j];
            // First table: the least legal lead of the nibble class.
            let initial_under = if h == 12 {
                signed_gt(0xC2, off1_current_bytes[j])
            } else if h == 14 {
                signed_gt(0xE1, off1_current_bytes[j])
            } else if h == 15 {
                signed_gt(0xF1, off1_current_bytes[j])
            } else {
                false
            };
            // Second table: the least byte allowed after such a lead.
            let second_under = if h == 12 || h == 13 {
                signed_gt(0x7F, current_bytes[j])
            } else if h == 14 {
                signed_gt(0xA0, current_bytes[j])
            } else if h == 15 {
                signed_gt(0x90, current_bytes[j])
            } else {
                false
            };
            let mask: u8 = if initial_under && second_under {
                0xFF
            } else {
                0
            };
            let prior = self.has_error[j];
            proof {
                lemma_or_zero(prior, mask);
            }
            self.has_error.set(j, prior | mask);
            j = j + 1;
        }
    }

    /// The end-of-input check for whole-chunk inputs: the carried vector
    /// may owe at most one byte in its last lane; the other lanes are
    /// compared against a spare bound of nine.
    fn check_carried_continuations_at_end(&mut self)
        requires
            old(self).wf(),
        ensures
            final(self).wf(),
            final(self).width() == old(self).width(),
            final(self).previous == old(self).previous,
            final(self).error_free() <==> (old(self).error_free() && !(sgn(
                old(self).previous.carried_continuations@[old(self).width() - 1] as int,
            ) > 1) && !(exists|j: int|
                0 <= j < old(self).width() - 1 && sgn(
                    (#[trigger] old(self).previous.carried_continuations@[j]) as int,
                ) > 9)),
    {
        let w = self.has_error.len();
        let mut j: usize = 0;
        while j < w
            invariant
                0 <= j <= w,
                self.wf(),
                self.width() == w,
                old(self).wf(),
                old(self).width() == w,
                old(self).previous == self.previous,
                forall|k: int|
                    #![trigger self.has_error@[k]]
                    #![trigger old(self).has_error@[k]]
                    #![trigger old(self).previous.carried_continuations@[k]]
                    0 <= k < j ==> (self.has_error@[k] == 0 <==> (old(self).has_error@[k] == 0
                        && !(sgn(old(self).previous.carried_continuations@[k] as int) > (if k
                        == w - 1 {
                        1int
                    } else {
                        9int
                    })))),
                forall|k: int| j <= k < w ==> self.has_error@[k] == old(self).has_error@[k],
            decreases w - j,
        {
            let threshold: u8 = if j == w - 1 {
                1
            } else {
                9
            };
            let over = signed_gt(self.previous.carried_continuations[j], threshold);
            let mask: u8 = if over {
                0xFF
            } else {
                0
            };
            let prior = self.has_error[j];
            proof {
                lemma_or_zero(prior, mask);
            }
            self.has_error.set(j, prior | mask);
            j = j + 1;
        }
        proof {
            let pcv = old(self).previous.carried_continuations@;
            if exists|j: int| 0 <= j < w - 1 && sgn((#[trigger] pcv[j]) as int) > 9 {
                let j = choose|j: int| 0 <= j < w - 1 && sgn((#[trigger] pcv[j]) as int) > 9;
                assert(self.has_error@[j] != 0);
            }
        }
    }

    /// The ASCII fast path: a chunk with no high bit set cannot open or
    /// continue a sequence, so only the carried vector is checked and the
    /// remembered state is kept; any other chunk takes the full pipeline.
    pub fn check_bytes_ascii_path(&mut self, current_bytes: &Vec<u8>)
        requires
            old(self).wf(),
            current_bytes@.len() == old(self).width(),
        ensures
            final(self).wf(),
            final(self).width() == old(self).width(),
            crate::lemire::model::all_ascii(current_bytes@) ==> final(self).previous == old(
                self,
            ).previous && (final(self).error_free() <==> (old(self).error_free()
                && !crate::lemire::model::pc_thresh_err(
                old(self).previous.carried_continuations@,
                old(self).width(),
            ))),
            !crate::lemire::model::all_ascii(current_bytes@) ==> {
                &&& final(self).previous.rawbytes@ == current_bytes@
                &&& (forall|j: int| 0 <= j < old(self).width()
                    ==> final(self).previous.carried_continuations@[j] as int == car_at(
                    old(self).previous.carried_continuations@,
                    current_bytes@,
                    old(self).width(),
                    j,
                ))
                &&& (final(self).error_free() <==> (old(self).error_free() && !chunk_err(
                    old(self).previous.rawbytes@,
                    old(self).previous.carried_continuations@,
                    current_bytes@,
                    old(self).width(),
                    old(self).width(),
                )))
            },
    {
        if no_most_significant_bits(current_bytes) {
            self.check_carried_continuations_at_end();
        } else {
            self.check_bytes(current_bytes);
        }
    }

    /// Whether the accumulator is still all zero, as the final `testz`
    /// reports it.
    pub fn is_erroneous(&self) -> (r: bool)
        ensures
            r == self.error_free(),
    {
        let w = self.has_error.len();
        let mut j: usize = 0;
        while j < w
            invariant
                0 <= j <= w,
                w == self.has_error@.len(),
                forall|k: int| 0 <= k < j ==> self.has_error@[k] == 0,
            decreases w - j,
        {
            if self.has_error[j] != 0 {
                return false;
            }
            j = j + 1;
        }
        true
    }

    /// Check one chunk of bytes and replace the carried state.
    pub fn check_bytes(&mut self, current_bytes: &Vec<u8>)
        requires
            old(self).wf(),
            current_bytes@.len() == old(self).width(),
        ensures
            final(self).wf(),
            final(self).width() == old(self).width(),
            final(self).previous.rawbytes@ == current_bytes@,
            forall|j: int| 0 <= j < old(self).width()
                ==> final(self).previous.high_nibbles@[j] as int == nib(current_bytes@[j]),
            forall|j: int| 0 <= j < old(self).width()
                ==> final(self).previous.carried_continuations@[j] as int == car_at(
                old(self).previous.carried_continuations@,
                current_bytes@,
                old(self).width(),
                j,
            ),
            final(self).error_free() <==> (old(self).error_free() && !chunk_err(
                old(self).previous.rawbytes@,
                old(self).previous.carried_continuations@,
                current_bytes@,
                old(self).width(),
                old(self).width(),
            )),
    {
        let ghost w = old(self).width();
        let ghost praw = old(self).previous.rawbytes@;
        let ghost pc = old(self).previous.carried_continuations@;
        let mut pb = ProcessedUtfBytes::new(self.has_error.len());
        pb.count_nibbles(current_bytes);
        self.check_smaller_than_0xf4(current_bytes);
        let initial_lengths = continuation_lengths(&pb.high_nibbles);
        proof {
            assert(forall|j: int| 0 <= j < w ==> initial_lengths@[j] as int == clen(
                current_bytes@[j],
            ));
        }
        pb.carried_continuations = carry_continuations(
            &initial_lengths,
            &self.previous.carried_continuations,
        );
        proof {
            assert forall|j: int| 0 <= j < w implies pb.carried_continuations@[j] as int
                == car_at(pc, current_bytes@, w, j) by {
                assert(pb.carried_continuations@[j] as int == wrap8(
                    sum_at(pc, current_bytes@, w, j) + ssub(
                        if j == 0 {
                            pc[w - 1 - 1] as int
                        } else if j == 1 {
                            pc[w - 1] as int
                        } else {
                            sum_at(pc, current_bytes@, w, j - 2)
                        },
                        2,
                    ),
                ));
            }
        }
        self.check_continuations(&initial_lengths, &pb.carried_continuations);
        let off1_current_bytes = push_last_byte_of_a_to_b(&self.previous.rawbytes, &pb.rawbytes);
        self.check_first_continuation_max(current_bytes, &off1_current_bytes);
        let previous_hibits = self.previous.high_nibbles.clone();
        self.check_overlong(current_bytes, &off1_current_bytes, &pb.high_nibbles, &previous_hibits);
        self.previous = pb;
        proof {
            assert forall|j: int| 0 <= j < w implies (lane_err(praw, pc, current_bytes@, w, j)
                <==> (e_big(current_bytes@, j) || ((sgn(
                car_at(pc, current_bytes@, w, j),
            ) > sgn(clen(current_bytes@[j]))) == (sgn(clen(current_bytes@[j])) > 0)) || e_max(
                off1_current_bytes@[j],
                current_bytes@[j],
            ) || e_overlong(off1_current_bytes@[j], current_bytes@[j]))) by {
                assert(prev_byte_at(praw, current_bytes@, w, j) == off1_current_bytes@[j]);
                assert(sgn(clen(current_bytes@[j])) == clen(current_bytes@[j]));
            }
            // Stitch the four per-check existentials to the chunk error.
            let cb = current_bytes@;
            let cv = self.previous.carried_continuations@;
            let lv = initial_lengths@;
            if chunk_err(praw, pc, cb, w, w) {
                let j = choose|j: int| 0 <= j < w && #[trigger] lane_err(praw, pc, cb, w, j);
                assert(cv[j] as int == car_at(pc, cb, w, j));
                assert(lv[j] as int == clen(cb[j]));
                assert(e_big(cb, j) || ((sgn(cv[j] as int) > sgn(lv[j] as int)) == (sgn(
                    lv[j] as int,
                ) > 0)) || e_max(off1_current_bytes@[j], cb[j]) || e_overlong(
                    off1_current_bytes@[j],
                    cb[j],
                ));
            }
            if exists|j: int| 0 <= j < cb.len() && e_big(cb, j) {
                let j = choose|j: int| 0 <= j < cb.len() && e_big(cb, j);
                assert(lane_err(praw, pc, cb, w, j));
            }
            if exists|j: int|
                0 <= j < cv.len() && ((sgn((#[trigger] cv[j]) as int) > sgn(lv[j] as int)) == (
                sgn(lv[j] as int) > 0)) {
                let j = choose|j: int|
                    0 <= j < cv.len() && ((sgn((#[trigger] cv[j]) as int) > sgn(lv[j] as int))
                        == (sgn(lv[j] as int) > 0));
                assert(cv[j] as int == car_at(pc, cb, w, j));
                assert(lv[j] as int == clen(cb[j]));
                assert(e_cont(pc, cb, w, j));
                assert(lane_err(praw, pc, cb, w, j));
            }
            if exists|j: int|
                0 <= j < cb.len() && e_max(#[trigger] off1_current_bytes@[j], cb[j]) {
                let j = choose|j: int|
                    0 <= j < cb.len() && e_max(#[trigger] off1_current_bytes@[j], cb[j]);
                assert(prev_byte_at(praw, cb, w, j) == off1_current_bytes@[j]);
                assert(lane_err(praw, pc, cb, w, j));
            }
            if exists|j: int|
                0 <= j < cb.len() && e_overlong(#[trigger] off1_current_bytes@[j], cb[j]) {
                let j = choose|j: int|
                    0 <= j < cb.len() && e_overlong(#[trigger] off1_current_bytes@[j], cb[j]);
                assert(prev_byte_at(praw, cb, w, j) == off1_current_bytes@[j]);
                assert(lane_err(praw, pc, cb, w, j));
            }
        }
    }
}

/// Returns whether none of the bytes given have their most significant
/// bit set.
fn no_most_significant_bits(bytes: &Vec<u8>) -> (r: bool)
    ensures
        r == crate::lemire::model::all_ascii(bytes@),
{
    let w = bytes.len();
    let mut j: usize = 0;
    while j < w
        invariant
            0 <= j <= w,
            w == bytes@.len(),
            forall|k: int| 0 <= k < j ==> bytes@[k] < 0x80,
        decreases w - j,
    {
        if bytes[j] >= 0x80 {
            return false;
        }
        j = j + 1;
    }
    true
}

/// The continuation-length validator at lane width `w`: full chunks in a
/// loop, a zero-padded tail chunk, or the carried-vector check when the
/// input is a whole number of chunks.
pub fn is_utf8_at_width(bytes: &[u8], w: usize) -> (r: bool)
    requires
        4 <= w,
    ensures
        r == is_utf8_seq(bytes@),
{
    let len = bytes.len();
    let ghost s = bytes@;
    let ghost wi = w as int;
    let ghost rem: int = s.len() as int % wi;
    let ghost t: Seq<u8> = if rem == 0 {
        s
    } else {
        s + zeros(wi - rem)
    };
    proof {
        crate::lemire::proofs::lemma_lemire_correct(s, wi);
        vstd::arithmetic::div_mod::lemma_mod_bound(s.len() as int, wi);
    }
    let mut state = State::new(w);
    let mut i: usize = 0;
    let ghost mut c: int = 0;
    if len >= w {
        while i <= len - w
            invariant
                4 <= w,
                s == bytes@,
                len == s.len(),
                len >= w,
                wi == w as int,
                rem == s.len() as int % wi,
                t == (if rem == 0 {
                    s
                } else {
                    s + zeros(wi - rem)
                }),
                state.wf(),
                state.width() == wi,
                i as int == c * wi,
                0 <= c,
                i <= len,
                state.previous.rawbytes@ == praw_after(t, wi, c - 1),
                state.previous.carried_continuations@ == pc_after(t, wi, c - 1),
                state.error_free() <==> !errs_upto(t, wi, c),
            decreases len - i,
        {
            let mut current: Vec<u8> = Vec::new();
            let mut k: usize = 0;
            while k < w
                invariant
                    0 <= k <= w,
                    i + w <= len,
                    len == bytes@.len(),
                    current@.len() == k,
                    forall|m: int| 0 <= m < k ==> current@[m] == bytes@[i + m],
                decreases w - k,
            {
                current.push(bytes[i + k]);
                k = k + 1;
            }
            proof {
                assert(t.len() % (wi as nat) == 0) by {
                    if rem != 0 {
                        assert(t.len() == s.len() + (wi - rem));
                        assert((s.len() as int + (wi - rem)) % wi == 0) by (nonlinear_arith)
                            requires
                                rem == s.len() as int % wi,
                                0 < rem < wi,
                        ;
                    }
                }
                assert((c + 1) * wi == c * wi + wi) by (nonlinear_arith);
                assert(c * wi + wi <= t.len());
                assert(current@ =~= chunk_of(t, wi, c));
            }
            state.check_bytes(&current);
            proof {
                assert forall|j: int| 0 <= j < wi implies state.previous.carried_continuations@[j]
                    == pc_after(t, wi, c)[j] by {
                    crate::lemire::proofs::lemma_pc_index(t, wi, c, j);
                }
                assert(state.previous.carried_continuations@ =~= pc_after(t, wi, c));
                assert(state.previous.rawbytes@ =~= praw_after(t, wi, c));
                assert(errs_upto(t, wi, c + 1) == (errs_upto(t, wi, c) || chunk_err(
                    praw_after(t, wi, c - 1),
                    pc_after(t, wi, c - 1),
                    chunk_of(t, wi, c),
                    wi,
                    wi,
                )));
            }
            i = i + w;
            proof {
                c = c + 1;
            }
        }
    }
    proof {
        assert(0 <= len - c * wi < wi);
        vstd::arithmetic::div_mod::lemma_fundamental_div_mod_converse(
            len as int,
            wi,
            c,
            len as int - c * wi,
        );
        assert(c == s.len() as int / wi);
        assert(len as int - c * wi == rem);
    }
    if i < len {
        // Trailing partial chunk: zero-pad it and run the same check.
        let mut buffer: Vec<u8> = Vec::new();
        let mut k: usize = 0;
        while k < w
            invariant
                0 <= k <= w,
                buffer@.len() == k,
                forall|m: int| 0 <= m < k ==> buffer@[m] == 0,
            decreases w - k,
        {
            buffer.push(0);
            k = k + 1;
        }
        let mut k2: usize = 0;
        while k2 < len - i
            invariant
                0 <= k2 <= len - i,
                i < len,
                len == bytes@.len(),
                len - i < w,
                buffer@.len() == w,
                forall|m: int| 0 <= m < k2 ==> buffer@[m] == bytes@[i + m],
                forall|m: int| k2 <= m < w ==> buffer@[m] == 0,
            decreases len - i - k2,
        {
            buffer.set(k2, bytes[i + k2]);
            k2 = k2 + 1;
        }
        proof {
            assert(rem != 0);
            assert(t.len() == s.len() + (wi - rem));
            assert(t.len() % (wi as nat) == 0) by (nonlinear_arith)
                requires
                    t.len() == s.len() + (wi - rem),
                    rem == s.len() as int % wi,
                    0 < rem < wi,
            ;
            assert((c + 1) * wi == c * wi + wi) by (nonlinear_arith);
            assert(c * wi + wi <= t.len());
            assert forall|m: int| 0 <= m < wi implies buffer@[m] == t[c * wi + m] by {
                if m < len - i {
                    assert(t[c * wi + m] == s[i + m]);
                } else {
                    assert(t[c * wi + m] == zeros(wi - rem)[c * wi + m - s.len()]);
                }
            }
            assert(buffer@ =~= chunk_of(t, wi, c));
        }
        state.check_bytes(&buffer);
        proof {
            assert(errs_upto(t, wi, c + 1) == (errs_upto(t, wi, c) || chunk_err(
                praw_after(t, wi, c - 1),
                pc_after(t, wi, c - 1),
                chunk_of(t, wi, c),
                wi,
                wi,
            )));
            assert(crate::lemire::model::lemire_result(s, wi) == !errs_upto(t, wi, c + 1));
        }
        state.is_erroneous()
    } else {
        // The input is a whole number of chunks: check the carried
        // vector instead.
        proof {
            assert(rem == 0);
            assert(t == s);
        }
        let ghost pcv = state.previous.carried_continuations@;
        state.check_carried_continuations_at_end();
        proof {
            if len == 0 {
                assert(c == 0);
                assert(forall|j: int| 0 <= j < wi ==> pcv[j] == 0);
                assert(!(sgn(pcv[wi - 1] as int) > 1));
                if exists|j: int| 0 <= j < wi - 1 && sgn((#[trigger] pcv[j]) as int) > 9 {
                    let j = choose|j: int| 0 <= j < wi - 1 && sgn((#[trigger] pcv[j]) as int)
                        > 9;
                    assert(false);
                }
                assert(state.error_free());
                assert(crate::lemire::model::lemire_result(s, wi));
            } else {
                assert(c >= 1);
                assert(pcv == pc_after(t, wi, c - 1));
                assert(end_err(t, wi, c) == ((sgn(pcv[wi - 1] as int) > 1) || (exists|j: int|
                    0 <= j < wi - 1 && sgn((#[trigger] pc_after(t, wi, c - 1)[j]) as int)
                        > 9)));
                if exists|j: int| 0 <= j < wi - 1 && sgn((#[trigger] pcv[j]) as int) > 9 {
                    let j = choose|j: int| 0 <= j < wi - 1 && sgn((#[trigger] pcv[j]) as int)
                        > 9;
                    assert(sgn((pc_after(t, wi, c - 1)[j]) as int) > 9);
                }
                if exists|j: int|
                    0 <= j < wi - 1 && sgn((#[trigger] pc_after(t, wi, c - 1)[j]) as int) > 9 {
                    let j = choose|j: int|
                        0 <= j < wi - 1 && sgn((#[trigger] pc_after(t, wi, c - 1)[j]) as int)
                            > 9;
                    assert(sgn(pcv[j] as int) > 9);
                }
                assert(crate::lemire::model::lemire_result(s, wi) == (!errs_upto(t, wi, c)
                    && !end_err(t, wi, c)));
            }
        }
        state.is_erroneous()
    }
}

/// The fast-path variant of the validator at lane width `w`: wholly
/// ASCII chunks only check the carried vector and keep the remembered
/// state; every other chunk, and the zero-padded tail, takes the full
/// pipeline.
pub fn is_utf8_ascii_path_at_width(bytes: &[u8], w: usize) -> (r: bool)
    requires
        4 <= w,
    ensures
        r == is_utf8_seq(bytes@),
{
    proof {
        crate::lemire::asc_proofs::lemma_lemire_ascii_correct(bytes@, w as int);
    }
    let len = bytes.len();
    let ghost s = bytes@;
    let ghost wi = w as int;
    let ghost rem: int = s.len() as int % wi;
    let ghost t: Seq<u8> = if rem == 0 {
        s
    } else {
        s + zeros(wi - rem)
    };
    proof {
        vstd::arithmetic::div_mod::lemma_mod_bound(s.len() as int, wi);
    }
    let mut state = State::new(w);
    let mut i: usize = 0;
    let ghost mut c: int = 0;
    if len >= w {
        while i <= len - w
            invariant
                4 <= w,
                s == bytes@,
                len == s.len(),
                len >= w,
                wi == w as int,
                rem == s.len() as int % wi,
                t == (if rem == 0 {
                    s
                } else {
                    s + zeros(wi - rem)
                }),
                state.wf(),
                state.width() == wi,
                i as int == c * wi,
                0 <= c,
                i <= len,
                state.previous.rawbytes@ == crate::lemire::model::asc_praw_after(t, wi, c - 1),
                state.previous.carried_continuations@ == crate::lemire::model::asc_pc_after(
                    t,
                    wi,
                    c - 1,
                ),
                state.error_free() <==> !crate::lemire::model::asc_errs_upto(t, wi, c),
            decreases len - i,
        {
            let mut current: Vec<u8> = Vec::new();
            let mut k: usize = 0;
            while k < w
                invariant
                    0 <= k <= w,
                    i + w <= len,
                    len == bytes@.len(),
                    current@.len() == k,
                    forall|m: int| 0 <= m < k ==> current@[m] == bytes@[i + m],
                decreases w - k,
            {
                current.push(bytes[i + k]);
                k = k + 1;
            }
            proof {
                assert(t.len() % (wi as nat) == 0) by {
                    if rem != 0 {
                        assert(t.len() == s.len() + (wi - rem));
                        assert((s.len() as int + (wi - rem)) % wi == 0) by (nonlinear_arith)
                            requires
                                rem == s.len() as int % wi,
                                0 < rem < wi,
                        ;
                    }
                }
                assert((c + 1) * wi == c * wi + wi) by (nonlinear_arith);
                assert(c * wi + wi <= t.len());
                assert(current@ =~= chunk_of(t, wi, c));
            }
            state.check_bytes_ascii_path(&current);
            proof {
                if crate::lemire::model::all_ascii(chunk_of(t, wi, c)) {
                    assert(crate::lemire::model::asc_pc_after(t, wi, c)
                        == crate::lemire::model::asc_pc_after(t, wi, c - 1));
                    assert(crate::lemire::model::asc_praw_after(t, wi, c)
                        == crate::lemire::model::asc_praw_after(t, wi, c - 1));
                } else {
                    assert forall|j: int| 0 <= j < wi implies
                        state.previous.carried_continuations@[j]
                        == crate::lemire::model::asc_pc_after(t, wi, c)[j] by {
                        assert(crate::lemire::model::asc_pc_after(t, wi, c)[j] == car_at(
                            crate::lemire::model::asc_pc_after(t, wi, c - 1),
                            chunk_of(t, wi, c),
                            wi,
                            j,
                        ) as u8);
                    }
                    assert(state.previous.carried_continuations@
                        =~= crate::lemire::model::asc_pc_after(t, wi, c));
                    assert(state.previous.rawbytes@ =~= crate::lemire::model::asc_praw_after(
                        t,
                        wi,
                        c,
                    ));
                }
                assert(crate::lemire::model::asc_errs_upto(t, wi, c + 1)
                    == (crate::lemire::model::asc_errs_upto(t, wi, c) || (if
                    crate::lemire::model::all_ascii(chunk_of(t, wi, c)) {
                    crate::lemire::model::pc_thresh_err(
                        crate::lemire::model::asc_pc_after(t, wi, c - 1),
                        wi,
                    )
                } else {
                    chunk_err(
                        crate::lemire::model::asc_praw_after(t, wi, c - 1),
                        crate::lemire::model::asc_pc_after(t, wi, c - 1),
                        chunk_of(t, wi, c),
                        wi,
                        wi,
                    )
                })));
            }
            i = i + w;
            proof {
                c = c + 1;
            }
        }
    }
    proof {
        assert(0 <= len - c * wi < wi);
        vstd::arithmetic::div_mod::lemma_fundamental_div_mod_converse(
            len as int,
            wi,
            c,
            len as int - c * wi,
        );
        assert(c == s.len() as int / wi);
        assert(len as int - c * wi == rem);
    }
    if i < len {
        let mut buffer: Vec<u8> = Vec::new();
        let mut k: usize = 0;
        while k < w
            invariant
                0 <= k <= w,
                buffer@.len() == k,
                forall|m: int| 0 <= m < k ==> buffer@[m] == 0,
            decreases w - k,
        {
            buffer.push(0);
            k = k + 1;
        }
        let mut k2: usize = 0;
        while k2 < len - i
            invariant
                0 <= k2 <= len - i,
                i < len,
                len == bytes@.len(),
                len - i < w,
                buffer@.len() == w,
                forall|m: int| 0 <= m < k2 ==> buffer@[m] == bytes@[i + m],
                forall|m: int| k2 <= m < w ==> buffer@[m] == 0,
            decreases len - i - k2,
        {
            buffer.set(k2, bytes[i + k2]);
            k2 = k2 + 1;
        }
        proof {
            assert(rem != 0);
            assert(t.len() == s.len() + (wi - rem));
            assert(t.len() % (wi as nat) == 0) by (nonlinear_arith)
                requires
                    t.len() == s.len() + (wi - rem),
                    rem == s.len() as int % wi,
                    0 < rem < wi,
            ;
            assert((c + 1) * wi == c * wi + wi) by (nonlinear_arith);
            assert(c * wi + wi <= t.len());
            assert forall|m: int| 0 <= m < wi implies buffer@[m] == t[c * wi + m] by {
                if m < len - i {
                    assert(t[c * wi + m] == s[i + m]);
                } else {
                    assert(t[c * wi + m] == zeros(wi - rem)[c * wi + m - s.len()]);
                }
            }
            assert(buffer@ =~= chunk_of(t, wi, c));
        }
        state.check_bytes(&buffer);
        state.is_erroneous()
    } else {
        proof {
            assert(rem == 0);
            assert(t == s);
        }
        let ghost pcv = state.previous.carried_continuations@;
        state.check_carried_continuations_at_end();
        proof {
            if len == 0 {
                assert(c == 0);
                assert(forall|j: int| 0 <= j < wi ==> pcv[j] == 0);
                assert(!(sgn(pcv[wi - 1] as int) > 1));
                if exists|j: int| 0 <= j < wi - 1 && sgn((#[trigger] pcv[j]) as int) > 9 {
                    let j = choose|j: int| 0 <= j < wi - 1 && sgn((#[trigger] pcv[j]) as int)
                        > 9;
                    assert(false);
                }
                assert(state.error_free());
            } else {
                assert(pcv == crate::lemire::model::asc_pc_after(t, wi, c - 1));
                assert(crate::lemire::model::pc_thresh_err(pcv, wi) == ((sgn(
                    pcv[wi - 1] as int,
                ) > 1) || (exists|j: int|
                    0 <= j < wi - 1 && sgn((#[trigger] pcv[j]) as int) > 9)));
            }
        }
        state.is_erroneous()
    }
}

} // verus!
