//! Lane-level model of the continuation-length validator.
//!
//! Every vector intrinsic of the executable code has a per-lane meaning:
//! a table lookup by high nibble, an unsigned saturating subtraction, a
//! wrapping byte addition, a signed byte comparison, and a one- or two-lane
//! shift across the chunk boundary.  The spec functions here state those
//! meanings exactly, per lane, so that the executable chunk step can be
//! pinned to them and the correctness argument can proceed purely over
//! mathematical integers.

use vstd::prelude::*;

verus! {

/// High nibble of a byte.
pub open spec fn nib(b: u8) -> int {
    b as int / 16
}

/// The 16-entry table mapping a high nibble to the total sequence length it
/// announces: ASCII nibbles 1, continuation nibbles 0, then 2, 2, 3, 4.
pub open spec fn clen_of_nib(h: int) -> int {
    if h < 8 {
        1
    } else if h < 12 {
        0
    } else if h < 14 {
        2
    } else if h == 14 {
        3
    } else {
        4
    }
}

/// Announced sequence length of a byte.
pub open spec fn clen(b: u8) -> int {
    clen_of_nib(nib(b))
}

/// Unsigned saturating subtraction.
pub open spec fn ssub(a: int, b: int) -> int {
    if a >= b {
        a - b
    } else {
        0
    }
}

/// Wrapping byte addition keeps the low eight bits.
pub open spec fn wrap8(a: int) -> int {
    a % 256
}

/// A byte value read as a signed two's-complement byte.
pub open spec fn sgn(a: int) -> int {
    if a < 128 {
        a
    } else {
        a - 256
    }
}

/// An all-zero lane vector of width `w`.
pub open spec fn zeros(w: int) -> Seq<u8> {
    Seq::new(w as nat, |j: int| 0u8)
}

/// The bytes of chunk `c`.
pub open spec fn chunk_of(t: Seq<u8>, w: int, c: int) -> Seq<u8> {
    t.subrange(c * w, (c + 1) * w)
}

/// The `sum` vector of a chunk: each lane's announced length plus the
/// saturated tail of the length one lane back; lane 0 pulls the last lane
/// of the previous chunk's carries.
pub open spec fn sum_at(pc: Seq<u8>, c: Seq<u8>, w: int, j: int) -> int {
    wrap8(clen(c[j]) + ssub(if j == 0 { pc[w - 1] as int } else { clen(c[j - 1]) }, 1))
}

/// The carried-continuation vector of a chunk: the `sum` plus the saturated
/// tail of the value two lanes back; lanes 0 and 1 pull the previous
/// chunk's carries.
pub open spec fn car_at(pc: Seq<u8>, c: Seq<u8>, w: int, j: int) -> int {
    wrap8(sum_at(pc, c, w, j) + ssub(
        if j == 0 {
            pc[w - 2] as int
        } else if j == 1 {
            pc[w - 1] as int
        } else {
            sum_at(pc, c, w, j - 2)
        },
        2,
    ))
}

/// The byte one lane before lane `j`; lane 0 pulls the previous chunk's
/// last byte.
pub open spec fn prev_byte_at(praw: Seq<u8>, c: Seq<u8>, w: int, j: int) -> u8 {
    if j == 0 {
        praw[w - 1]
    } else {
        c[j - 1]
    }
}

/// Any byte above F4 is an error (the check by saturating subtraction).
pub open spec fn e_big(c: Seq<u8>, j: int) -> bool {
    c[j] > 0xF4
}

/// The continuation-accounting check: an error lane is one where
/// `carries > length` (signed) agrees with `length > 0`.
pub open spec fn e_cont(pc: Seq<u8>, c: Seq<u8>, w: int, j: int) -> bool {
    (sgn(car_at(pc, c, w, j)) > clen(c[j])) == (clen(c[j]) > 0)
}

/// After ED the next byte must stay at or below 9F, after F4 at or below
/// 8F (both signed comparisons against a continuation byte).
pub open spec fn e_max(prevb: u8, b: u8) -> bool {
    (prevb == 0xED && sgn(b as int) > sgn(0x9F)) || (prevb == 0xF4 && sgn(b as int) > sgn(0x8F))
}

/// First lookup table of the overlong check, indexed by the previous
/// byte's high nibble: the least legal lead byte of that nibble class.
pub open spec fn imin_of_nib(h: int) -> int {
    if h == 12 {
        sgn(0xC2)
    } else if h == 14 {
        sgn(0xE1)
    } else if h == 15 {
        sgn(0xF1)
    } else {
        -128
    }
}

/// Second lookup table of the overlong check: the least byte that may
/// follow a lead below its class minimum.
pub open spec fn smin_of_nib(h: int) -> int {
    if h == 12 || h == 13 {
        127
    } else if h == 14 {
        sgn(0xA0)
    } else if h == 15 {
        sgn(0x90)
    } else {
        -128
    }
}

/// The overlong check: the previous byte is below its class minimum and
/// the current byte is below the table's bound for that class.
pub open spec fn e_overlong(prevb: u8, b: u8) -> bool {
    imin_of_nib(nib(prevb)) > sgn(prevb as int) && smin_of_nib(nib(prevb)) > sgn(b as int)
}

/// Some check fires in lane `j` of a chunk.
pub open spec fn lane_err(praw: Seq<u8>, pc: Seq<u8>, c: Seq<u8>, w: int, j: int) -> bool {
    ||| e_big(c, j)
    ||| e_cont(pc, c, w, j)
    ||| e_max(prev_byte_at(praw, c, w, j), c[j])
    ||| e_overlong(prev_byte_at(praw, c, w, j), c[j])
}

/// Some check fires somewhere in a chunk.
pub open spec fn chunk_err(praw: Seq<u8>, pc: Seq<u8>, c: Seq<u8>, w: int, j_count: int) -> bool {
    exists|j: int| 0 <= j < j_count && lane_err(praw, pc, c, w, j)
}

/// The carried vector after chunk `c` of `t`; all zero before the first
/// chunk.
pub open spec fn pc_after(t: Seq<u8>, w: int, c: int) -> Seq<u8>
    decreases c + 1,
{
    if c < 0 {
        zeros(w)
    } else {
        Seq::new(w as nat, |j: int| car_at(pc_after(t, w, c - 1), chunk_of(t, w, c), w, j) as u8)
    }
}

/// The raw bytes remembered after chunk `c`; all zero before the first
/// chunk.
pub open spec fn praw_after(t: Seq<u8>, w: int, c: int) -> Seq<u8> {
    if c < 0 {
        zeros(w)
    } else {
        chunk_of(t, w, c)
    }
}

/// An error fires in some lane of some chunk among the first `k` chunks.
pub open spec fn errs_upto(t: Seq<u8>, w: int, k: int) -> bool
    decreases k,
{
    if k <= 0 {
        false
    } else {
        errs_upto(t, w, k - 1) || chunk_err(
            praw_after(t, w, k - 2),
            pc_after(t, w, k - 2),
            chunk_of(t, w, k - 1),
            w,
            w,
        )
    }
}

/// The end-of-input check when the input is a whole number of chunks: the
/// last carried lane may owe at most one byte (itself), the others are
/// compared against a spare bound of nine.
pub open spec fn end_err(t: Seq<u8>, w: int, k: int) -> bool {
    ||| sgn(pc_after(t, w, k - 1)[w - 1] as int) > 1
    ||| exists|j: int| 0 <= j < w - 1 && sgn((#[trigger] pc_after(t, w, k - 1)[j]) as int) > 9
}

/// A chunk with no byte's most significant bit set.
pub open spec fn all_ascii(c: Seq<u8>) -> bool {
    forall|j: int| 0 <= j < c.len() ==> c[j] < 0x80
}

/// The carried-vector check the ASCII fast path performs instead of the
/// full pipeline: at most one byte owed in the last lane, a spare bound
/// of nine elsewhere.
pub open spec fn pc_thresh_err(pc: Seq<u8>, w: int) -> bool {
    ||| sgn(pc[w - 1] as int) > 1
    ||| exists|j: int| 0 <= j < w - 1 && sgn((#[trigger] pc[j]) as int) > 9
}

/// The carried vector of the fast-path variant, which skips wholly ASCII
/// chunks without replacing its state.
pub open spec fn asc_pc_after(t: Seq<u8>, w: int, c: int) -> Seq<u8>
    decreases c + 1,
{
    if c < 0 {
        zeros(w)
    } else if all_ascii(chunk_of(t, w, c)) {
        asc_pc_after(t, w, c - 1)
    } else {
        Seq::new(
            w as nat,
            |j: int| car_at(asc_pc_after(t, w, c - 1), chunk_of(t, w, c), w, j) as u8,
        )
    }
}

/// The raw bytes the fast-path variant remembers.
pub open spec fn asc_praw_after(t: Seq<u8>, w: int, c: int) -> Seq<u8>
    decreases c + 1,
{
    if c < 0 {
        zeros(w)
    } else if all_ascii(chunk_of(t, w, c)) {
        asc_praw_after(t, w, c - 1)
    } else {
        chunk_of(t, w, c)
    }
}

/// An error among the first `k` chunks of the fast-path variant: the
/// carried-vector check on ASCII chunks, the full pipeline elsewhere.
pub open spec fn asc_errs_upto(t: Seq<u8>, w: int, k: int) -> bool
    decreases k,
{
    if k <= 0 {
        false
    } else {
        asc_errs_upto(t, w, k - 1) || (if all_ascii(chunk_of(t, w, k - 1)) {
            pc_thresh_err(asc_pc_after(t, w, k - 2), w)
        } else {
            chunk_err(
                asc_praw_after(t, w, k - 2),
                asc_pc_after(t, w, k - 2),
                chunk_of(t, w, k - 1),
                w,
                w,
            )
        })
    }
}

/// The verdict of the fast-path variant: full chunks with the ASCII
/// shortcut, then a zero-padded tail chunk through the full pipeline, or
/// the carried-vector check when no trailing bytes remain.
pub open spec fn lemire_ascii_result(s: Seq<u8>, w: int) -> bool {
    let full = s.len() as int / w;
    if s.len() as int % w == 0 {
        if s.len() == 0 {
            true
        } else {
            !asc_errs_upto(s, w, full) && !pc_thresh_err(asc_pc_after(s, w, full - 1), w)
        }
    } else {
        let t = s + zeros(w - (s.len() as int % w));
        !asc_errs_upto(t, w, full) && !chunk_err(
            asc_praw_after(t, w, full - 1),
            asc_pc_after(t, w, full - 1),
            chunk_of(t, w, full),
            w,
            w,
        )
    }
}

/// The verdict of the continuation-length algorithm at width `w`: full
/// chunks are checked in a loop; a trailing partial chunk is zero-padded
/// and checked like any other; with no trailing bytes the carried vector
/// is checked instead.
pub open spec fn lemire_result(s: Seq<u8>, w: int) -> bool {
    let full = s.len() as int / w;
    if s.len() as int % w == 0 {
        if s.len() == 0 {
            true
        } else {
            !errs_upto(s, w, full) && !end_err(s, w, full)
        }
    } else {
        let t = s + zeros(w - (s.len() as int % w));
        !errs_upto(t, w, full + 1)
    }
}

} // verus!
