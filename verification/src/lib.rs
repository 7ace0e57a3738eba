//! Vectorized UTF-8 validation.
//!
//! Every public validator answers one question: is a byte buffer well-formed
//! UTF-8 per the Unicode Standard (Chapter 3)?  Overlong encodings, surrogate
//! code points, out-of-range lead or continuation bytes and truncated
//! sequences are all rejected.
//!
//! Two independent algorithm families implement this contract on fixed-width
//! chunks of bytes (16 or 32 lanes per step), carrying cross-chunk state so
//! that a multi-byte sequence may straddle a chunk boundary:
//!
//! * the continuation-length family ([`lemire`], with the free-function
//!   forms in [`simdutf8check_sse`] and [`simdutf8check_avx`]), which tracks
//!   how many continuation bytes each lane still owes, and
//! * the range-table family ([`range`]), which assigns each byte a range
//!   index from its window and checks it against a `[min, max]` table.
//!
//! A byte-by-byte scalar validator ([`libcore`]) is the reference; the
//! range-table family delegates its trailing bytes to it.  Every validator's
//! contract states that it returns exactly [`utf8::is_utf8_seq`] of its
//! input, so any two of them agree on every input; [`laws`] records that and
//! the other properties shared by all of them.

pub mod laws;
pub mod lemire;
pub mod libcore;
pub mod range;
pub mod simdutf8check_avx;
pub mod simdutf8check_sse;
pub mod utf8;
