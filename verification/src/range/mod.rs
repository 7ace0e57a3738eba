//! The range-table UTF-8 validation algorithm, expressed over a generic
//! lane width.
//!
//! Each byte is assigned a range index from its own high nibble and the
//! tapered length classes of the three preceding bytes, patched for the
//! four special lead bytes E0, ED, F0 and F4, and is then checked against
//! a per-index `[min, max]` table.  The trailing bytes, together with any
//! sequence left open at the last chunk boundary, are re-checked by the
//! byte-by-byte reference validator.  The 16-lane and 32-lane entry
//! points in [`sse`] and [`avx`] instantiate the same verified core.

pub mod model;
pub mod proofs;

pub mod avx;
pub mod sse;

use vstd::prelude::*;

use crate::lemire::{high_nibble, saturating_sub, signed_gt, wrapping_add};
use crate::lemire::model::{sgn, ssub, wrap8};
use crate::range::model::{
    adj1_of, adj2_of, first_len_of, first_range_of, noncont, or8, pos_of, r_err, range_base,
    range_idx, rmax_of, rmin_of, sadd, tb,
};
use crate::utf8::{is_utf8_seq, mrun};

verus! {

/// The `x & 0xF` of the lookups: the low nibble.
fn low_nibble(b: u8) -> (r: u8)
    ensures
        r as int == b as int % 16,
        r < 16,
{
    proof {
        assert((b & 0xF) as int == b as int % 16 && (b & 0xF) < 16) by (bit_vector);
    }
    b & 0xF
}

/// Saturating byte addition, as `adds_epu8` does per lane.
fn saturating_add(a: u8, b: u8) -> (r: u8)
    ensures
        r as int == sadd(a as int, b as int),
{
    let s: u16 = a as u16 + b as u16;
    if s > 255 {
        255
    } else {
        s as u8
    }
}

/// The first-length class of a byte: sequence length minus one for a
/// lead-range byte, zero otherwise.
fn first_len_byte(b: u8) -> (r: u8)
    ensures
        r as int == first_len_of(b),
        r <= 3,
{
    let h = high_nibble(b);
    if h == 12 || h == 13 {
        1
    } else if h == 14 {
        2
    } else if h == 15 {
        3
    } else {
        0
    }
}

/// The per-index minimum byte of the range table, with the lookup's
/// high-bit zeroing.
fn range_min_lookup(idx: u8) -> (r: u8)
    ensures
        sgn(r as int) == rmin_of(idx as int),
{
    if idx >= 128 {
        0
    } else {
        let k = low_nibble(idx);
        if k == 0 {
            0x00
        } else if k == 4 {
            0xA0
        } else if k == 6 {
            0x90
        } else if k == 8 {
            0xC2
        } else if k >= 9 {
            0x7F
        } else {
            0x80
        }
    }
}

/// The per-index maximum byte of the range table, with the lookup's
/// high-bit zeroing.
fn range_max_lookup(idx: u8) -> (r: u8)
    ensures
        sgn(r as int) == rmax_of(idx as int),
{
    if idx >= 128 {
        0
    } else {
        let k = low_nibble(idx);
        if k == 0 {
            0x7F
        } else if k == 5 {
            0x9F
        } else if k == 7 {
            0x8F
        } else if k == 8 {
            0xF4
        } else if k >= 9 {
            0x80
        } else {
            0xBF
        }
    }
}

/// One lane of the range check: assemble the byte's range index from its
/// four-byte window and compare against the `[min, max]` table, exactly
/// as the vector passes do.
fn lane_error_at(bytes: &[u8], i: usize) -> (r: bool)
    requires
        i < bytes@.len(),
    ensures
        r == r_err(bytes@, i as int),
{
    let b0 = bytes[i];
    let b1 = if i >= 1 {
        bytes[i - 1]
    } else {
        0
    };
    let b2 = if i >= 2 {
        bytes[i - 2]
    } else {
        0
    };
    let b3 = if i >= 3 {
        bytes[i - 3]
    } else {
        0
    };
    // The byte's own class and the three tapered classes behind it.
    let fr: u8 = if high_nibble(b0) >= 12 {
        8
    } else {
        0
    };
    let fl1 = first_len_byte(b1);
    let fl2 = saturating_sub(first_len_byte(b2), 1);
    let fl3 = saturating_sub(first_len_byte(b3), 2);
    let base: u8 = ((fr | fl1) | fl2) | fl3;
    // The adjustment for a special byte one back, via the two small
    // tables over the EF-rebased previous byte.
    let pos = wrapping_add(b1, 17);
    let t1 = saturating_sub(pos, 240);
    let a1: u8 = if t1 >= 128 {
        0
    } else {
        let k = low_nibble(t1);
        if k == 1 {
            2
        } else if k == 14 {
            3
        } else {
            0
        }
    };
    let t2 = saturating_add(pos, 112);
    let a2: u8 = if t2 >= 128 {
        0
    } else {
        let k = low_nibble(t2);
        if k == 1 {
            3
        } else if k == 5 {
            4
        } else {
            0
        }
    };
    let adj = wrapping_add(a1, a2);
    let idx = wrapping_add(base, adj);
    let minv = range_min_lookup(idx);
    let maxv = range_max_lookup(idx);
    proof {
        assert(tb(bytes@, i as int) == b0);
        assert(tb(bytes@, i as int - 1) == b1);
        assert(tb(bytes@, i as int - 2) == b2);
        assert(tb(bytes@, i as int - 3) == b3);
        assert(base as int == range_base(bytes@, i as int));
        assert(a1 as int == adj1_of(b1));
        assert(a2 as int == adj2_of(b1));
        assert(idx as int == range_idx(bytes@, i as int));
    }
    signed_gt(minv, b0) || signed_gt(b0, maxv)
}

/// The range-table validator at lane width `w`: check every byte of the
/// full chunks by its windowed range index, then rewind to the last open
/// lead and hand the tail to the byte-by-byte validator.
pub fn is_utf8_at_width(bytes: &[u8], w: usize) -> (r: bool)
    requires
        4 <= w,
    ensures
        r == is_utf8_seq(bytes@),
{
    let len = bytes.len();
    let ghost s = bytes@;
    if len < w {
        return crate::libcore::is_utf8(bytes);
    }
    let n_vec = len - (len % w);
    proof {
        vstd::arithmetic::div_mod::lemma_mod_bound(len as int, w as int);
        vstd::arithmetic::div_mod::lemma_fundamental_div_mod(len as int, w as int);
        assert(n_vec as int == (w as int) * (len as int / w as int));
        assert((w as int) * (len as int / w as int) >= w) by (nonlinear_arith)
            requires
                len as int / w as int >= 1,
                w >= 4,
        ;
        assert(len as int / w as int >= 1) by (nonlinear_arith)
            requires
                len as int == (w as int) * (len as int / w as int) + len as int % (w as int),
                len >= w,
                0 <= len as int % (w as int) < w,
                w >= 4,
        ;
    }
    let mut i: usize = 0;
    let mut has_err = false;
    while i < n_vec
        invariant
            n_vec <= len,
            len == s.len(),
            s == bytes@,
            0 <= i <= n_vec,
            has_err <==> exists|k: int| 0 <= k < i && r_err(s, k),
        decreases n_vec - i,
    {
        let e = lane_error_at(bytes, i);
        proof {
            if e {
                assert(r_err(s, i as int));
            }
        }
        has_err = has_err || e;
        i = i + 1;
    }
    if has_err {
        proof {
            // A clean run fires no check, so some byte must be bad.
            let k = choose|k: int| 0 <= k < n_vec && r_err(s, k);
            if is_utf8_seq(s) {
                crate::utf8::lemma_utf8_implies_accept(s);
                assert(s.take(s.len() as int) =~= s);
                crate::utf8::lemma_clean_prefix(s, k + 1, s.len() as int);
                proofs::lemma_range_clean_no_err(s, k);
                assert(false);
            }
        }
        return false;
    }
    proof {
        // No check fired, so the acceptor survives the checked span.
        if !mrun(s.take(n_vec as int)).ok {
            assert(s.take(n_vec as int).take(n_vec as int) =~= s.take(n_vec as int));
            let k = crate::lemire::proofs::lemma_first_fail(s, n_vec as int);
            proofs::lemma_range_fail_err(s, k);
            assert(false);
        }
    }
    // Rewind to the last byte that could have begun an open sequence.
    let la: usize = if signed_gt(bytes[n_vec - 1], 0xBF) {
        1
    } else if signed_gt(bytes[n_vec - 2], 0xBF) {
        2
    } else if signed_gt(bytes[n_vec - 3], 0xBF) {
        3
    } else {
        0
    };
    proof {
        assert(forall|b: u8| (sgn(b as int) > sgn(0xBF)) == noncont(b));
        proofs::lemma_lookahead_boundary(s, n_vec as int, la as int);
        crate::utf8::lemma_boundary_split(s, n_vec as int - la as int);
    }
    let start = n_vec - la;
    let mut tail: Vec<u8> = Vec::new();
    let mut k: usize = 0;
    while k < len - start
        invariant
            start <= len,
            len == s.len(),
            s == bytes@,
            0 <= k <= len - start,
            tail@.len() == k,
            forall|m: int| 0 <= m < k ==> tail@[m] == s[start + m],
        decreases len - start - k,
    {
        tail.push(bytes[start + k]);
        k = k + 1;
    }
    proof {
        assert(tail@ =~= s.skip(start as int));
    }
    crate::libcore::is_utf8(tail.as_slice())
}

} // verus!
