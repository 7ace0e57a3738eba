//! Lane-level model of the range-table validator.
//!
//! Each byte receives a range index assembled by OR-ing four windowed
//! contributions: its own high nibble's class, and the tapered length
//! classes of the one, two and three preceding bytes.  Two small tables
//! patch the index for the byte right after E0, ED, F0 or F4.  The byte is
//! then compared, as a signed byte, against a per-index `[min, max]`
//! table whose indices nine and up are deliberately impossible.

use vstd::prelude::*;

use crate::lemire::model::{nib, sgn, ssub, wrap8};

verus! {

/// The byte at position `k`, with zero standing in before the start.
pub open spec fn tb(t: Seq<u8>, k: int) -> u8 {
    if k < 0 || k >= t.len() {
        0
    } else {
        t[k]
    }
}

/// Legal sequence length minus one, from the high nibble: 1 for C0..DF,
/// 2 for E0..EF, 3 for F0..FF, otherwise 0.
pub open spec fn first_len_of(b: u8) -> int {
    if nib(b) == 12 || nib(b) == 13 {
        1
    } else if nib(b) == 14 {
        2
    } else if nib(b) == 15 {
        3
    } else {
        0
    }
}

/// Range index 8 for every byte at or above C0, 0 otherwise.
pub open spec fn first_range_of(b: u8) -> int {
    if nib(b) >= 12 {
        8
    } else {
        0
    }
}

/// Bitwise OR of two byte-sized values.
pub open spec fn or8(a: int, b: int) -> int {
    ((a as u8) | (b as u8)) as int
}

/// Saturating byte addition.
pub open spec fn sadd(a: int, b: int) -> int {
    if a + b > 255 {
        255
    } else {
        a + b
    }
}

/// The shifted byte re-based at EF, as the adjustment pass computes it.
pub open spec fn pos_of(b: u8) -> int {
    wrap8(b as int + 17)
}

/// First adjustment table: 2 for a preceding E0, 3 for a preceding ED
/// (the lookup keeps only indices whose high bit is clear).
pub open spec fn adj1_of(b: u8) -> int {
    let x = ssub(pos_of(b), 240);
    if x >= 128 {
        0
    } else if x % 16 == 1 {
        2
    } else if x % 16 == 14 {
        3
    } else {
        0
    }
}

/// Second adjustment table: 3 for a preceding F0, 4 for a preceding F4.
pub open spec fn adj2_of(b: u8) -> int {
    let x = sadd(pos_of(b), 112);
    if x >= 128 {
        0
    } else if x % 16 == 1 {
        3
    } else if x % 16 == 5 {
        4
    } else {
        0
    }
}

/// The OR-assembled base range index of position `i`.
pub open spec fn range_base(t: Seq<u8>, i: int) -> int {
    or8(
        or8(
            or8(first_range_of(tb(t, i)), first_len_of(tb(t, i - 1))),
            ssub(first_len_of(tb(t, i - 2)), 1),
        ),
        ssub(first_len_of(tb(t, i - 3)), 2),
    )
}

/// The final range index: the base plus the adjustment for a special
/// byte one back.
pub open spec fn range_idx(t: Seq<u8>, i: int) -> int {
    wrap8(range_base(t, i) + wrap8(adj1_of(tb(t, i - 1)) + adj2_of(tb(t, i - 1))))
}

/// The per-index minimum, as a signed byte value.
pub open spec fn rmin_of(idx: int) -> int {
    if idx >= 128 {
        0
    } else {
        let k = idx % 16;
        if k == 0 {
            0
        } else if k == 4 {
            sgn(0xA0)
        } else if k == 6 {
            sgn(0x90)
        } else if k == 8 {
            sgn(0xC2)
        } else if k >= 9 {
            127
        } else {
            -128
        }
    }
}

/// The per-index maximum, as a signed byte value.
pub open spec fn rmax_of(idx: int) -> int {
    if idx >= 128 {
        0
    } else {
        let k = idx % 16;
        if k == 0 {
            127
        } else if k == 5 {
            sgn(0x9F)
        } else if k == 7 {
            sgn(0x8F)
        } else if k == 8 {
            sgn(0xF4)
        } else if k >= 9 {
            -128
        } else {
            sgn(0xBF)
        }
    }
}

/// The range check fires at position `i`: the byte falls outside its
/// index's bounds, read as signed bytes.
pub open spec fn r_err(t: Seq<u8>, i: int) -> bool {
    sgn(tb(t, i) as int) < rmin_of(range_idx(t, i)) || sgn(tb(t, i) as int) > rmax_of(
        range_idx(t, i),
    )
}

/// A byte that cannot continue a sequence: ASCII or a lead-range byte.
pub open spec fn noncont(b: u8) -> bool {
    b < 0x80 || b > 0xBF
}

} // verus!
