//! The byte-by-byte reference validator.
//!
//! A single forward pass with an explicit running state: how many
//! continuation bytes the open sequence still expects, and the lower and
//! upper bound the next byte must fall in.  The bounds are narrowed right
//! after the lead bytes E0, ED, F0 and F4, which rejects overlong encodings,
//! surrogates and code points beyond U+10FFFF without a code-point
//! accumulator.
//!
//! The vectorized validators in this crate delegate their final partial
//! chunk to this function, and every one of them is proved to agree with it.

use vstd::prelude::*;

use crate::utf8::{
    cont_hi, cont_lo, is_utf8_seq, lead_len, lemma_machine_characterizes_utf8,
    lemma_mrun_take_step, lemma_prefix_dead, m_accepts, mrun, mstep,
};

verus! {

/// Returns whether `bytes` is well-formed UTF-8, one byte at a time.
pub fn is_utf8(bytes: &[u8]) -> (r: bool)
    ensures
        r == is_utf8_seq(bytes@),
{
    let ghost s = bytes@;
    let n = bytes.len();
    let mut remaining: u8 = 0;
    let mut lower: u8 = 0x80;
    let mut upper: u8 = 0xBF;
    let mut i: usize = 0;
    proof {
        lemma_machine_characterizes_utf8(s);
        assert(s.take(0) =~= Seq::<u8>::empty());
    }
    while i < n
        invariant
            s == bytes@,
            n == s.len(),
            0 <= i <= n,
            mrun(s.take(i as int)).ok,
            remaining <= 3,
            remaining == 0 <==> mrun(s.take(i as int)).pend.len() == 0,
            mrun(s.take(i as int)).pend.len() >= 1 ==> {
                let p = mrun(s.take(i as int)).pend;
                &&& remaining == lead_len(p[0]) - p.len()
                &&& (p.len() == 1 ==> lower == cont_lo(p[0]) && upper == cont_hi(p[0]))
                &&& (p.len() >= 2 ==> lower == 0x80 && upper == 0xBF)
            },
            m_accepts(s) <==> is_utf8_seq(s),
        decreases n - i,
    {
        let b = bytes[i];
        proof {
            lemma_mrun_take_step(s, i as int);
        }
        let ghost st = mrun(s.take(i as int));
        if remaining == 0 {
            if b < 0x80 {
                // ASCII: stays at a sequence boundary.
            } else if 0xC2 <= b && b <= 0xDF {
                remaining = 1;
                lower = 0x80;
                upper = 0xBF;
            } else if b == 0xE0 {
                remaining = 2;
                lower = 0xA0;
                upper = 0xBF;
            } else if b == 0xED {
                remaining = 2;
                lower = 0x80;
                upper = 0x9F;
            } else if 0xE0 <= b && b <= 0xEF {
                remaining = 2;
                lower = 0x80;
                upper = 0xBF;
            } else if b == 0xF0 {
                remaining = 3;
                lower = 0x90;
                upper = 0xBF;
            } else if b == 0xF4 {
                remaining = 3;
                lower = 0x80;
                upper = 0x8F;
            } else if 0xF1 <= b && b <= 0xF3 {
                remaining = 3;
                lower = 0x80;
                upper = 0xBF;
            } else {
                proof {
                    assert(!mstep(st, b).ok);
                    lemma_prefix_dead(s, i + 1);
                }
                return false;
            }
        } else {
            if lower <= b && b <= upper {
                remaining = remaining - 1;
                lower = 0x80;
                upper = 0xBF;
            } else {
                proof {
                    assert(!mstep(st, b).ok);
                    lemma_prefix_dead(s, i + 1);
                }
                return false;
            }
        }
        i = i + 1;
    }
    proof {
        assert(s.take(n as int) =~= s);
    }
    if remaining == 0 {
        true
    } else {
        false
    }
}

} // verus!
