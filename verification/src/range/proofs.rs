//! Correctness of the range-table model.
//!
//! The range index of a position is assembled from a four-byte window, so
//! no cross-chunk recursion is needed: for every position the byte-at-a-
//! time acceptor survives, the window contributions collapse to a single
//! marker and the byte sits inside its table bounds; at the first byte
//! the acceptor rejects, the assembled index pins the byte outside them.

use vstd::prelude::*;

use crate::lemire::model::{nib, sgn, ssub, wrap8};
use crate::range::model::{
    adj1_of, adj2_of, first_len_of, first_range_of, noncont, or8, pos_of, r_err, range_base,
    range_idx, rmax_of, rmin_of, sadd, tb,
};
use crate::utf8::{
    cont_hi, cont_lo, is_cont, is_lead, lead_len, lemma_clean_prefix, lemma_mrun_take_step,
    lemma_pend_wf, mrun, mstep, m_init, MachineState,
};

verus! {

/// The bitwise OR facts the index assembly needs.
proof fn lemma_or8(a: u8, b: u8)
    ensures
        b == 0 ==> or8(a as int, b as int) == a,
        a == 0 ==> or8(a as int, b as int) == b,
        (a == 8 && b < 8) ==> or8(a as int, b as int) == 8 + b,
{
    assert((b == 0 ==> (a | b) == a) && (a == 0 ==> (a | b) == b) && ((a == 8 && b < 8) ==> (a
        | b) == a + b)) by (bit_vector);
}

/// What the window looks like at a position the acceptor has reached:
/// the three tapered length classes behind `i` collapse to the single
/// marker of the open sequence, and the adjustment matches the open
/// lead.  Everything is keyed by the pending bytes before `i`.
#[verifier::rlimit(100)]
proof fn lemma_window(t: Seq<u8>, i: int)
    requires
        0 <= i < t.len(),
        mrun(t.take(i)).ok,
    ensures
        mrun(t.take(i)).pend.len() == 0 ==> range_idx(t, i) == first_range_of(tb(t, i)),
        mrun(t.take(i)).pend.len() == 1 ==> {
            let lead = mrun(t.take(i)).pend[0];
            range_idx(t, i) == wrap8(
                or8(first_range_of(tb(t, i)), lead_len(lead) - 1) + wrap8(
                    adj1_of(lead) + adj2_of(lead),
                ),
            ) && tb(t, i - 1) == lead
        },
        mrun(t.take(i)).pend.len() == 2 ==> range_idx(t, i) == or8(
            first_range_of(tb(t, i)),
            lead_len(mrun(t.take(i)).pend[0]) - 2,
        ),
        mrun(t.take(i)).pend.len() == 3 ==> range_idx(t, i) == or8(first_range_of(tb(t, i)), 1),
{
    let q = mrun(t.take(i)).pend;
    lemma_pend_wf(t.take(i));
    if i >= 1 {
        lemma_clean_prefix(t, i - 1, i);
        lemma_mrun_take_step(t, i - 1);
        lemma_pend_wf(t.take(i - 1));
    }
    if i >= 2 {
        lemma_clean_prefix(t, i - 2, i);
        lemma_mrun_take_step(t, i - 2);
        lemma_pend_wf(t.take(i - 2));
    }
    if i >= 3 {
        lemma_clean_prefix(t, i - 3, i);
        lemma_mrun_take_step(t, i - 3);
        lemma_pend_wf(t.take(i - 3));
    }
    let b0 = tb(t, i);
    let b1 = tb(t, i - 1);
    let b2 = tb(t, i - 2);
    let b3 = tb(t, i - 3);
    let fr: u8 = first_range_of(b0) as u8;
    // Work out the three shifted contributions from the pending state.
    if q.len() == 0 {
        if i >= 1 {
            let q1 = mrun(t.take(i - 1)).pend;
            if q1.len() == 0 {
                assert(b1 < 0x80);
            } else {
                assert(is_cont(b1));
                assert(q1.len() + 1 == lead_len(q1[0]));
            }
            assert(first_len_of(b1) == 0);
        }
        if i >= 2 {
            let q1 = mrun(t.take(i - 1)).pend;
            let q2 = mrun(t.take(i - 2)).pend;
            // Whatever b2 was, any sequence it opened has closed by i,
            // so its length class is at most 1.
            if q2.len() == 0 {
                if is_lead(b2) {
                    assert(q1 == seq![b2]);
                    assert(q1.len() + 1 == lead_len(q1[0]));
                    assert(first_len_of(b2) == 1);
                } else {
                    assert(b2 < 0x80);
                    assert(first_len_of(b2) == 0);
                }
            } else {
                assert(is_cont(b2));
                assert(first_len_of(b2) == 0);
            }
            assert(ssub(first_len_of(b2), 1) == 0);
        }
        if i >= 3 {
            let q1 = mrun(t.take(i - 1)).pend;
            let q2 = mrun(t.take(i - 2)).pend;
            let q3 = mrun(t.take(i - 3)).pend;
            if q3.len() == 0 {
                if is_lead(b3) {
                    assert(q2 == seq![b3]);
                    if lead_len(b3) == 2 {
                        assert(q1.len() == 0);
                        assert(first_len_of(b3) == 1);
                    } else {
                        assert(q1 == q2.push(t[i - 2]));
                        assert(q1.len() == 2);
                        assert(q1.len() + 1 == lead_len(q1[0]));
                        assert(lead_len(b3) == 3);
                        assert(first_len_of(b3) == 2);
                    }
                } else {
                    assert(b3 < 0x80);
                    assert(first_len_of(b3) == 0);
                }
            } else {
                assert(is_cont(b3));
                assert(first_len_of(b3) == 0);
            }
            assert(first_len_of(b3) <= 2);
            assert(ssub(first_len_of(b3), 2) == 0);
        }
        assert(i >= 1 ==> b1 <= 0xBF);
        assert(adj1_of(b1) == 0 && adj2_of(b1) == 0);
        lemma_or8(fr, 0);
        assert(range_base(t, i) == first_range_of(b0));
        assert(first_range_of(b0) <= 8);
        assert(range_idx(t, i) == first_range_of(b0));
    } else if q.len() == 1 {
        let lead = q[0];
        assert(i >= 1);
        // The single pending byte is the byte just before `i`.
        let q1 = mrun(t.take(i - 1)).pend;
        if q1.len() != 0 {
            assert(q == q1.push(t[i - 1]) || q.len() == 0);
            assert(false);
        }
        assert(q == seq![t[i - 1]]);
        assert(b1 == lead);
        assert(is_lead(lead));
        assert(first_len_of(lead) == lead_len(lead) - 1);
        if i >= 2 {
            let q2 = mrun(t.take(i - 2)).pend;
            if q2.len() == 0 {
                if is_lead(b2) {
                    assert(q1 == seq![b2]);
                    assert(false);
                }
                assert(first_len_of(b2) == 0);
            } else {
                assert(is_cont(b2));
                assert(first_len_of(b2) == 0);
            }
        }
        if i >= 3 {
            let q2 = mrun(t.take(i - 2)).pend;
            let q3 = mrun(t.take(i - 3)).pend;
            if q3.len() == 0 {
                if is_lead(b3) {
                    assert(q2 == seq![b3]);
                    assert(lead_len(b3) == 2);
                    assert(first_len_of(b3) == 1);
                } else {
                    assert(b3 < 0x80);
                    assert(first_len_of(b3) == 0);
                }
            } else {
                assert(is_cont(b3));
                assert(first_len_of(b3) == 0);
            }
            assert(ssub(first_len_of(b3), 2) == 0);
        }
        let fl1: u8 = (lead_len(lead) - 1) as u8;
        lemma_or8(fr, fl1);
        lemma_or8(or8(fr as int, fl1 as int) as u8, 0);
        assert(range_base(t, i) == or8(first_range_of(b0), lead_len(lead) - 1));
    } else if q.len() == 2 {
        let lead = q[0];
        assert(i >= 2);
        let q1 = mrun(t.take(i - 1)).pend;
        if q1.len() != 1 {
            assert(false);
        }
        assert(q == q1.push(t[i - 1]));
        assert(q1 == seq![t[i - 2]]);
        assert(b2 == lead);
        assert(is_cont(b1));
        assert(first_len_of(b1) == 0);
        assert(3 <= lead_len(lead) <= 4);
        assert(ssub(first_len_of(b2), 1) == lead_len(lead) - 2);
        if i >= 3 {
            let q3 = mrun(t.take(i - 3)).pend;
            if q3.len() == 0 {
                if is_lead(b3) {
                    assert(q1.len() >= 1 && mrun(t.take(i - 2)).pend == seq![b3]);
                    assert(false);
                }
                assert(first_len_of(b3) == 0);
            } else {
                assert(is_cont(b3));
                assert(first_len_of(b3) == 0);
            }
        }
        let fl2: u8 = (lead_len(lead) - 2) as u8;
        lemma_or8(fr, 0);
        lemma_or8(fr, fl2);
        lemma_or8(or8(fr as int, fl2 as int) as u8, 0);
        assert(range_base(t, i) == or8(first_range_of(b0), lead_len(lead) - 2));
        assert(b1 <= 0xBF);
        assert(adj1_of(b1) == 0 && adj2_of(b1) == 0);
        assert(or8(first_range_of(b0), lead_len(lead) - 2) <= 11);
        assert(range_idx(t, i) == range_base(t, i));
    } else {
        assert(q.len() == 3);
        let lead = q[0];
        assert(lead_len(lead) == 4);
        assert(i >= 3);
        let q1 = mrun(t.take(i - 1)).pend;
        let q2 = mrun(t.take(i - 2)).pend;
        if q1.len() != 2 {
            assert(false);
        }
        if q2.len() != 1 {
            assert(false);
        }
        assert(q1 == q2.push(t[i - 2]));
        assert(q2 == seq![t[i - 3]]);
        assert(b3 == lead);
        assert(is_cont(b1) && is_cont(b2));
        assert(first_len_of(b1) == 0 && first_len_of(b2) == 0);
        assert(first_len_of(b3) == 3);
        assert(ssub(first_len_of(b3), 2) == 1);
        lemma_or8(fr, 0);
        lemma_or8(fr, 1);
        lemma_or8(or8(fr as int, 0) as u8, 1);
        assert(range_base(t, i) == or8(first_range_of(b0), 1));
        assert(b1 <= 0xBF);
        assert(adj1_of(b1) == 0 && adj2_of(b1) == 0);
        assert(or8(first_range_of(b0), 1) <= 11);
        assert(range_idx(t, i) == range_base(t, i));
    }
}

/// At a position the acceptor survives, the byte sits inside its range
/// index's bounds.
#[verifier::rlimit(100)]
pub proof fn lemma_range_clean_no_err(t: Seq<u8>, i: int)
    requires
        0 <= i < t.len(),
        mrun(t.take(i + 1)).ok,
    ensures
        !r_err(t, i),
{
    lemma_clean_prefix(t, i, i + 1);
    lemma_mrun_take_step(t, i);
    lemma_pend_wf(t.take(i));
    lemma_window(t, i);
    let q = mrun(t.take(i)).pend;
    let b0 = tb(t, i);
    if q.len() == 0 {
        if b0 < 0x80 {
            assert(range_idx(t, i) == 0);
        } else {
            assert(is_lead(b0));
            assert(range_idx(t, i) == 8);
        }
    } else if q.len() == 1 {
        let lead = q[0];
        let m = lead_len(lead);
        assert(cont_lo(lead) <= b0 && b0 <= cont_hi(lead));
        assert(is_cont(b0));
        assert(nib(b0) < 12);
        assert(first_range_of(b0) == 0);
        lemma_or8(0, (m - 1) as u8);
        if lead == 0xE0 {
            assert(pos_of(lead) == 241);
            assert(adj1_of(lead) == 2 && adj2_of(lead) == 0);
            assert(range_idx(t, i) == 4);
        } else if lead == 0xED {
            assert(pos_of(lead) == 254);
            assert(adj1_of(lead) == 3 && adj2_of(lead) == 0);
            assert(range_idx(t, i) == 5);
        } else if lead == 0xF0 {
            assert(pos_of(lead) == 1);
            assert(adj1_of(lead) == 0 && adj2_of(lead) == 3);
            assert(range_idx(t, i) == 6);
        } else if lead == 0xF4 {
            assert(pos_of(lead) == 5);
            assert(adj1_of(lead) == 0 && adj2_of(lead) == 4);
            assert(range_idx(t, i) == 7);
        } else {
            assert(adj1_of(lead) == 0 && adj2_of(lead) == 0);
            assert(range_idx(t, i) == m - 1);
        }
    } else if q.len() == 2 {
        assert(is_cont(b0));
        assert(first_range_of(b0) == 0);
        lemma_or8(0, (lead_len(q[0]) - 2) as u8);
        assert(range_idx(t, i) == lead_len(q[0]) - 2);
    } else {
        assert(is_cont(b0));
        assert(first_range_of(b0) == 0);
        lemma_or8(0, 1);
        assert(range_idx(t, i) == 1);
    }
}

/// At the first position the acceptor rejects, the byte falls outside
/// its range index's bounds.
#[verifier::rlimit(100)]
pub proof fn lemma_range_fail_err(t: Seq<u8>, i: int)
    requires
        0 <= i < t.len(),
        mrun(t.take(i)).ok,
        !mrun(t.take(i + 1)).ok,
    ensures
        r_err(t, i),
{
    lemma_mrun_take_step(t, i);
    lemma_pend_wf(t.take(i));
    lemma_window(t, i);
    let q = mrun(t.take(i)).pend;
    let b0 = tb(t, i);
    if q.len() == 0 {
        assert(!(b0 < 0x80) && !is_lead(b0));
        if b0 <= 0xBF {
            assert(nib(b0) < 12);
            assert(range_idx(t, i) == 0);
            assert(sgn(b0 as int) < 0);
        } else {
            assert(nib(b0) >= 12);
            assert(range_idx(t, i) == 8);
            if b0 <= 0xC1 {
                assert(sgn(b0 as int) < sgn(0xC2));
            } else {
                assert(b0 >= 0xF5);
                assert(sgn(b0 as int) > sgn(0xF4));
            }
        }
    } else if q.len() == 1 {
        let lead = q[0];
        let m = lead_len(lead);
        assert(!(cont_lo(lead) <= b0 && b0 <= cont_hi(lead)));
        let adj = wrap8(adj1_of(lead) + adj2_of(lead));
        if lead == 0xE0 {
            assert(pos_of(lead) == 241);
            assert(adj == 2);
        } else if lead == 0xED {
            assert(pos_of(lead) == 254);
            assert(adj == 3);
        } else if lead == 0xF0 {
            assert(pos_of(lead) == 1);
            assert(adj == 3);
        } else if lead == 0xF4 {
            assert(pos_of(lead) == 5);
            assert(adj == 4);
        } else {
            assert(adj == 0);
        }
        if is_cont(b0) {
            // A continuation outside a narrowed bound.
            assert(first_range_of(b0) == 0);
            lemma_or8(0, (m - 1) as u8);
            if lead == 0xE0 {
                assert(range_idx(t, i) == 4);
                assert(b0 < 0xA0);
                assert(sgn(b0 as int) < sgn(0xA0));
            } else if lead == 0xED {
                assert(range_idx(t, i) == 5);
                assert(b0 > 0x9F);
                assert(sgn(b0 as int) > sgn(0x9F));
            } else if lead == 0xF0 {
                assert(range_idx(t, i) == 6);
                assert(b0 < 0x90);
                assert(sgn(b0 as int) < sgn(0x90));
            } else if lead == 0xF4 {
                assert(range_idx(t, i) == 7);
                assert(b0 > 0x8F);
                assert(sgn(b0 as int) > sgn(0x8F));
            } else {
                assert(false);
            }
        } else {
            if b0 < 0x80 {
                assert(first_range_of(b0) == 0);
                lemma_or8(0, (m - 1) as u8);
                assert(range_idx(t, i) == wrap8((m - 1) + adj));
                assert(2 <= m <= 4 && adj <= 4);
                assert(rmax_of(wrap8((m - 1) + adj)) < 0);
                assert(sgn(b0 as int) >= 0);
            } else {
                assert(b0 >= 0xC0);
                assert(first_range_of(b0) == 8);
                lemma_or8(8, (m - 1) as u8);
                assert(range_idx(t, i) == wrap8(8 + (m - 1) + adj));
                assert(9 <= 8 + (m - 1) + adj <= 15);
                assert(rmin_of(wrap8(8 + (m - 1) + adj)) == 127);
                assert(sgn(b0 as int) < 127);
            }
        }
    } else {
        let v: int = if q.len() == 2 {
            lead_len(q[0]) - 2
        } else {
            1
        };
        assert(1 <= v <= 2);
        assert(!is_cont(b0));
        if b0 < 0x80 {
            assert(first_range_of(b0) == 0);
            lemma_or8(0, v as u8);
            assert(range_idx(t, i) == v);
            assert(rmax_of(v) == sgn(0xBF));
            assert(sgn(b0 as int) >= 0 > sgn(0xBF));
        } else {
            assert(b0 >= 0xC0);
            assert(first_range_of(b0) == 8);
            lemma_or8(8, v as u8);
            assert(range_idx(t, i) == 8 + v);
            assert(rmin_of(8 + v) == 127);
            assert(sgn(b0 as int) < 127);
        }
    }
}

/// Where the lookahead rewind lands: at a position where no sequence is
/// open, so the scalar validator can take over.
#[verifier::rlimit(100)]
pub proof fn lemma_lookahead_boundary(s: Seq<u8>, n: int, la: int)
    requires
        4 <= n <= s.len(),
        mrun(s.take(n)).ok,
        la == (if noncont(s[n - 1]) {
            1int
        } else if noncont(s[n - 2]) {
            2int
        } else if noncont(s[n - 3]) {
            3int
        } else {
            0int
        }),
    ensures
        mrun(s.take(n - la)).ok,
        mrun(s.take(n - la)).pend.len() == 0,
{
    lemma_clean_prefix(s, n - 1, n);
    lemma_clean_prefix(s, n - 2, n);
    lemma_clean_prefix(s, n - 3, n);
    lemma_mrun_take_step(s, n - 1);
    lemma_mrun_take_step(s, n - 2);
    lemma_mrun_take_step(s, n - 3);
    lemma_pend_wf(s.take(n));
    lemma_pend_wf(s.take(n - 1));
    lemma_pend_wf(s.take(n - 2));
    lemma_pend_wf(s.take(n - 3));
    if noncont(s[n - 1]) {
        let q = mrun(s.take(n - 1)).pend;
        if q.len() != 0 {
            assert(crate::utf8::follow_ok(q, s[n - 1]));
            assert(false);
        }
    } else if noncont(s[n - 2]) {
        let q = mrun(s.take(n - 2)).pend;
        if q.len() != 0 {
            assert(crate::utf8::follow_ok(q, s[n - 2]));
            assert(false);
        }
    } else if noncont(s[n - 3]) {
        let q = mrun(s.take(n - 3)).pend;
        if q.len() != 0 {
            assert(crate::utf8::follow_ok(q, s[n - 3]));
            assert(false);
        }
    } else {
        let q = mrun(s.take(n)).pend;
        if q.len() == 1 {
            assert(mrun(s.take(n)) == mstep(mrun(s.take(n - 1)), s[n - 1]));
            assert(q == seq![s[n - 1]]);
            assert(is_lead(s[n - 1]));
            assert(false);
        } else if q.len() == 2 {
            let q1 = mrun(s.take(n - 1)).pend;
            if q1.len() != 1 {
                assert(false);
            }
            assert(q1 == seq![s[n - 2]]);
            assert(is_lead(s[n - 2]));
            assert(false);
        } else if q.len() == 3 {
            let q1 = mrun(s.take(n - 1)).pend;
            let q2 = mrun(s.take(n - 2)).pend;
            if q1.len() != 2 {
                assert(false);
            }
            if q2.len() != 1 {
                assert(false);
            }
            assert(q2 == seq![s[n - 3]]);
            assert(is_lead(s[n - 3]));
            assert(false);
        }
        assert(q.len() == 0);
    }
}

} // verus!
