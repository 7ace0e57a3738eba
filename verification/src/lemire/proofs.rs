//! Correctness of the continuation-length model.
//!
//! The proof tracks, for every position of the (padded) input that the
//! byte-at-a-time acceptor has survived, the exact value of the `sum` and
//! carried-continuation lanes.  Those values depend only on how far into a
//! sequence the position is and on whether the position sits in the first
//! two lanes of a chunk (where the shifted passes read the previous
//! chunk's carries instead of in-chunk values).  From that invariant both
//! directions follow: a clean position fires no check, and the first byte
//! the acceptor rejects fires one.

use vstd::prelude::*;

use crate::lemire::model::{
    car_at, chunk_of, clen, e_big, e_cont, e_max, e_overlong, lane_err, nib, pc_after,
    praw_after, prev_byte_at, sgn, ssub, sum_at, wrap8, zeros,
};
use crate::utf8::{
    cont_hi, cont_lo, is_cont, is_lead, lead_len, lemma_clean_prefix, lemma_mrun_take_step,
    lemma_pend_wf, mrun, mrun_from, mstep, m_init, MachineState,
};

verus! {

/// A value already below 256 is unchanged by the wrapping byte add.
pub proof fn lemma_wrap8_small(x: int)
    requires
        0 <= x < 256,
    ensures
        wrap8(x) == x,
{
    assert(x % 256 == x) by (nonlinear_arith)
        requires
            0 <= x < 256,
    ;
}

/// The `sum` lane value at lane `j` of chunk `c`.
pub open spec fn sum_pos(t: Seq<u8>, w: int, c: int, j: int) -> int {
    sum_at(pc_after(t, w, c - 1), chunk_of(t, w, c), w, j)
}

/// The carried-continuation lane value at lane `j` of chunk `c`.
pub open spec fn car_pos(t: Seq<u8>, w: int, c: int, j: int) -> int {
    car_at(pc_after(t, w, c - 1), chunk_of(t, w, c), w, j)
}

/// What the one-lane shift hands lane `j`: the previous lane's announced
/// length, or the previous chunk's last carried lane.
pub open spec fn y_of(t: Seq<u8>, w: int, c: int, j: int) -> int {
    if j == 0 {
        if c == 0 {
            0
        } else {
            car_pos(t, w, c - 1, w - 1)
        }
    } else {
        clen(t[c * w + j - 1])
    }
}

/// What the two-lane shift hands lane `j`: the in-chunk `sum` two lanes
/// back, or a lane of the previous chunk's carries.
pub open spec fn z_of(t: Seq<u8>, w: int, c: int, j: int) -> int {
    if j == 0 {
        if c == 0 {
            0
        } else {
            car_pos(t, w, c - 1, w - 2)
        }
    } else if j == 1 {
        if c == 0 {
            0
        } else {
            car_pos(t, w, c - 1, w - 1)
        }
    } else {
        sum_pos(t, w, c, j - 2)
    }
}

/// Carried lanes are the per-lane formula, read back from the vector.
pub proof fn lemma_pc_index(t: Seq<u8>, w: int, c: int, j: int)
    requires
        4 <= w,
        0 <= j < w,
        0 <= c,
    ensures
        0 <= car_pos(t, w, c, j) < 256,
        pc_after(t, w, c)[j] as int == car_pos(t, w, c, j),
{
    vstd::arithmetic::div_mod::lemma_mod_bound(
        sum_at(pc_after(t, w, c - 1), chunk_of(t, w, c), w, j) + ssub(
            if j == 0 {
                pc_after(t, w, c - 1)[w - 2] as int
            } else if j == 1 {
                pc_after(t, w, c - 1)[w - 1] as int
            } else {
                sum_at(pc_after(t, w, c - 1), chunk_of(t, w, c), w, j - 2)
            },
            2,
        ),
        256,
    );
}

/// The lane formulas, restated through [`y_of`] and [`z_of`].
pub proof fn lemma_shape(t: Seq<u8>, w: int, c: int, j: int)
    requires
        4 <= w,
        0 <= j < w,
        0 <= c,
        t.len() % (w as nat) == 0,
        c * w + j < t.len(),
    ensures
        0 <= c * w + j,
        c * w + w <= t.len(),
        chunk_of(t, w, c)[j] == t[c * w + j],
        sum_pos(t, w, c, j) == wrap8(clen(t[c * w + j]) + ssub(y_of(t, w, c, j), 1)),
        car_pos(t, w, c, j) == wrap8(sum_pos(t, w, c, j) + ssub(z_of(t, w, c, j), 2)),
{
    let i = c * w + j;
    assert(c * w >= 0) by (nonlinear_arith)
        requires
            c >= 0,
            w >= 4,
    ;
    assert(c * w + w <= t.len()) by (nonlinear_arith)
        requires
            c >= 0,
            w >= 4,
            0 <= j < w,
            c * w + j < t.len(),
            t.len() % (w as nat) == 0,
    ;
    assert((c - 1) * w == c * w - w) by (nonlinear_arith);
    assert((c + 1) * w == c * w + w) by (nonlinear_arith);
    assert(chunk_of(t, w, c)[j] == t[i]);
    if j >= 1 {
        assert(chunk_of(t, w, c)[j - 1] == t[i - 1]);
    }
    if c >= 1 {
        lemma_pc_index(t, w, c - 1, w - 1);
        lemma_pc_index(t, w, c - 1, w - 2);
    }
}

/// The value catalogue at a position the acceptor has survived, keyed by
/// how many bytes of a sequence are still open after it.  Lane 0 of a
/// chunk may run one or two high because the two-lane shift reads carries
/// (which can exceed the in-chunk `sum`) from the previous chunk; those
/// spots are catalogued exactly.
pub open spec fn inv_at(t: Seq<u8>, w: int, c: int, j: int) -> bool {
    let i = c * w + j;
    let p = mrun(t.take(i + 1)).pend;
    let s = sum_pos(t, w, c, j);
    let r = car_pos(t, w, c, j);
    &&& (p.len() == 0 ==> s <= 1 && 1 <= r <= 2 && (j != 0 ==> r == 1) && (t[i] < 0x80 ==> r
        == 1))
    &&& (p.len() == 1 ==> s == lead_len(p[0]) && r == lead_len(p[0]) && t[i] == p[0])
    &&& (p.len() == 2 ==> s == lead_len(p[0]) - 1 && r == lead_len(p[0]) - 1 && clen(t[i]) == 0
        && t[i - 1] == p[0])
    &&& (p.len() == 3 ==> (if j == 0 {
        s == 2 && r == 4
    } else {
        s == 0 && r == 2
    }) && clen(t[i]) == 0 && t[i - 2] == p[0] && lead_len(p[0]) == 4)
}

/// The catalogue entry of the position one before `(c, j)`; trivial when
/// there is none.
pub open spec fn inv_prev1(t: Seq<u8>, w: int, c: int, j: int) -> bool {
    if j >= 1 {
        inv_at(t, w, c, j - 1)
    } else if c >= 1 {
        inv_at(t, w, c - 1, w - 1)
    } else {
        true
    }
}

/// The catalogue entry of the position two before `(c, j)`; trivial when
/// there is none.
pub open spec fn inv_prev2(t: Seq<u8>, w: int, c: int, j: int) -> bool {
    if j >= 2 {
        inv_at(t, w, c, j - 2)
    } else if c >= 1 {
        if j == 1 {
            inv_at(t, w, c - 1, w - 1)
        } else {
            inv_at(t, w, c - 1, w - 2)
        }
    } else {
        true
    }
}

/// Shared bookkeeping of every case: bounds, the step that consumed
/// `t[i]`, and the steps one and two back.
proof fn lemma_case_setup(t: Seq<u8>, w: int, c: int, j: int)
    requires
        4 <= w,
        0 <= j < w,
        0 <= c,
        t.len() % (w as nat) == 0,
        c * w + j < t.len(),
        mrun(t.take(c * w + j + 1)).ok,
    ensures
        0 <= c * w + j,
        c >= 1 ==> (c - 1) * w == c * w - w && c * w >= w,
        chunk_of(t, w, c)[j] == t[c * w + j],
        sum_pos(t, w, c, j) == wrap8(clen(t[c * w + j]) + ssub(y_of(t, w, c, j), 1)),
        car_pos(t, w, c, j) == wrap8(sum_pos(t, w, c, j) + ssub(z_of(t, w, c, j), 2)),
        mrun(t.take(c * w + j)).ok,
        mrun(t.take(c * w + j + 1)) == mstep(mrun(t.take(c * w + j)), t[c * w + j]),
        mrun(t.take(c * w + j)).pend.len() <= 3,
        mrun(t.take(c * w + j)).pend.len() >= 1 ==> is_lead(mrun(t.take(c * w + j)).pend[0])
            && mrun(t.take(c * w + j)).pend.len() < lead_len(mrun(t.take(c * w + j)).pend[0]),
        c * w + j >= 1 ==> mrun(t.take(c * w + j - 1)).ok && mrun(t.take(c * w + j))
            == mstep(mrun(t.take(c * w + j - 1)), t[c * w + j - 1]) && mrun(
            t.take(c * w + j - 1),
        ).pend.len() <= 3,
{
    let i = c * w + j;
    lemma_shape(t, w, c, j);
    if c >= 1 {
        assert((c - 1) * w == c * w - w) by (nonlinear_arith);
        assert(c * w >= w) by (nonlinear_arith)
            requires
                c >= 1,
                w >= 4,
        ;
    }
    lemma_clean_prefix(t, i, i + 1);
    lemma_mrun_take_step(t, i);
    lemma_pend_wf(t.take(i));
    if i >= 1 {
        lemma_clean_prefix(t, i - 1, i + 1);
        lemma_mrun_take_step(t, i - 1);
        lemma_pend_wf(t.take(i - 1));
    }
}

/// Case: no sequence is open before `t[i]`, so `t[i]` is ASCII or a lead.
#[verifier::rlimit(100)]
#[verifier::spinoff_prover]
proof fn lemma_case_fresh(t: Seq<u8>, w: int, c: int, j: int)
    requires
        4 <= w,
        0 <= j < w,
        0 <= c,
        t.len() % (w as nat) == 0,
        c * w + j < t.len(),
        mrun(t.take(c * w + j + 1)).ok,
        mrun(t.take(c * w + j)).pend.len() == 0,
        inv_prev1(t, w, c, j),
        inv_prev2(t, w, c, j),
    ensures
        inv_at(t, w, c, j),
{
    let i = c * w + j;
    lemma_case_setup(t, w, c, j);
    let stb = mrun(t.take(i));
    let sta = mrun(t.take(i + 1));
    let yv = y_of(t, w, c, j);
    let zv = z_of(t, w, c, j);
    // The one-lane shift hands this lane at most 1.
    if j == 0 {
        if c >= 1 {
            assert(mrun(t.take(i - 1 + 1)).pend.len() == 0);
            assert(yv == 1);
        }
    } else {
        let q = mrun(t.take(i - 1)).pend;
        if q.len() == 0 {
            assert(t[i - 1] < 0x80);
            assert(yv == 1);
        } else {
            assert(is_cont(t[i - 1]));
            assert(yv == 0);
        }
    }
    assert(ssub(yv, 1) == 0);
    // The two-lane shift hands this lane at most 2.
    if i >= 2 && (j >= 2 || c >= 1) {
        let q = mrun(t.take(i - 1)).pend;
        assert(mrun(t.take(i - 2 + 1)).pend == q);
        if q.len() == 0 {
        } else {
            assert(q.len() + 1 == lead_len(q[0]));
        }
        assert(zv <= 2);
    } else {
        assert(zv == 0);
    }
    assert(ssub(zv, 2) == 0);
    assert(sum_pos(t, w, c, j) == clen(t[i]));
    assert(car_pos(t, w, c, j) == clen(t[i]));
    if t[i] < 0x80 {
        assert(sta.pend.len() == 0);
        assert(clen(t[i]) == 1);
    } else {
        assert(is_lead(t[i]));
        assert(sta.pend == seq![t[i]]);
        assert(clen(t[i]) == lead_len(t[i]));
    }
}

/// Case: exactly the lead byte is open, so `t[i]` is its first
/// continuation.
#[verifier::rlimit(100)]
#[verifier::spinoff_prover]
proof fn lemma_case_one(t: Seq<u8>, w: int, c: int, j: int)
    requires
        4 <= w,
        0 <= j < w,
        0 <= c,
        t.len() % (w as nat) == 0,
        c * w + j < t.len(),
        mrun(t.take(c * w + j + 1)).ok,
        mrun(t.take(c * w + j)).pend.len() == 1,
        inv_prev1(t, w, c, j),
        inv_prev2(t, w, c, j),
    ensures
        inv_at(t, w, c, j),
{
    let i = c * w + j;
    lemma_case_setup(t, w, c, j);
    let stb = mrun(t.take(i));
    let sta = mrun(t.take(i + 1));
    let lead = stb.pend[0];
    let m = lead_len(lead);
    assert(is_lead(lead) && 2 <= m <= 4);
    let yv = y_of(t, w, c, j);
    let zv = z_of(t, w, c, j);
    // A pending lead means the previous byte was that lead.
    assert(i >= 1);
    assert(mrun(t.take(i - 1 + 1)).pend == stb.pend);
    assert(t[i - 1] == lead);
    assert(clen(lead) == m);
    if j == 0 {
        assert(c >= 1) by (nonlinear_arith)
            requires
                c * w + j >= 1,
                j == 0,
                c >= 0,
                w >= 4,
        ;
        assert(inv_at(t, w, c - 1, w - 1));
        assert(mrun(t.take((c - 1) * w + (w - 1) + 1)).pend == stb.pend);
        assert(car_pos(t, w, c - 1, w - 1) == m);
    } else {
        assert(inv_at(t, w, c, j - 1));
    }
    assert(yv == m);
    // Two back, nothing was open (a lead can only start from a boundary).
    if i >= 2 && (j >= 2 || c >= 1) {
        let q = mrun(t.take(i - 1)).pend;
        if q.len() != 0 {
            assert(!mrun(t.take(i)).ok || mrun(t.take(i)).pend.len() != 1);
            assert(false);
        }
        assert(mrun(t.take(i - 2 + 1)).pend.len() == 0);
        assert(zv <= 2);
    } else {
        assert(zv == 0);
    }
    assert(ssub(zv, 2) == 0);
    // The byte itself is an in-range continuation.
    assert(cont_lo(lead) <= t[i] && t[i] <= cont_hi(lead));
    assert(is_cont(t[i]));
    assert(clen(t[i]) == 0);
    assert(sum_pos(t, w, c, j) == m - 1);
    assert(car_pos(t, w, c, j) == m - 1);
    if m == 2 {
        assert(sta.pend.len() == 0);
    } else {
        assert(sta.pend == stb.pend.push(t[i]));
        assert(sta.pend[0] == lead);
    }
}

/// Case: two bytes are open, so `t[i]` is the second continuation of a
/// three- or four-byte sequence.
#[verifier::rlimit(100)]
#[verifier::spinoff_prover]
proof fn lemma_case_two(t: Seq<u8>, w: int, c: int, j: int)
    requires
        4 <= w,
        0 <= j < w,
        0 <= c,
        t.len() % (w as nat) == 0,
        c * w + j < t.len(),
        mrun(t.take(c * w + j + 1)).ok,
        mrun(t.take(c * w + j)).pend.len() == 2,
        inv_prev1(t, w, c, j),
        inv_prev2(t, w, c, j),
    ensures
        inv_at(t, w, c, j),
{
    let i = c * w + j;
    lemma_case_setup(t, w, c, j);
    let stb = mrun(t.take(i));
    let sta = mrun(t.take(i + 1));
    let lead = stb.pend[0];
    let m = lead_len(lead);
    assert(3 <= m <= 4);
    let yv = y_of(t, w, c, j);
    let zv = z_of(t, w, c, j);
    assert(i >= 2);
    // One back: the first continuation, catalogued with value m - 1.
    assert(mrun(t.take(i - 1 + 1)).pend == stb.pend);
    // Its own previous byte is the lead: the pending pair arose by a push.
    let q = mrun(t.take(i - 1)).pend;
    if q.len() != 1 {
        assert(false);
    }
    assert(q == seq![lead]);
    assert(t[i - 1] == stb.pend[1]);
    assert(is_cont(t[i - 1]));
    assert(clen(t[i - 1]) == 0);
    if j == 0 {
        assert(c >= 1) by (nonlinear_arith)
            requires
                c * w + j >= 1,
                j == 0,
                c >= 0,
                w >= 4,
        ;
        assert(inv_prev1(t, w, c, j) == inv_at(t, w, c - 1, w - 1));
        assert(yv == m - 1);
    } else {
        assert(yv == 0);
    }
    // Two back: the lead itself, catalogued with value m.
    if j >= 2 || c >= 1 {
        assert(mrun(t.take(i - 2 + 1)).pend == q);
        assert(zv == m);
    } else {
        assert(i - 2 == c * w + j - 2 && j <= 1 && c == 0);
        assert(false);
    }
    assert(is_cont(t[i]));
    assert(clen(t[i]) == 0);
    assert(sum_pos(t, w, c, j) == if j == 0 { m - 2 } else { 0int });
    assert(car_pos(t, w, c, j) == (if j == 0 { m - 2 } else { 0int }) + (m - 2));
    if m == 3 {
        assert(sta.pend.len() == 0);
    } else {
        assert(sta.pend == stb.pend.push(t[i]));
        assert(sta.pend[0] == lead);
        assert(t[i - 2] == lead);
    }
}

/// Case: three bytes are open, so `t[i]` closes a four-byte sequence.
#[verifier::rlimit(100)]
#[verifier::spinoff_prover]
proof fn lemma_case_three(t: Seq<u8>, w: int, c: int, j: int)
    requires
        4 <= w,
        0 <= j < w,
        0 <= c,
        t.len() % (w as nat) == 0,
        c * w + j < t.len(),
        mrun(t.take(c * w + j + 1)).ok,
        mrun(t.take(c * w + j)).pend.len() == 3,
        inv_prev1(t, w, c, j),
        inv_prev2(t, w, c, j),
    ensures
        inv_at(t, w, c, j),
{
    let i = c * w + j;
    lemma_case_setup(t, w, c, j);
    let stb = mrun(t.take(i));
    let sta = mrun(t.take(i + 1));
    let lead = stb.pend[0];
    assert(lead_len(lead) == 4);
    let yv = y_of(t, w, c, j);
    let zv = z_of(t, w, c, j);
    assert(i >= 3);
    // One back: the second continuation.
    assert(mrun(t.take(i - 1 + 1)).pend == stb.pend);
    let q = mrun(t.take(i - 1)).pend;
    if q.len() != 2 {
        assert(false);
    }
    assert(q[0] == lead);
    assert(t[i - 1] == stb.pend[2]);
    assert(is_cont(t[i - 1]));
    assert(clen(t[i - 1]) == 0);
    if j == 0 {
        assert(c >= 1) by (nonlinear_arith)
            requires
                c * w + j >= 1,
                j == 0,
                c >= 0,
                w >= 4,
        ;
        assert(inv_prev1(t, w, c, j) == inv_at(t, w, c - 1, w - 1));
        assert(yv == 2);
    } else {
        assert(yv == 0);
    }
    // Two back: the first continuation, catalogued with value 3.
    if j >= 2 || c >= 1 {
        assert(mrun(t.take(i - 2 + 1)).pend == q);
        assert(zv == 3);
    } else {
        assert(false);
    }
    assert(is_cont(t[i]));
    assert(clen(t[i]) == 0);
    assert(sum_pos(t, w, c, j) == if j == 0 { 1int } else { 0int });
    assert(car_pos(t, w, c, j) == (if j == 0 { 1int } else { 0int }) + 1);
    assert(sta.pend.len() == 0);
}

/// The catalogue holds at every position the acceptor has survived.
#[verifier::rlimit(100)]
#[verifier::spinoff_prover]
pub proof fn lemma_inv(t: Seq<u8>, w: int, c: int, j: int)
    requires
        4 <= w,
        0 <= j < w,
        0 <= c,
        t.len() % (w as nat) == 0,
        c * w + j < t.len(),
        mrun(t.take(c * w + j + 1)).ok,
    ensures
        inv_at(t, w, c, j),
    decreases c, j,
{
    let i = c * w + j;
    lemma_case_setup(t, w, c, j);
    if i >= 1 {
        lemma_clean_prefix(t, i - 1, i + 1);
        if j == 0 {
            lemma_inv(t, w, c - 1, w - 1);
        } else {
            lemma_inv(t, w, c, j - 1);
        }
    }
    if i >= 2 && (j >= 2 || c >= 1) {
        lemma_clean_prefix(t, i - 2, i + 1);
        if j >= 2 {
            lemma_inv(t, w, c, j - 2);
        } else if j == 1 {
            lemma_inv(t, w, c - 1, w - 1);
        } else {
            lemma_inv(t, w, c - 1, w - 2);
        }
    }
    let pb = mrun(t.take(i)).pend;
    if pb.len() == 0 {
        lemma_case_fresh(t, w, c, j);
    } else if pb.len() == 1 {
        lemma_case_one(t, w, c, j);
    } else if pb.len() == 2 {
        lemma_case_two(t, w, c, j);
    } else {
        lemma_case_three(t, w, c, j);
    }
}

/// The byte the checks compare against one lane back, as a position of
/// `t` (byte 0 stands in before the first position).
pub open spec fn pbyte(t: Seq<u8>, i: int) -> u8 {
    if i == 0 {
        0
    } else {
        t[i - 1]
    }
}

/// The shifted byte lane is the previous byte of the stream.
pub(crate) proof fn lemma_prev_byte(t: Seq<u8>, w: int, c: int, j: int)
    requires
        4 <= w,
        0 <= j < w,
        0 <= c,
        t.len() % (w as nat) == 0,
        c * w + j < t.len(),
    ensures
        prev_byte_at(praw_after(t, w, c - 1), chunk_of(t, w, c), w, j) == pbyte(t, c * w + j),
{
    lemma_shape(t, w, c, j);
    if j == 0 {
        if c == 0 {
            assert(c * w == 0) by (nonlinear_arith)
                requires
                    c == 0,
            ;
            assert(zeros(w)[w - 1] == 0);
        } else {
            assert((c - 1) * w == c * w - w) by (nonlinear_arith);
            lemma_shape(t, w, c - 1, w - 1);
        }
    } else {
        lemma_shape(t, w, c, j - 1);
    }
}

/// At a position the acceptor survives, none of the four checks fires.
#[verifier::rlimit(100)]
#[verifier::spinoff_prover]
pub(crate) proof fn lemma_clean_no_err(t: Seq<u8>, w: int, c: int, j: int)
    requires
        4 <= w,
        0 <= j < w,
        0 <= c,
        t.len() % (w as nat) == 0,
        c * w + j < t.len(),
        mrun(t.take(c * w + j + 1)).ok,
    ensures
        !lane_err(praw_after(t, w, c - 1), pc_after(t, w, c - 1), chunk_of(t, w, c), w, j),
{
    let i = c * w + j;
    lemma_inv(t, w, c, j);
    lemma_case_setup(t, w, c, j);
    lemma_prev_byte(t, w, c, j);
    let stb = mrun(t.take(i));
    let sta = mrun(t.take(i + 1));
    let pb = stb.pend;
    // No byte above F4 survives, so the ceiling check is quiet.
    if pb.len() == 0 {
        assert(t[i] < 0x80 || is_lead(t[i]));
    } else {
        assert(is_cont(t[i]));
    }
    assert(!e_big(chunk_of(t, w, c), j));
    // The continuation accounting check is quiet: the catalogue value
    // disagrees with the announced length in exactly the right way.
    assert(!e_cont(pc_after(t, w, c - 1), chunk_of(t, w, c), w, j));
    // The ED/F4 follower checks and the overlong check are quiet: a
    // byte C0, C1, E0, ED, F0 or F4 one back forces a narrowed pending
    // sequence, and the current byte obeys the narrowed bounds.
    let pv = pbyte(t, i);
    if pv == 0xED || pv == 0xF4 || (0xC0 <= pv && pv <= 0xC1) || pv == 0xE0 || pv == 0xF0 {
        assert(i >= 1);
        let q = mrun(t.take(i - 1)).pend;
        if q.len() == 0 {
            if !is_lead(pv) {
                assert(!stb.ok);
                assert(false);
            }
            assert(pb == seq![pv]);
            assert(cont_lo(pv) <= t[i] && t[i] <= cont_hi(pv));
        } else {
            // A byte at or above C0 can never legally continue an open
            // sequence, yet the acceptor survived it.
            assert(crate::utf8::follow_ok(q, pv));
            assert(false);
        }
    }
    assert(!e_max(pv, t[i]));
    assert(!e_overlong(pv, t[i]));
}

/// After a clean prefix ending at a boundary, a C0 or C1 byte slips past
/// its own lane with the values of an ordinary two-byte lead.
#[verifier::rlimit(100)]
#[verifier::spinoff_prover]
pub(crate) proof fn lemma_c0c1_car(t: Seq<u8>, w: int, c: int, j: int)
    requires
        4 <= w,
        0 <= j < w,
        0 <= c,
        t.len() % (w as nat) == 0,
        c * w + j < t.len(),
        mrun(t.take(c * w + j)).ok,
        mrun(t.take(c * w + j)).pend.len() == 0,
        0xC0 <= t[c * w + j] && t[c * w + j] <= 0xC1,
    ensures
        sum_pos(t, w, c, j) == 2,
        car_pos(t, w, c, j) == 2,
{
    let i = c * w + j;
    lemma_shape(t, w, c, j);
    if c >= 1 {
        assert((c - 1) * w == c * w - w) by (nonlinear_arith);
        assert(c * w >= w) by (nonlinear_arith)
            requires
                c >= 1,
                w >= 4,
        ;
    }
    lemma_pend_wf(t.take(i));
    if i >= 1 {
        lemma_clean_prefix(t, i - 1, i);
        lemma_mrun_take_step(t, i - 1);
        lemma_pend_wf(t.take(i - 1));
        if j == 0 {
            lemma_inv(t, w, c - 1, w - 1);
        } else {
            lemma_inv(t, w, c, j - 1);
        }
    }
    if i >= 2 && (j >= 2 || c >= 1) {
        lemma_clean_prefix(t, i - 2, i);
        if j >= 2 {
            lemma_inv(t, w, c, j - 2);
        } else if j == 1 {
            lemma_inv(t, w, c - 1, w - 1);
        } else {
            lemma_inv(t, w, c - 1, w - 2);
        }
    }
    let yv = y_of(t, w, c, j);
    let zv = z_of(t, w, c, j);
    if j == 0 {
        if c >= 1 {
            assert(mrun(t.take(i - 1 + 1)).pend.len() == 0);
            assert(yv == 1);
        }
    } else {
        let q = mrun(t.take(i - 1)).pend;
        if q.len() == 0 {
            assert(t[i - 1] < 0x80);
            assert(yv == 1);
        } else {
            assert(is_cont(t[i - 1]));
            assert(yv == 0);
        }
    }
    if i >= 2 && (j >= 2 || c >= 1) {
        let q = mrun(t.take(i - 1)).pend;
        assert(mrun(t.take(i - 2 + 1)).pend == q);
        if q.len() == 0 {
        } else {
            assert(q.len() + 1 == lead_len(q[0]));
        }
        assert(zv <= 2);
    } else {
        assert(zv == 0);
    }
    assert(clen(t[i]) == 2);
    assert(sum_pos(t, w, c, j) == 2);
    assert(car_pos(t, w, c, j) == 2);
}

/// The byte after a C0 or C1 fires a check in its own lane: the overlong
/// check for everything but 7F, and the continuation accounting check for
/// 7F itself.
#[verifier::rlimit(100)]
#[verifier::spinoff_prover]
pub(crate) proof fn lemma_c0c1_next(t: Seq<u8>, w: int, c: int, j: int, c2: int, j2: int)
    requires
        4 <= w,
        0 <= j < w,
        0 <= c,
        t.len() % (w as nat) == 0,
        c * w + j + 1 < t.len(),
        mrun(t.take(c * w + j)).ok,
        mrun(t.take(c * w + j)).pend.len() == 0,
        0xC0 <= t[c * w + j] && t[c * w + j] <= 0xC1,
        if j + 1 < w {
            c2 == c && j2 == j + 1
        } else {
            c2 == c + 1 && j2 == 0
        },
    ensures
        lane_err(praw_after(t, w, c2 - 1), pc_after(t, w, c2 - 1), chunk_of(t, w, c2), w, j2),
{
    let i = c * w + j;
    lemma_c0c1_car(t, w, c, j);
    if c >= 1 {
        assert(c * w >= w) by (nonlinear_arith)
            requires
                c >= 1,
                w >= 4,
        ;
    }
    assert((c + 1) * w == c * w + w) by (nonlinear_arith);
    assert(c2 * w + j2 == i + 1);
    lemma_shape(t, w, c2, j2);
    lemma_prev_byte(t, w, c2, j2);
    if j2 == 0 {
        lemma_pc_index(t, w, c2 - 1, w - 1);
        lemma_pc_index(t, w, c2 - 1, w - 2);
    }
    // What the shifts hand lane `j2`: the C0/C1 values from one back, and
    // a boundary value of at most 2 from two back.
    let yv = y_of(t, w, c2, j2);
    let zv = z_of(t, w, c2, j2);
    assert(yv == 2);
    if i >= 1 {
        lemma_clean_prefix(t, i - 1, i);
        lemma_mrun_take_step(t, i - 1);
        if j2 == 0 {
            lemma_inv(t, w, c2 - 1, w - 2);
        } else if j2 == 1 {
            if c >= 1 {
                assert((c - 1) * w == c * w - w) by (nonlinear_arith);
                lemma_inv(t, w, c - 1, w - 1);
            }
        } else {
            lemma_inv(t, w, c, j2 - 2);
        }
        assert(mrun(t.take(i - 1 + 1)).pend.len() == 0);
        assert(zv <= 2);
    } else {
        assert(zv == 0);
    }
    assert(sum_pos(t, w, c2, j2) == wrap8(clen(t[i + 1]) + 1));
    assert(car_pos(t, w, c2, j2) == wrap8(clen(t[i + 1]) + 1));
    if t[i + 1] == 0x7F {
        assert(car_pos(t, w, c2, j2) == 2);
        assert(e_cont(pc_after(t, w, c2 - 1), chunk_of(t, w, c2), w, j2));
    } else {
        assert(e_overlong(t[i], t[i + 1]));
    }
}

/// The first byte the acceptor rejects fires a check in its own lane,
/// except a C0 or C1 at a boundary, which defers to the next lane or to
/// the end-of-input check.
/// First rejected byte, nothing open: only C0 and C1 escape their lane.
#[verifier::rlimit(100)]
#[verifier::spinoff_prover]
proof fn lemma_fail_fresh(t: Seq<u8>, w: int, c: int, j: int)
    requires
        4 <= w,
        0 <= j < w,
        0 <= c,
        t.len() % (w as nat) == 0,
        c * w + j < t.len(),
        mrun(t.take(c * w + j)).ok,
        !mrun(t.take(c * w + j + 1)).ok,
        mrun(t.take(c * w + j)).pend.len() == 0,
    ensures
        lane_err(praw_after(t, w, c - 1), pc_after(t, w, c - 1), chunk_of(t, w, c), w, j) || (
        0xC0 <= t[c * w + j] && t[c * w + j] <= 0xC1),
{
    let i = c * w + j;
    lemma_shape(t, w, c, j);
    if c >= 1 {
        assert((c - 1) * w == c * w - w) by (nonlinear_arith);
        assert(c * w >= w) by (nonlinear_arith)
            requires
                c >= 1,
                w >= 4,
        ;
    }
    lemma_mrun_take_step(t, i);
    lemma_pend_wf(t.take(i));
    lemma_prev_byte(t, w, c, j);
    if i >= 1 {
        lemma_clean_prefix(t, i - 1, i);
        lemma_mrun_take_step(t, i - 1);
        lemma_pend_wf(t.take(i - 1));
        if j == 0 {
            lemma_inv(t, w, c - 1, w - 1);
        } else {
            lemma_inv(t, w, c, j - 1);
        }
    }
    if i >= 2 && (j >= 2 || c >= 1) {
        lemma_clean_prefix(t, i - 2, i);
        if j >= 2 {
            lemma_inv(t, w, c, j - 2);
        } else if j == 1 {
            lemma_inv(t, w, c - 1, w - 1);
        } else {
            lemma_inv(t, w, c - 1, w - 2);
        }
    }
    let pb = mrun(t.take(i)).pend;
    let yv = y_of(t, w, c, j);
    let zv = z_of(t, w, c, j);

        if t[i] > 0xF4 {
            assert(e_big(chunk_of(t, w, c), j));
        } else if 0xC0 <= t[i] && t[i] <= 0xC1 {
        } else {
            // A stray continuation byte: its lane carries exactly 0.
            assert(0x80 <= t[i] && t[i] <= 0xBF);
            assert(clen(t[i]) == 0);
            if j == 0 {
                if c >= 1 {
                    assert(mrun(t.take(i - 1 + 1)).pend.len() == 0);
                    assert(yv == 1);
                }
            } else {
                let q = mrun(t.take(i - 1)).pend;
                if q.len() == 0 {
                    assert(t[i - 1] < 0x80);
                    assert(yv == 1);
                } else {
                    assert(is_cont(t[i - 1]));
                    assert(yv == 0);
                }
            }
            if i >= 2 && (j >= 2 || c >= 1) {
                let q = mrun(t.take(i - 1)).pend;
                assert(mrun(t.take(i - 2 + 1)).pend == q);
                if q.len() == 0 {
                } else {
                    assert(q.len() + 1 == lead_len(q[0]));
                }
                assert(zv <= 2);
            } else {
                assert(zv == 0);
            }
            assert(sum_pos(t, w, c, j) == 0);
            assert(car_pos(t, w, c, j) == 0);
            assert(e_cont(pc_after(t, w, c - 1), chunk_of(t, w, c), w, j));
        }
}

/// First rejected byte with one byte open.
#[verifier::rlimit(100)]
#[verifier::spinoff_prover]
proof fn lemma_fail_one(t: Seq<u8>, w: int, c: int, j: int)
    requires
        4 <= w,
        0 <= j < w,
        0 <= c,
        t.len() % (w as nat) == 0,
        c * w + j < t.len(),
        mrun(t.take(c * w + j)).ok,
        !mrun(t.take(c * w + j + 1)).ok,
        mrun(t.take(c * w + j)).pend.len() == 1,
    ensures
        lane_err(praw_after(t, w, c - 1), pc_after(t, w, c - 1), chunk_of(t, w, c), w, j),
{
    let i = c * w + j;
    lemma_shape(t, w, c, j);
    if c >= 1 {
        assert((c - 1) * w == c * w - w) by (nonlinear_arith);
        assert(c * w >= w) by (nonlinear_arith)
            requires
                c >= 1,
                w >= 4,
        ;
    }
    lemma_mrun_take_step(t, i);
    lemma_pend_wf(t.take(i));
    lemma_prev_byte(t, w, c, j);
    if i >= 1 {
        lemma_clean_prefix(t, i - 1, i);
        lemma_mrun_take_step(t, i - 1);
        lemma_pend_wf(t.take(i - 1));
        if j == 0 {
            lemma_inv(t, w, c - 1, w - 1);
        } else {
            lemma_inv(t, w, c, j - 1);
        }
    }
    if i >= 2 && (j >= 2 || c >= 1) {
        lemma_clean_prefix(t, i - 2, i);
        if j >= 2 {
            lemma_inv(t, w, c, j - 2);
        } else if j == 1 {
            lemma_inv(t, w, c - 1, w - 1);
        } else {
            lemma_inv(t, w, c - 1, w - 2);
        }
    }
    let pb = mrun(t.take(i)).pend;
    let yv = y_of(t, w, c, j);
    let zv = z_of(t, w, c, j);

        let lead = pb[0];
        let m = lead_len(lead);
        assert(is_lead(lead) && 2 <= m <= 4);
        assert(i >= 1);
        assert(mrun(t.take(i - 1 + 1)).pend == pb);
        assert(t[i - 1] == lead);
        assert(clen(lead) == m);
        assert(yv == m);
        if i >= 2 && (j >= 2 || c >= 1) {
            let q = mrun(t.take(i - 1)).pend;
            if q.len() != 0 {
                assert(false);
            }
            assert(mrun(t.take(i - 2 + 1)).pend.len() == 0);
            assert(zv <= 2);
        } else {
            assert(zv == 0);
        }
        if is_cont(t[i]) {
            // In range as a continuation, so only a narrowed bound can
            // have rejected it.
            assert(!(cont_lo(lead) <= t[i] && t[i] <= cont_hi(lead)));
            if lead == 0xE0 {
                assert(t[i] < 0xA0);
                assert(e_overlong(lead, t[i]));
            } else if lead == 0xED {
                assert(t[i] > 0x9F);
                assert(e_max(lead, t[i]));
            } else if lead == 0xF0 {
                assert(t[i] < 0x90);
                assert(e_overlong(lead, t[i]));
            } else if lead == 0xF4 {
                assert(t[i] > 0x8F);
                assert(e_max(lead, t[i]));
            } else {
                assert(false);
            }
        } else {
            assert(clen(t[i]) >= 1);
            assert(sum_pos(t, w, c, j) == clen(t[i]) + m - 1);
            assert(car_pos(t, w, c, j) == clen(t[i]) + m - 1);
            assert(e_cont(pc_after(t, w, c - 1), chunk_of(t, w, c), w, j));
        }
}

/// First rejected byte with two bytes open.
#[verifier::rlimit(100)]
#[verifier::spinoff_prover]
proof fn lemma_fail_two(t: Seq<u8>, w: int, c: int, j: int)
    requires
        4 <= w,
        0 <= j < w,
        0 <= c,
        t.len() % (w as nat) == 0,
        c * w + j < t.len(),
        mrun(t.take(c * w + j)).ok,
        !mrun(t.take(c * w + j + 1)).ok,
        mrun(t.take(c * w + j)).pend.len() == 2,
    ensures
        lane_err(praw_after(t, w, c - 1), pc_after(t, w, c - 1), chunk_of(t, w, c), w, j),
{
    let i = c * w + j;
    lemma_shape(t, w, c, j);
    if c >= 1 {
        assert((c - 1) * w == c * w - w) by (nonlinear_arith);
        assert(c * w >= w) by (nonlinear_arith)
            requires
                c >= 1,
                w >= 4,
        ;
    }
    lemma_mrun_take_step(t, i);
    lemma_pend_wf(t.take(i));
    lemma_prev_byte(t, w, c, j);
    if i >= 1 {
        lemma_clean_prefix(t, i - 1, i);
        lemma_mrun_take_step(t, i - 1);
        lemma_pend_wf(t.take(i - 1));
        if j == 0 {
            lemma_inv(t, w, c - 1, w - 1);
        } else {
            lemma_inv(t, w, c, j - 1);
        }
    }
    if i >= 2 && (j >= 2 || c >= 1) {
        lemma_clean_prefix(t, i - 2, i);
        if j >= 2 {
            lemma_inv(t, w, c, j - 2);
        } else if j == 1 {
            lemma_inv(t, w, c - 1, w - 1);
        } else {
            lemma_inv(t, w, c - 1, w - 2);
        }
    }
    let pb = mrun(t.take(i)).pend;
    let yv = y_of(t, w, c, j);
    let zv = z_of(t, w, c, j);

        let lead = pb[0];
        let m = lead_len(lead);
        assert(3 <= m <= 4);
        assert(i >= 2);
        assert(!is_cont(t[i]));
        assert(clen(t[i]) >= 1);
        assert(mrun(t.take(i - 1 + 1)).pend == pb);
        let q = mrun(t.take(i - 1)).pend;
        if q.len() != 1 {
            assert(false);
        }
        assert(q == seq![lead]);
        assert(clen(t[i - 1]) == 0);
        if j == 0 {
            assert(c >= 1) by (nonlinear_arith)
                requires
                    c * w + j >= 1,
                    j == 0,
                    c >= 0,
                    w >= 4,
            ;
            assert(yv == m - 1);
        } else {
            assert(yv == 0);
        }
        if j >= 2 || c >= 1 {
            assert(mrun(t.take(i - 2 + 1)).pend == q);
            assert(zv == m);
        } else {
            assert(false);
        }
        assert(ssub(yv, 1) == if j == 0 { m - 2 } else { 0int });
        assert(ssub(zv, 2) == m - 2);
        lemma_wrap8_small(clen(t[i]) + ssub(yv, 1));
        assert(sum_pos(t, w, c, j) == clen(t[i]) + if j == 0 { m - 2 } else { 0int });
        lemma_wrap8_small(sum_pos(t, w, c, j) + (m - 2));
        assert(car_pos(t, w, c, j) == clen(t[i]) + (if j == 0 { m - 2 } else { 0int }) + (m
            - 2));
        assert(sgn(car_pos(t, w, c, j)) == car_pos(t, w, c, j));
        assert(sgn(clen(t[i])) == clen(t[i]));
        assert(e_cont(pc_after(t, w, c - 1), chunk_of(t, w, c), w, j));
}

/// First rejected byte with three bytes open.
#[verifier::rlimit(100)]
#[verifier::spinoff_prover]
proof fn lemma_fail_three(t: Seq<u8>, w: int, c: int, j: int)
    requires
        4 <= w,
        0 <= j < w,
        0 <= c,
        t.len() % (w as nat) == 0,
        c * w + j < t.len(),
        mrun(t.take(c * w + j)).ok,
        !mrun(t.take(c * w + j + 1)).ok,
        mrun(t.take(c * w + j)).pend.len() == 3,
    ensures
        lane_err(praw_after(t, w, c - 1), pc_after(t, w, c - 1), chunk_of(t, w, c), w, j),
{
    let i = c * w + j;
    lemma_shape(t, w, c, j);
    if c >= 1 {
        assert((c - 1) * w == c * w - w) by (nonlinear_arith);
        assert(c * w >= w) by (nonlinear_arith)
            requires
                c >= 1,
                w >= 4,
        ;
    }
    lemma_mrun_take_step(t, i);
    lemma_pend_wf(t.take(i));
    lemma_prev_byte(t, w, c, j);
    if i >= 1 {
        lemma_clean_prefix(t, i - 1, i);
        lemma_mrun_take_step(t, i - 1);
        lemma_pend_wf(t.take(i - 1));
        if j == 0 {
            lemma_inv(t, w, c - 1, w - 1);
        } else {
            lemma_inv(t, w, c, j - 1);
        }
    }
    if i >= 2 && (j >= 2 || c >= 1) {
        lemma_clean_prefix(t, i - 2, i);
        if j >= 2 {
            lemma_inv(t, w, c, j - 2);
        } else if j == 1 {
            lemma_inv(t, w, c - 1, w - 1);
        } else {
            lemma_inv(t, w, c - 1, w - 2);
        }
    }
    let pb = mrun(t.take(i)).pend;
    let yv = y_of(t, w, c, j);
    let zv = z_of(t, w, c, j);

        let lead = pb[0];
        assert(lead_len(lead) == 4);
        assert(i >= 3);
        assert(!is_cont(t[i]));
        assert(clen(t[i]) >= 1);
        assert(mrun(t.take(i - 1 + 1)).pend == pb);
        let q = mrun(t.take(i - 1)).pend;
        if q.len() != 2 {
            assert(false);
        }
        assert(q[0] == lead);
        assert(clen(t[i - 1]) == 0);
        if j == 0 {
            assert(c >= 1) by (nonlinear_arith)
                requires
                    c * w + j >= 1,
                    j == 0,
                    c >= 0,
                    w >= 4,
            ;
            assert(yv == 2);
        } else {
            assert(yv == 0);
        }
        if j >= 2 || c >= 1 {
            assert(mrun(t.take(i - 2 + 1)).pend == q);
            assert(zv == 3);
        } else {
            assert(false);
        }
        assert(ssub(yv, 1) == if j == 0 { 1int } else { 0int });
        assert(ssub(zv, 2) == 1);
        lemma_wrap8_small(clen(t[i]) + ssub(yv, 1));
        assert(sum_pos(t, w, c, j) == clen(t[i]) + if j == 0 { 1int } else { 0int });
        lemma_wrap8_small(sum_pos(t, w, c, j) + 1);
        assert(car_pos(t, w, c, j) == clen(t[i]) + (if j == 0 { 1int } else { 0int }) + 1);
        assert(sgn(car_pos(t, w, c, j)) == car_pos(t, w, c, j));
        assert(sgn(clen(t[i])) == clen(t[i]));
        assert(e_cont(pc_after(t, w, c - 1), chunk_of(t, w, c), w, j));
}

/// The first byte the acceptor rejects fires a check in its own lane,
/// except a C0 or C1 at a boundary, which defers to the next lane or to
/// the end-of-input check.
pub(crate) proof fn lemma_fail_err(t: Seq<u8>, w: int, c: int, j: int)
    requires
        4 <= w,
        0 <= j < w,
        0 <= c,
        t.len() % (w as nat) == 0,
        c * w + j < t.len(),
        mrun(t.take(c * w + j)).ok,
        !mrun(t.take(c * w + j + 1)).ok,
    ensures
        lane_err(praw_after(t, w, c - 1), pc_after(t, w, c - 1), chunk_of(t, w, c), w, j) || (
        mrun(t.take(c * w + j)).pend.len() == 0 && 0xC0 <= t[c * w + j] && t[c * w + j] <= 0xC1),
{
    lemma_pend_wf(t.take(c * w + j));
    let pb = mrun(t.take(c * w + j)).pend;
    if pb.len() == 0 {
        lemma_fail_fresh(t, w, c, j);
    } else if pb.len() == 1 {
        lemma_fail_one(t, w, c, j);
    } else if pb.len() == 2 {
        lemma_fail_two(t, w, c, j);
    } else {
        lemma_fail_three(t, w, c, j);
    }
}

/// Zero bytes are plain ASCII: the acceptor passes through them.
proof fn lemma_zeros_clean(z: Seq<u8>)
    requires
        forall|k: int| 0 <= k < z.len() ==> z[k] == 0,
    ensures
        mrun_from(m_init(), z) == m_init(),
    decreases z.len(),
{
    if z.len() > 0 {
        assert(mstep(m_init(), z[0]) == m_init());
        lemma_zeros_clean(z.skip(1));
    }
}

/// If the acceptor fails on the whole input there is a first position
/// where it fails.
pub(crate) proof fn lemma_first_fail(t: Seq<u8>, n: int) -> (i: int)
    requires
        0 <= n <= t.len(),
        !mrun(t.take(n)).ok,
    ensures
        0 <= i < n,
        mrun(t.take(i)).ok,
        !mrun(t.take(i + 1)).ok,
    decreases n,
{
    assert(t.take(0) =~= Seq::<u8>::empty());
    assert(n >= 1);
    if mrun(t.take(n - 1)).ok {
        n - 1
    } else {
        lemma_first_fail(t, n - 1)
    }
}

/// A lane error of some chunk, named for quantification.
pub open spec fn some_lane_err(t: Seq<u8>, w: int, c: int, j: int) -> bool {
    lane_err(praw_after(t, w, c - 1), pc_after(t, w, c - 1), chunk_of(t, w, c), w, j)
}

/// The folded error flag is a lane error in some chunk.
proof fn lemma_errs_iff(t: Seq<u8>, w: int, k: int)
    requires
        4 <= w,
        0 <= k,
    ensures
        crate::lemire::model::errs_upto(t, w, k) <==> exists|c: int, j: int|
            0 <= c < k && 0 <= j < w && #[trigger] some_lane_err(t, w, c, j),
    decreases k,
{
    if k > 0 {
        lemma_errs_iff(t, w, k - 1);
        if crate::lemire::model::errs_upto(t, w, k) {
            if crate::lemire::model::errs_upto(t, w, k - 1) {
                let (c, j) = choose|c: int, j: int|
                    0 <= c < k - 1 && 0 <= j < w && #[trigger] some_lane_err(t, w, c, j);
                assert(0 <= c < k && 0 <= j < w && some_lane_err(t, w, c, j));
            } else {
                let j = choose|j: int|
                    0 <= j < w && #[trigger] lane_err(
                        praw_after(t, w, k - 2),
                        pc_after(t, w, k - 2),
                        chunk_of(t, w, k - 1),
                        w,
                        j,
                    );
                assert(some_lane_err(t, w, k - 1, j));
            }
        }
        if exists|c: int, j: int| 0 <= c < k && 0 <= j < w && #[trigger] some_lane_err(
            t,
            w,
            c,
            j,
        ) {
            let (c, j) = choose|c: int, j: int|
                0 <= c < k && 0 <= j < w && #[trigger] some_lane_err(t, w, c, j);
            if c == k - 1 {
                assert(lane_err(
                    praw_after(t, w, k - 2),
                    pc_after(t, w, k - 2),
                    chunk_of(t, w, k - 1),
                    w,
                    j,
                ));
                assert(crate::lemire::model::errs_upto(t, w, k));
            } else {
                assert(0 <= c < k - 1 && 0 <= j < w && some_lane_err(t, w, c, j));
                assert(crate::lemire::model::errs_upto(t, w, k - 1));
            }
        }
    }
}

/// Over a clean stream no chunk accumulates an error.
#[verifier::rlimit(100)]
#[verifier::spinoff_prover]
proof fn lemma_all_clean_no_errs(t: Seq<u8>, w: int, k: int)
    requires
        4 <= w,
        0 <= k,
        t.len() % (w as nat) == 0,
        k * w <= t.len(),
        mrun(t).ok,
    ensures
        !crate::lemire::model::errs_upto(t, w, k),
{
    let n = t.len() as int;
    lemma_errs_iff(t, w, k);
    assert(t.take(n) =~= t);
    if crate::lemire::model::errs_upto(t, w, k) {
        let (c, j) = choose|c: int, j: int|
            0 <= c < k && 0 <= j < w && #[trigger] some_lane_err(t, w, c, j);
        assert(c * w + j < k * w) by (nonlinear_arith)
            requires
                0 <= c < k,
                0 <= j < w,
        ;
        lemma_clean_prefix(t, c * w + j + 1, n);
        lemma_clean_no_err(t, w, c, j);
        assert(false);
    }
}

/// A stream the acceptor rejects leaves an error in some chunk, except
/// for a C0 or C1 in the very last position, which the end check handles.
#[verifier::rlimit(100)]
#[verifier::spinoff_prover]
proof fn lemma_rejected_has_err(t: Seq<u8>, w: int, k: int)
    requires
        4 <= w,
        1 <= k,
        t.len() == k * w,
        t.len() % (w as nat) == 0,
        !mrun(t).ok,
    ensures
        crate::lemire::model::errs_upto(t, w, k) || (mrun(t.take(k * w - 1)).ok && mrun(
            t.take(k * w - 1),
        ).pend.len() == 0 && 0xC0 <= t[k * w - 1] && t[k * w - 1] <= 0xC1),
{
    let n = k * w;
    assert(t.take(n) =~= t);
    let i = lemma_first_fail(t, n);
    vstd::arithmetic::div_mod::lemma_fundamental_div_mod(i, w);
    vstd::arithmetic::div_mod::lemma_mod_bound(i, w);
    let c = i / w;
    let j = i % w;
    assert(i == w * (i / w) + i % w);
    assert(c * w + j == i);
    assert(0 <= c) by (nonlinear_arith)
        requires
            c * w + j == i,
            0 <= i,
            0 <= j < w,
            4 <= w,
    ;
    assert(c < k) by (nonlinear_arith)
        requires
            c * w + j == i,
            i < k * w,
            0 <= j < w,
            4 <= w,
    ;
    lemma_errs_iff(t, w, k);
    lemma_fail_err(t, w, c, j);
    if some_lane_err(t, w, c, j) {
    } else {
        assert(mrun(t.take(i)).pend.len() == 0 && 0xC0 <= t[i] && t[i] <= 0xC1);
        if i + 1 < n {
            let c2 = if j + 1 < w {
                c
            } else {
                c + 1
            };
            let j2 = if j + 1 < w {
                j + 1
            } else {
                0
            };
            assert((c + 1) * w == c * w + w) by (nonlinear_arith);
            assert(c2 * w + j2 == i + 1);
            assert(c2 < k) by (nonlinear_arith)
                requires
                    c2 * w + j2 == i + 1,
                    i + 1 < k * w,
                    0 <= j2 < w,
                    4 <= w,
            ;
            lemma_c0c1_next(t, w, c, j, c2, j2);
            assert(some_lane_err(t, w, c2, j2));
        } else {
            assert(i == n - 1);
        }
    }
}

/// A clean, fully closed stream passes the end-of-input check.
#[verifier::rlimit(100)]
#[verifier::spinoff_prover]
proof fn lemma_clean_end_ok(t: Seq<u8>, w: int, k: int)
    requires
        4 <= w,
        1 <= k,
        t.len() == k * w,
        t.len() % (w as nat) == 0,
        mrun(t).ok,
        mrun(t).pend.len() == 0,
    ensures
        !crate::lemire::model::end_err(t, w, k),
{
    let n = k * w;
    assert(t.take(n) =~= t);
    assert((k - 1) * w == k * w - w) by (nonlinear_arith);
    lemma_inv(t, w, k - 1, w - 1);
    lemma_pc_index(t, w, k - 1, w - 1);
    assert(car_pos(t, w, k - 1, w - 1) == 1);
    assert forall|j: int| 0 <= j < w - 1 implies sgn(
        (#[trigger] pc_after(t, w, k - 1)[j]) as int,
    ) <= 9 by {
        lemma_clean_prefix(t, (k - 1) * w + j + 1, n);
        lemma_inv(t, w, k - 1, j);
        lemma_pc_index(t, w, k - 1, j);
        lemma_pend_wf(t.take((k - 1) * w + j + 1));
        assert(car_pos(t, w, k - 1, j) <= 4);
    }
}

/// A clean stream left open at the end trips the end-of-input check.
#[verifier::rlimit(100)]
#[verifier::spinoff_prover]
proof fn lemma_open_end_err(t: Seq<u8>, w: int, k: int)
    requires
        4 <= w,
        1 <= k,
        t.len() == k * w,
        t.len() % (w as nat) == 0,
        mrun(t).ok,
        mrun(t).pend.len() >= 1,
    ensures
        crate::lemire::model::end_err(t, w, k),
{
    let n = k * w;
    assert(t.take(n) =~= t);
    assert((k - 1) * w == k * w - w) by (nonlinear_arith);
    lemma_inv(t, w, k - 1, w - 1);
    lemma_pc_index(t, w, k - 1, w - 1);
    lemma_pend_wf(t);
    assert(car_pos(t, w, k - 1, w - 1) >= 2);
}

/// The continuation-length algorithm agrees with the definition of
/// well-formed UTF-8 at every lane width of at least four.
pub proof fn lemma_lemire_correct(s: Seq<u8>, w: int)
    requires
        4 <= w,
    ensures
        crate::lemire::model::lemire_result(s, w) == crate::utf8::is_utf8_seq(s),
{
    let l = s.len() as int;
    let rem = l % w;
    crate::utf8::lemma_machine_characterizes_utf8(s);
    vstd::arithmetic::div_mod::lemma_fundamental_div_mod(l, w);
    vstd::arithmetic::div_mod::lemma_mod_bound(l, w);
    let full = l / w;
    if rem == 0 {
        if l == 0 {
        } else {
            let k = full;
            assert(l == k * w) by (nonlinear_arith)
                requires
                    l == w * full + rem,
                    rem == 0,
                    k == full,
            ;
            assert(k >= 1) by (nonlinear_arith)
                requires
                    l == k * w,
                    l > 0,
                    4 <= w,
            ;
            assert(s.len() % (w as nat) == 0);
            if crate::utf8::is_utf8_seq(s) {
                crate::utf8::lemma_utf8_implies_accept(s);
                lemma_all_clean_no_errs(s, w, k);
                lemma_clean_end_ok(s, w, k);
            } else {
                if mrun(s).ok {
                    lemma_open_end_err(s, w, k);
                } else {
                    lemma_rejected_has_err(s, w, k);
                    if !crate::lemire::model::errs_upto(s, w, k) {
                        assert((k - 1) * w == k * w - w) by (nonlinear_arith);
                        lemma_c0c1_car(s, w, k - 1, w - 1);
                        lemma_pc_index(s, w, k - 1, w - 1);
                        assert(crate::lemire::model::end_err(s, w, k));
                    }
                }
            }
        }
    } else {
        let z = zeros(w - rem);
        let t = s + z;
        let k = full + 1;
        assert(t.len() == l + (w - rem));
        assert(t.len() == k * w) by (nonlinear_arith)
            requires
                l == w * full + rem,
                t.len() == l + (w - rem),
                0 < rem < w,
                k == full + 1,
        ;
        assert(t.len() % (w as nat) == 0) by (nonlinear_arith)
            requires
                t.len() == k * w,
                0 <= k,
                4 <= w,
        ;
        assert(k >= 1) by (nonlinear_arith)
            requires
                t.len() == k * w,
                t.len() > 0,
                4 <= w,
        ;
        assert(forall|m: int| 0 <= m < z.len() ==> z[m] == 0);
        if crate::utf8::is_utf8_seq(s) {
            crate::utf8::lemma_utf8_implies_accept(s);
            crate::utf8::lemma_mrun_from_compose(m_init(), s, z);
            lemma_zeros_clean(z);
            assert(mrun(t) == m_init());
            lemma_all_clean_no_errs(t, w, k);
        } else {
            assert(!mrun(s).ok || mrun(s).pend.len() >= 1);
            crate::utf8::lemma_mrun_from_compose(m_init(), s, z);
            if !mrun(s).ok {
                crate::utf8::lemma_mrun_from_dead(mrun(s), z);
            } else {
                // The first padding zero cannot continue the open
                // sequence, and the acceptor stays dead after it.
                let st1 = mstep(mrun(s), z[0]);
                assert(!st1.ok);
                assert(mrun_from(mrun(s), z) == mrun_from(st1, z.skip(1)));
                crate::utf8::lemma_mrun_from_dead(st1, z.skip(1));
            }
            assert(!mrun(t).ok);
            lemma_rejected_has_err(t, w, k);
            if !crate::lemire::model::errs_upto(t, w, k) {
                // The deferred C0/C1 case cannot sit on a padding zero.
                assert(t[k * w - 1] == z[z.len() - 1]);
                assert(false);
            }
        }
    }
}

} // verus!
