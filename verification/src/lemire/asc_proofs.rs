//! Correctness of the ASCII fast-path variant.
//!
//! The fast path keeps a stale copy of the carried state while it skips
//! wholly ASCII chunks.  The stale copy and the state the full pipeline
//! would hold can differ only in lanes whose contribution the shifted
//! passes taper away, so every chunk that is checked at all is checked
//! with the same effect; and the carried-vector test performed on each
//! skipped chunk fires exactly when a sequence was left open at the
//! chunk's start, which is exactly when the skipped ASCII bytes would
//! have failed.

use vstd::prelude::*;

use crate::lemire::model::{
    all_ascii, asc_errs_upto, asc_pc_after, asc_praw_after, car_at, chunk_err, chunk_of, e_max,
    e_overlong, lane_err, lemire_ascii_result, nib, pc_after, pc_thresh_err, praw_after, sgn,
    ssub, sum_at, zeros,
};
use crate::lemire::proofs::{
    car_pos, lemma_c0c1_car, lemma_c0c1_next, lemma_clean_no_err, lemma_fail_err,
    lemma_first_fail, lemma_inv, lemma_pc_index, lemma_shape,
};
use crate::utf8::{
    is_lead, is_utf8_seq, lemma_clean_prefix, lemma_machine_characterizes_utf8,
    lemma_mrun_from_compose, lemma_mrun_from_dead, lemma_mrun_from_split, lemma_mrun_take_step,
    lemma_pend_wf, lemma_utf8_implies_accept, mrun, mrun_from, mstep, m_init,
};

verus! {

/// ASCII bytes pass through the acceptor's starting state.
proof fn lemma_ascii_clean(z: Seq<u8>)
    requires
        forall|k: int| 0 <= k < z.len() ==> z[k] < 0x80,
    ensures
        mrun_from(m_init(), z) == m_init(),
    decreases z.len(),
{
    if z.len() > 0 {
        assert(mstep(m_init(), z[0]) == m_init());
        lemma_ascii_clean(z.skip(1));
    }
}

/// Consuming one more chunk is one composed run of the acceptor.
proof fn lemma_mrun_chunk_step(t: Seq<u8>, w: int, c: int)
    requires
        4 <= w,
        0 <= c,
        c * w + w <= t.len(),
    ensures
        mrun(t.take(c * w + w)) == mrun_from(mrun(t.take(c * w)), chunk_of(t, w, c)),
{
    assert(c * w >= 0) by (nonlinear_arith)
        requires
            c >= 0,
            w >= 4,
    ;
    assert((c + 1) * w == c * w + w) by (nonlinear_arith);
    lemma_mrun_from_split(m_init(), t.take(c * w + w), c * w);
    assert(t.take(c * w + w).take(c * w) =~= t.take(c * w));
    assert(t.take(c * w + w).skip(c * w) =~= chunk_of(t, w, c));
}

/// Two carried states whose top lanes are equally tapered check any
/// chunk with the same effect and produce the same carries.
proof fn lemma_stale_chunk_eq(
    praw1: Seq<u8>,
    pc1: Seq<u8>,
    praw2: Seq<u8>,
    pc2: Seq<u8>,
    cb: Seq<u8>,
    w: int,
)
    requires
        4 <= w,
        praw1.len() == w && pc1.len() == w && praw2.len() == w && pc2.len() == w && cb.len()
            == w,
        pc1[w - 1] <= 1,
        pc2[w - 1] <= 1,
        pc1[w - 2] <= 2,
        pc2[w - 2] <= 2,
        praw1[w - 1] <= 0xBF,
        praw2[w - 1] <= 0xBF,
    ensures
        forall|j: int| 0 <= j < w ==> car_at(pc1, cb, w, j) == car_at(pc2, cb, w, j),
        forall|j: int| 0 <= j < w ==> lane_err(praw1, pc1, cb, w, j) == lane_err(
            praw2,
            pc2,
            cb,
            w,
            j,
        ),
        chunk_err(praw1, pc1, cb, w, w) == chunk_err(praw2, pc2, cb, w, w),
{
    assert forall|j: int| 0 <= j < w implies car_at(pc1, cb, w, j) == car_at(pc2, cb, w, j)
        && sum_at(pc1, cb, w, j) == sum_at(pc2, cb, w, j) by {
        assert(ssub(pc1[w - 1] as int, 1) == 0 && ssub(pc2[w - 1] as int, 1) == 0);
        assert(ssub(pc1[w - 2] as int, 2) == 0 && ssub(pc2[w - 2] as int, 2) == 0);
        assert(ssub(pc1[w - 1] as int, 2) == 0 && ssub(pc2[w - 1] as int, 2) == 0);
        if j >= 2 {
            assert(sum_at(pc1, cb, w, j - 2) == sum_at(pc2, cb, w, j - 2));
        }
    }
    assert forall|j: int| 0 <= j < w implies lane_err(praw1, pc1, cb, w, j) == lane_err(
        praw2,
        pc2,
        cb,
        w,
        j,
    ) by {
        if j == 0 {
            let p1 = praw1[w - 1];
            let p2 = praw2[w - 1];
            assert(!e_max(p1, cb[0]) && !e_max(p2, cb[0]));
            assert(nib(p1) <= 11 && nib(p2) <= 11);
            assert(!e_overlong(p1, cb[0]) && !e_overlong(p2, cb[0]));
        }
    }
    if chunk_err(praw1, pc1, cb, w, w) {
        let j = choose|j: int| 0 <= j < w && lane_err(praw1, pc1, cb, w, j);
        assert(lane_err(praw2, pc2, cb, w, j));
    }
    if chunk_err(praw2, pc2, cb, w, w) {
        let j = choose|j: int| 0 <= j < w && lane_err(praw2, pc2, cb, w, j);
        assert(lane_err(praw1, pc1, cb, w, j));
    }
}

/// Fast-path errors are monotone in the number of chunks.
proof fn lemma_asc_errs_mono(t: Seq<u8>, w: int, c: int, k: int)
    requires
        0 <= c <= k,
        asc_errs_upto(t, w, c),
    ensures
        asc_errs_upto(t, w, k),
    decreases k,
{
    if k > c {
        lemma_asc_errs_mono(t, w, c, k - 1);
    }
}

/// All four folded state vectors keep the lane width.
proof fn lemma_state_lens(t: Seq<u8>, w: int, c: int)
    requires
        4 <= w,
        c < 0 || (c + 1) * w <= t.len(),
    ensures
        asc_pc_after(t, w, c).len() == w,
        asc_praw_after(t, w, c).len() == w,
        pc_after(t, w, c).len() == w,
        praw_after(t, w, c).len() == w,
    decreases c + 1,
{
    assert((c + 1) * w == c * w + w) by (nonlinear_arith);
    assert(c * w == (c - 1) * w + w) by (nonlinear_arith);
    if c >= 0 {
        assert(c * w >= 0) by (nonlinear_arith)
            requires
                c >= 0,
                w >= 4,
        ;
        lemma_state_lens(t, w, c - 1);
        assert(chunk_of(t, w, c) == t.subrange(c * w, c * w + w));
        assert(chunk_of(t, w, c).len() == w);
    }
}

/// How the fast path's state relates to the full pipeline's before chunk
/// `c`: either they are the same, or both sit at a boundary where every
/// lane the shifted passes read is tapered to nothing.
pub open spec fn asc_rel(t: Seq<u8>, w: int, c: int) -> bool {
    let apc = asc_pc_after(t, w, c - 1);
    let apraw = asc_praw_after(t, w, c - 1);
    let pc = pc_after(t, w, c - 1);
    let praw = praw_after(t, w, c - 1);
    ||| (apc == pc && apraw == praw)
    ||| (apc[w - 1] <= 1 && apc[w - 2] <= 2 && apraw[w - 1] <= 0xBF && pc[w - 1] <= 1 && pc[w
        - 2] <= 2 && praw[w - 1] <= 0xBF && mrun(t.take(c * w)).pend.len() == 0)
}

/// While the acceptor is alive, the fast path has flagged nothing and
/// its state stays interchangeable with the full pipeline's.
#[verifier::rlimit(100)]
#[verifier::spinoff_prover]
proof fn lemma_asc_sync(t: Seq<u8>, w: int, c: int)
    requires
        4 <= w,
        t.len() % (w as nat) == 0,
        0 <= c,
        c * w <= t.len(),
        mrun(t.take(c * w)).ok,
    ensures
        !asc_errs_upto(t, w, c),
        asc_rel(t, w, c),
        forall|j: int| 0 <= j < w ==> (#[trigger] asc_pc_after(t, w, c - 1)[j]) <= 4,
    decreases c,
{
    assert(c * w == (c - 1) * w + w) by (nonlinear_arith);
    lemma_state_lens(t, w, c - 1);
    lemma_state_lens(t, w, c - 2);
    if c == 0 {
        assert(asc_pc_after(t, w, -1) == zeros(w));
        assert(pc_after(t, w, -1) == zeros(w));
        assert(forall|j: int| 0 <= j < w ==> zeros(w)[j] == 0);
    } else {
        assert((c - 1) * w == c * w - w) by (nonlinear_arith);
        assert(c * w >= w) by (nonlinear_arith)
            requires
                c >= 1,
                w >= 4,
        ;
        lemma_clean_prefix(t, (c - 1) * w, c * w);
        lemma_asc_sync(t, w, c - 1);
        let cb = chunk_of(t, w, c - 1);
        assert(cb.len() == w);
        assert(forall|j: int| 0 <= j < w ==> cb[j] == t[(c - 1) * w + j]) by {
            assert forall|j: int| 0 <= j < w implies cb[j] == t[(c - 1) * w + j] by {
                lemma_shape(t, w, c - 1, j);
            }
        }
        lemma_mrun_chunk_step(t, w, c - 1);
        let stb = mrun(t.take((c - 1) * w));
        if all_ascii(cb) {
            // A pending sequence would die on the chunk's first byte.
            if stb.pend.len() != 0 {
                lemma_mrun_take_step(t, (c - 1) * w);
                assert(!mrun(t.take((c - 1) * w + 1)).ok);
                lemma_clean_prefix(t, (c - 1) * w + 1, c * w);
                assert(false);
            }
            assert(stb.pend =~= Seq::<u8>::empty());
            assert(stb == m_init());
            lemma_ascii_clean(cb);
            assert(mrun(t.take(c * w)) == m_init());
            // The carried-vector test is quiet: the last lane holds at
            // most 1, the rest at most 4.
            let apcp = asc_pc_after(t, w, c - 2);
            if c >= 2 {
                assert((c - 2) * w == c * w - w - w) by (nonlinear_arith);
                lemma_clean_prefix(t, (c - 1) * w - 1 + 1, c * w);
                lemma_inv(t, w, c - 2, w - 1);
                lemma_pc_index(t, w, c - 2, w - 1);
                assert(pc_after(t, w, c - 2)[w - 1] <= 1) by {
                    assert(mrun(t.take((c - 1) * w - 1 + 1)).pend.len() == 0);
                    assert(car_pos(t, w, c - 2, w - 1) == 1);
                }
            } else {
                assert(pc_after(t, w, c - 2) == zeros(w));
            }
            assert(apcp[w - 1] <= 1);
            assert(!pc_thresh_err(apcp, w)) by {
                assert(sgn(apcp[w - 1] as int) <= 1);
                if exists|j: int| 0 <= j < w - 1 && sgn((#[trigger] apcp[j]) as int) > 9 {
                    let j = choose|j: int|
                        0 <= j < w - 1 && sgn((#[trigger] apcp[j]) as int) > 9;
                    assert(apcp[j] <= 4);
                    assert(false);
                }
            }
            assert(!asc_errs_upto(t, w, c));
            // The fast path keeps its state; the full pipeline's new
            // state is a clean boundary too.
            assert(asc_pc_after(t, w, c - 1) == apcp);
            lemma_clean_prefix(t, c * w - 1 + 1, c * w);
            lemma_inv(t, w, c - 1, w - 1);
            lemma_pc_index(t, w, c - 1, w - 1);
            assert(pc_after(t, w, c - 1)[w - 1] <= 1) by {
                assert(mrun(t.take(c * w - 1 + 1)).pend.len() == 0);
                assert(car_pos(t, w, c - 1, w - 1) == 1);
            }
            lemma_clean_prefix(t, c * w - 2 + 1, c * w);
            lemma_inv(t, w, c - 1, w - 2);
            lemma_pc_index(t, w, c - 1, w - 2);
            assert(pc_after(t, w, c - 1)[w - 2] <= 2) by {
                let q2 = mrun(t.take(c * w - 2 + 1)).pend;
                lemma_mrun_take_step(t, c * w - 1);
                lemma_pend_wf(t.take(c * w - 1));
                if q2.len() == 0 {
                    assert(car_pos(t, w, c - 1, w - 2) <= 2);
                } else {
                    assert(q2.len() + 1 == crate::utf8::lead_len(q2[0]));
                    assert(car_pos(t, w, c - 1, w - 2) <= 2);
                }
            }
            assert(praw_after(t, w, c - 1)[w - 1] == cb[w - 1]);
            assert(praw_after(t, w, c - 1)[w - 1] <= 0xBF);
            // Stale-side facts carry over from the induction hypothesis.
            if asc_pc_after(t, w, c - 2) == pc_after(t, w, c - 2) && asc_praw_after(t, w, c - 2)
                == praw_after(t, w, c - 2) {
                if c >= 2 {
                    assert(asc_pc_after(t, w, c - 1)[w - 2] <= 2) by {
                        assert((c - 2) * w == c * w - w - w) by (nonlinear_arith);
                        lemma_clean_prefix(t, (c - 1) * w - 2 + 1, c * w);
                        lemma_clean_prefix(t, (c - 1) * w - 1, c * w);
                        lemma_mrun_take_step(t, (c - 1) * w - 1);
                        lemma_pend_wf(t.take((c - 1) * w - 1));
                        lemma_inv(t, w, c - 2, w - 2);
                        lemma_pc_index(t, w, c - 2, w - 2);
                        let q2 = mrun(t.take((c - 1) * w - 2 + 1)).pend;
                        if q2.len() == 0 {
                        } else {
                            assert(q2.len() + 1 == crate::utf8::lead_len(q2[0]));
                        }
                        assert(car_pos(t, w, c - 2, w - 2) <= 2);
                    }
                    assert(asc_praw_after(t, w, c - 2)[w - 1] <= 0xBF) by {
                        assert((c - 2) * w == c * w - w - w) by (nonlinear_arith);
                        lemma_clean_prefix(t, (c - 1) * w, c * w);
                        lemma_mrun_take_step(t, (c - 1) * w - 1);
                        lemma_pend_wf(t.take((c - 1) * w - 1));
                        let q2 = mrun(t.take((c - 1) * w - 1)).pend;
                        assert(praw_after(t, w, c - 2)[w - 1] == t[(c - 1) * w - 1]) by {
                            lemma_shape(t, w, c - 2, w - 1);
                        }
                        if q2.len() == 0 {
                            assert(t[(c - 1) * w - 1] < 0x80 || is_lead(t[(c - 1) * w - 1]));
                            if is_lead(t[(c - 1) * w - 1]) {
                                assert(mrun(t.take((c - 1) * w)).pend.len() == 1);
                                assert(false);
                            }
                        } else {
                            assert(crate::utf8::is_cont(t[(c - 1) * w - 1]));
                        }
                    }
                } else {
                    assert(asc_pc_after(t, w, c - 2) == zeros(w));
                    assert(asc_praw_after(t, w, c - 2) == zeros(w));
                }
            }
            assert(asc_rel(t, w, c));
        } else {
            // The full pipeline checks this chunk; with interchangeable
            // states the outcome and the new carries are the same.
            if !(asc_pc_after(t, w, c - 2) == pc_after(t, w, c - 2) && asc_praw_after(
                t,
                w,
                c - 2,
            ) == praw_after(t, w, c - 2)) {
                lemma_stale_chunk_eq(
                    asc_praw_after(t, w, c - 2),
                    asc_pc_after(t, w, c - 2),
                    praw_after(t, w, c - 2),
                    pc_after(t, w, c - 2),
                    cb,
                    w,
                );
            }
            assert(!chunk_err(praw_after(t, w, c - 2), pc_after(t, w, c - 2), cb, w, w)) by {
                if chunk_err(praw_after(t, w, c - 2), pc_after(t, w, c - 2), cb, w, w) {
                    let j = choose|j: int|
                        0 <= j < w && #[trigger] lane_err(
                            praw_after(t, w, c - 2),
                            pc_after(t, w, c - 2),
                            cb,
                            w,
                            j,
                        );
                    lemma_clean_prefix(t, (c - 1) * w + j + 1, c * w);
                    lemma_clean_no_err(t, w, c - 1, j);
                    assert(false);
                }
            }
            assert(!chunk_err(
                asc_praw_after(t, w, c - 2),
                asc_pc_after(t, w, c - 2),
                cb,
                w,
                w,
            ));
            assert(!asc_errs_upto(t, w, c));
            assert(asc_pc_after(t, w, c - 1) =~= pc_after(t, w, c - 1)) by {
                assert forall|j: int| 0 <= j < w implies (#[trigger] asc_pc_after(
                    t,
                    w,
                    c - 1,
                )[j]) == pc_after(t, w, c - 1)[j] by {
                    assert(asc_pc_after(t, w, c - 1)[j] == car_at(
                        asc_pc_after(t, w, c - 2),
                        cb,
                        w,
                        j,
                    ) as u8);
                    assert(pc_after(t, w, c - 1)[j] == car_at(
                        pc_after(t, w, c - 2),
                        cb,
                        w,
                        j,
                    ) as u8);
                }
            }
            assert(asc_praw_after(t, w, c - 1) == praw_after(t, w, c - 1));
            assert(asc_rel(t, w, c));
            assert forall|j: int| 0 <= j < w implies (#[trigger] asc_pc_after(t, w, c - 1)[j])
                <= 4 by {
                lemma_clean_prefix(t, (c - 1) * w + j + 1, c * w);
                lemma_inv(t, w, c - 1, j);
                lemma_pc_index(t, w, c - 1, j);
                lemma_pend_wf(t.take((c - 1) * w + j + 1));
                assert(car_pos(t, w, c - 1, j) <= 4);
            }
        }
    }
}

/// A span of ASCII bytes after a closed boundary keeps the acceptor at
/// its starting state.
proof fn lemma_ascii_span(t: Seq<u8>, a: int, b: int)
    requires
        0 <= a <= b <= t.len(),
        mrun(t.take(a)).ok,
        mrun(t.take(a)).pend.len() == 0,
        forall|k: int| a <= k < b ==> t[k] < 0x80,
    ensures
        mrun(t.take(b)) == m_init(),
{
    assert(mrun(t.take(a)).pend =~= Seq::<u8>::empty());
    assert(mrun(t.take(a)) == m_init());
    lemma_mrun_from_split(m_init(), t.take(b), a);
    assert(t.take(b).take(a) =~= t.take(a));
    assert(t.take(b).skip(a) =~= t.subrange(a, b));
    lemma_ascii_clean(t.subrange(a, b));
}

/// Where the fast path's error lands when the acceptor first rejects a
/// byte: in the folded chunks, in the separately checked tail chunk, or
/// in the end-of-input check after a C0 or C1 in the very last lane.
#[verifier::rlimit(100)]
#[verifier::spinoff_prover]
proof fn lemma_asc_reject(t: Seq<u8>, w: int, k: int, ke: int, i: int)
    requires
        4 <= w,
        1 <= k,
        t.len() == k * w,
        t.len() % (w as nat) == 0,
        ke == k || ke == k - 1,
        ke < k ==> t[k * w - 1] < 0xC0,
        0 <= i < k * w,
        mrun(t.take(i)).ok,
        !mrun(t.take(i + 1)).ok,
    ensures
        asc_errs_upto(t, w, ke) || (ke < k && chunk_err(
            asc_praw_after(t, w, ke - 1),
            asc_pc_after(t, w, ke - 1),
            chunk_of(t, w, ke),
            w,
            w,
        )) || (ke == k && i == k * w - 1 && asc_pc_after(t, w, k - 1)[w - 1] == 2),
{
    vstd::arithmetic::div_mod::lemma_fundamental_div_mod(i, w);
    vstd::arithmetic::div_mod::lemma_mod_bound(i, w);
    let c = i / w;
    let j = i % w;
    assert(c * w == w * c) by (nonlinear_arith);
    assert(c * w + j == i);
    assert(0 <= c && c < k) by (nonlinear_arith)
        requires
            c * w + j == i,
            0 <= i < k * w,
            0 <= j < w,
            4 <= w,
    ;
    assert((c + 1) * w == c * w + w) by (nonlinear_arith);
    assert((c + 1) * w <= k * w) by (nonlinear_arith)
        requires
            c + 1 <= k,
            4 <= w,
    ;
    lemma_clean_prefix(t, c * w, i);
    lemma_asc_sync(t, w, c);
    lemma_state_lens(t, w, c - 1);
    lemma_state_lens(t, w, c);
    let cb = chunk_of(t, w, c);
    assert(forall|m: int| 0 <= m < w ==> cb[m] == t[c * w + m]) by {
        assert forall|m: int| 0 <= m < w implies cb[m] == t[c * w + m] by {
            lemma_shape(t, w, c, m);
        }
    }
    let apcp = asc_pc_after(t, w, c - 1);
    let aprawp = asc_praw_after(t, w, c - 1);
    let pcp = pc_after(t, w, c - 1);
    let prawp = praw_after(t, w, c - 1);
    if all_ascii(cb) && c < ke {
        // A failure inside a skipped ASCII chunk means a sequence was
        // open at the chunk's start, and the carried-vector test sees
        // it.
        if mrun(t.take(c * w)).pend.len() == 0 {
            assert forall|m: int| c * w <= m < i + 1 implies t[m] < 0x80 by {
                assert(t[m] == cb[m - c * w]);
            }
            lemma_ascii_span(t, c * w, i + 1);
            assert(false);
        }
        assert(c >= 1) by {
            if c == 0 {
                assert(c * w == 0) by (nonlinear_arith)
                    requires
                        c == 0,
                ;
                assert(t.take(0) =~= Seq::<u8>::empty());
                assert(mrun(t.take(0)) == m_init());
                assert(false);
            }
        }
        assert((c - 1) * w == c * w - w) by (nonlinear_arith);
        assert(apcp == pcp && aprawp == prawp);
        lemma_inv(t, w, c - 1, w - 1);
        lemma_pc_index(t, w, c - 1, w - 1);
        lemma_pend_wf(t.take(c * w));
        assert(car_pos(t, w, c - 1, w - 1) >= 2);
        assert(sgn(apcp[w - 1] as int) > 1);
        assert(pc_thresh_err(apcp, w));
        assert(asc_errs_upto(t, w, c + 1));
        lemma_asc_errs_mono(t, w, c + 1, ke);
    } else {
        lemma_fail_err(t, w, c, j);
        let in_sync = apcp == pcp && aprawp == prawp;
        if !in_sync {
            lemma_stale_chunk_eq(aprawp, apcp, prawp, pcp, cb, w);
        }
        if lane_err(prawp, pcp, cb, w, j) {
            assert(lane_err(aprawp, apcp, cb, w, j));
            assert(chunk_err(aprawp, apcp, cb, w, w));
            if c < ke {
                assert(asc_errs_upto(t, w, c + 1));
                lemma_asc_errs_mono(t, w, c + 1, ke);
            } else {
                assert(c == ke && ke < k);
            }
        } else {
            // The deferred C0/C1 case.
            assert(mrun(t.take(i)).pend.len() == 0 && 0xC0 <= t[i] && t[i] <= 0xC1);
            // After this chunk both folds hold the same carries.
            assert(asc_pc_after(t, w, c) =~= pc_after(t, w, c)) by {
                assert(!all_ascii(cb) || c >= ke);
                if all_ascii(cb) {
                    // c == ke < k, yet the chunk holds a byte >= C0.
                    assert(cb[j] >= 0xC0);
                    assert(false);
                }
                assert forall|m: int| 0 <= m < w implies (#[trigger] asc_pc_after(t, w, c)[m])
                    == pc_after(t, w, c)[m] by {
                    assert(asc_pc_after(t, w, c)[m] == car_at(apcp, cb, w, m) as u8);
                    assert(pc_after(t, w, c)[m] == car_at(pcp, cb, w, m) as u8);
                }
            }
            if i + 1 < k * w {
                let c2 = if j + 1 < w {
                    c
                } else {
                    c + 1
                };
                let j2 = if j + 1 < w {
                    j + 1
                } else {
                    0
                };
                if j + 1 < w {
                    assert(c2 * w + j2 == i + 1);
                } else {
                    assert(c2 * w + j2 == i + 1) by (nonlinear_arith)
                        requires
                            c2 == c + 1,
                            j2 == 0,
                            c * w + j == i,
                            j == w - 1,
                    ;
                }
                assert(c2 < k) by (nonlinear_arith)
                    requires
                        c2 * w + j2 == i + 1,
                        i + 1 < k * w,
                        0 <= j2 < w,
                        4 <= w,
                ;
                lemma_c0c1_next(t, w, c, j, c2, j2);
                if c2 == c {
                    assert(lane_err(prawp, pcp, cb, w, j2));
                    assert(lane_err(aprawp, apcp, cb, w, j2));
                    assert(chunk_err(aprawp, apcp, cb, w, w));
                    if c < ke {
                        assert(asc_errs_upto(t, w, c + 1));
                        lemma_asc_errs_mono(t, w, c + 1, ke);
                    }
                } else {
                    // The error sits in lane 0 of the next chunk.
                    assert(j == w - 1);
                    let cb2 = chunk_of(t, w, c + 1);
                    assert((c + 2) * w == c * w + w + w) by (nonlinear_arith);
                    assert(c + 1 < k) by (nonlinear_arith)
                        requires
                            (c + 1) * w + 0 == i + 1,
                            i + 1 < k * w,
                            4 <= w,
                    ;
                    assert((c + 2) * w <= k * w) by (nonlinear_arith)
                        requires
                            c + 2 <= k,
                            4 <= w,
                    ;
                    lemma_c0c1_car(t, w, c, j);
                    lemma_pc_index(t, w, c, w - 1);
                    assert(pc_after(t, w, c)[w - 1] == 2);
                    assert(asc_pc_after(t, w, c)[w - 1] == 2);
                    if all_ascii(cb2) && c + 1 < ke {
                        assert(sgn(asc_pc_after(t, w, c)[w - 1] as int) > 1);
                        assert(pc_thresh_err(asc_pc_after(t, w, c), w));
                        assert(asc_errs_upto(t, w, c + 2));
                        lemma_asc_errs_mono(t, w, c + 2, ke);
                    } else {
                        assert(lane_err(
                            praw_after(t, w, c),
                            pc_after(t, w, c),
                            cb2,
                            w,
                            0,
                        ));
                        assert(asc_praw_after(t, w, c) == praw_after(t, w, c)) by {
                            if all_ascii(cb) {
                                assert(cb[j] >= 0xC0);
                                assert(false);
                            }
                        }
                        assert(lane_err(
                            asc_praw_after(t, w, c),
                            asc_pc_after(t, w, c),
                            cb2,
                            w,
                            0,
                        ));
                        assert(chunk_err(
                            asc_praw_after(t, w, c),
                            asc_pc_after(t, w, c),
                            cb2,
                            w,
                            w,
                        ));
                        if c + 1 < ke {
                            assert(asc_errs_upto(t, w, c + 2));
                            lemma_asc_errs_mono(t, w, c + 2, ke);
                        } else {
                            assert(c + 1 == ke && ke < k);
                        }
                    }
                }
            } else {
                // The C0 or C1 sits in the very last lane of the input.
                assert(i == k * w - 1);
                assert(j == w - 1) by (nonlinear_arith)
                    requires
                        c * w + j == k * w - 1,
                        0 <= j < w,
                        0 <= c < k,
                        4 <= w,
                ;
                assert(c == k - 1) by (nonlinear_arith)
                    requires
                        c * w + w - 1 == k * w - 1,
                        4 <= w,
                ;
                assert(ke == k) by {
                    if ke < k {
                        assert(t[k * w - 1] < 0xC0);
                        assert(false);
                    }
                }
                lemma_c0c1_car(t, w, c, j);
                lemma_pc_index(t, w, c, w - 1);
                assert(pc_after(t, w, c)[w - 1] == 2);
                assert(asc_pc_after(t, w, k - 1)[w - 1] == 2);
            }
        }
    }
}

/// The fast-path variant agrees with the definition of well-formed
/// UTF-8 at every lane width of at least four.
#[verifier::rlimit(100)]
#[verifier::spinoff_prover]
pub proof fn lemma_lemire_ascii_correct(s: Seq<u8>, w: int)
    requires
        4 <= w,
    ensures
        lemire_ascii_result(s, w) == is_utf8_seq(s),
{
    let l = s.len() as int;
    let rem = l % w;
    lemma_machine_characterizes_utf8(s);
    vstd::arithmetic::div_mod::lemma_fundamental_div_mod(l, w);
    vstd::arithmetic::div_mod::lemma_mod_bound(l, w);
    let full = l / w;
    if rem == 0 {
        if l == 0 {
        } else {
            let k = full;
            assert(l == k * w) by (nonlinear_arith)
                requires
                    l == w * full + rem,
                    rem == 0,
                    k == full,
            ;
            assert(k >= 1) by (nonlinear_arith)
                requires
                    l == k * w,
                    l > 0,
                    4 <= w,
            ;
            assert(s.len() % (w as nat) == 0);
            assert(s.take(l) =~= s);
            assert((k - 1) * w == k * w - w) by (nonlinear_arith);
            lemma_state_lens(s, w, k - 1);
            let apc = asc_pc_after(s, w, k - 1);
            if is_utf8_seq(s) {
                lemma_utf8_implies_accept(s);
                lemma_asc_sync(s, w, k);
                lemma_inv(s, w, k - 1, w - 1);
                lemma_pc_index(s, w, k - 1, w - 1);
                assert(apc[w - 1] <= 1) by {
                    if asc_pc_after(s, w, k - 1) == pc_after(s, w, k - 1) && asc_praw_after(
                        s,
                        w,
                        k - 1,
                    ) == praw_after(s, w, k - 1) {
                        assert(mrun(s.take(k * w - 1 + 1)).pend.len() == 0);
                        assert(car_pos(s, w, k - 1, w - 1) == 1);
                    }
                }
                assert(!pc_thresh_err(apc, w)) by {
                    assert(sgn(apc[w - 1] as int) <= 1);
                    if exists|j: int| 0 <= j < w - 1 && sgn((#[trigger] apc[j]) as int) > 9 {
                        let j = choose|j: int|
                            0 <= j < w - 1 && sgn((#[trigger] apc[j]) as int) > 9;
                        assert(apc[j] <= 4);
                        assert(false);
                    }
                }
                assert(lemire_ascii_result(s, w));
            } else {
                if mrun(s).ok {
                    lemma_asc_sync(s, w, k);
                    assert(mrun(s.take(k * w)).pend.len() >= 1);
                    assert(asc_pc_after(s, w, k - 1) == pc_after(s, w, k - 1));
                    lemma_inv(s, w, k - 1, w - 1);
                    lemma_pc_index(s, w, k - 1, w - 1);
                    lemma_pend_wf(s.take(l));
                    assert(car_pos(s, w, k - 1, w - 1) >= 2);
                    assert(sgn(apc[w - 1] as int) > 1);
                    assert(pc_thresh_err(apc, w));
                    assert(!lemire_ascii_result(s, w));
                } else {
                    let i = lemma_first_fail(s, l);
                    lemma_asc_reject(s, w, k, k, i);
                    if asc_errs_upto(s, w, k) {
                        assert(!lemire_ascii_result(s, w));
                    } else {
                        assert(apc[w - 1] == 2);
                        assert(sgn(apc[w - 1] as int) > 1);
                        assert(pc_thresh_err(apc, w));
                        assert(!lemire_ascii_result(s, w));
                    }
                }
            }
        }
    } else {
        let z = zeros(w - rem);
        let t = s + z;
        let k = full + 1;
        assert(t.len() == l + (w - rem));
        assert(t.len() == k * w) by (nonlinear_arith)
            requires
                l == w * full + rem,
                t.len() == l + (w - rem),
                0 < rem < w,
                k == full + 1,
        ;
        assert(t.len() % (w as nat) == 0) by (nonlinear_arith)
            requires
                t.len() == k * w,
                0 <= k,
                4 <= w,
        ;
        assert(k >= 1) by (nonlinear_arith)
            requires
                t.len() == k * w,
                t.len() > 0,
                4 <= w,
        ;
        assert(forall|m: int| 0 <= m < z.len() ==> z[m] == 0);
        assert(t.take(t.len() as int) =~= t);
        assert(full * w == k * w - w) by (nonlinear_arith)
            requires
                k == full + 1,
        ;
        lemma_state_lens(t, w, full - 1);
        lemma_state_lens(t, w, full);
        let cbt = chunk_of(t, w, full);
        assert(forall|m: int| 0 <= m < w ==> cbt[m] == t[full * w + m]) by {
            assert forall|m: int| 0 <= m < w implies cbt[m] == t[full * w + m] by {
                lemma_shape(t, w, full, m);
            }
        }
        if is_utf8_seq(s) {
            lemma_utf8_implies_accept(s);
            lemma_mrun_from_compose(m_init(), s, z);
            lemma_ascii_clean(z);
            assert(mrun(t) == m_init());
            assert(mrun(t.take(t.len() as int)).ok);
            lemma_clean_prefix(t, full * w, t.len() as int);
            lemma_asc_sync(t, w, full);
            // The tail chunk fires nothing: with interchangeable states
            // it checks like the full pipeline on a clean chunk.
            if !(asc_pc_after(t, w, full - 1) == pc_after(t, w, full - 1) && asc_praw_after(
                t,
                w,
                full - 1,
            ) == praw_after(t, w, full - 1)) {
                lemma_stale_chunk_eq(
                    asc_praw_after(t, w, full - 1),
                    asc_pc_after(t, w, full - 1),
                    praw_after(t, w, full - 1),
                    pc_after(t, w, full - 1),
                    cbt,
                    w,
                );
            }
            assert(!chunk_err(praw_after(t, w, full - 1), pc_after(t, w, full - 1), cbt, w, w))
                by {
                if chunk_err(praw_after(t, w, full - 1), pc_after(t, w, full - 1), cbt, w, w) {
                    let j = choose|j: int|
                        0 <= j < w && #[trigger] lane_err(
                            praw_after(t, w, full - 1),
                            pc_after(t, w, full - 1),
                            cbt,
                            w,
                            j,
                        );
                    lemma_clean_prefix(t, full * w + j + 1, t.len() as int);
                    lemma_clean_no_err(t, w, full, j);
                    assert(false);
                }
            }
            assert(!chunk_err(
                asc_praw_after(t, w, full - 1),
                asc_pc_after(t, w, full - 1),
                cbt,
                w,
                w,
            ));
            assert(lemire_ascii_result(s, w));
        } else {
            assert(!mrun(s).ok || mrun(s).pend.len() >= 1);
            lemma_mrun_from_compose(m_init(), s, z);
            if !mrun(s).ok {
                lemma_mrun_from_dead(mrun(s), z);
            } else {
                let st1 = mstep(mrun(s), z[0]);
                assert(!st1.ok);
                assert(mrun_from(mrun(s), z) == mrun_from(st1, z.skip(1)));
                lemma_mrun_from_dead(st1, z.skip(1));
            }
            assert(!mrun(t).ok);
            let i = lemma_first_fail(t, t.len() as int);
            assert(t[k * w - 1] == z[z.len() - 1]);
            lemma_asc_reject(t, w, k, full, i);
            assert(!lemire_ascii_result(s, w));
        }
    }
}

} // verus!