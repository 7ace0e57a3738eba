//! The mathematical definition of well-formed UTF-8, together with a
//! byte-at-a-time acceptor used as the induction backbone of every proof in
//! this crate.
//!
//! [`is_utf8_seq`] follows the table of legal byte sequences in the Unicode
//! Standard (Chapter 3, Table 3-7):
//!
//! ```text
//!  Code Points        1st       2nd      3rd      4th
//! U+0000..U+007F     00..7F
//! U+0080..U+07FF     C2..DF   80..BF
//! U+0800..U+0FFF     E0       A0..BF   80..BF
//! U+1000..U+CFFF     E1..EC   80..BF   80..BF
//! U+D000..U+D7FF     ED       80..9F   80..BF
//! U+E000..U+FFFF     EE..EF   80..BF   80..BF
//! U+10000..U+3FFFF   F0       90..BF   80..BF   80..BF
//! U+40000..U+FFFFF   F1..F3   80..BF   80..BF   80..BF
//! U+100000..U+10FFFF F4       80..8F   80..BF   80..BF
//! ```
//!
//! The machine [`mrun`] consumes one byte at a time, keeping the bytes of the
//! unfinished sequence as its state; it fails on the first byte that cannot
//! extend a legal sequence.  [`lemma_machine_characterizes_utf8`] ties the
//! two definitions together.

use vstd::prelude::*;

verus! {

/// A continuation byte: legal only as the non-first byte of a sequence.
pub open spec fn is_cont(b: u8) -> bool {
    0x80 <= b && b <= 0xBF
}

/// A byte that may begin a sequence of two or more bytes.
pub open spec fn is_lead(b: u8) -> bool {
    (0xC2 <= b && b <= 0xDF) || (0xE0 <= b && b <= 0xEF) || (0xF0 <= b && b <= 0xF4)
}

/// Total length of the sequence begun by a legal first byte; 0 for bytes
/// that can begin no sequence (stray continuations, C0, C1, F5..FF).
pub open spec fn lead_len(b: u8) -> int {
    if b < 0x80 {
        1
    } else if 0xC2 <= b && b <= 0xDF {
        2
    } else if 0xE0 <= b && b <= 0xEF {
        3
    } else if 0xF0 <= b && b <= 0xF4 {
        4
    } else {
        0
    }
}

/// Lower bound for the byte immediately after a lead byte.  E0 and F0
/// narrow it to exclude overlong encodings.
pub open spec fn cont_lo(lead: u8) -> u8 {
    if lead == 0xE0 {
        0xA0
    } else if lead == 0xF0 {
        0x90
    } else {
        0x80
    }
}

/// Upper bound for the byte immediately after a lead byte.  ED excludes the
/// UTF-16 surrogates, F4 excludes code points beyond U+10FFFF.
pub open spec fn cont_hi(lead: u8) -> u8 {
    if lead == 0xED {
        0x9F
    } else if lead == 0xF4 {
        0x8F
    } else {
        0xBF
    }
}

/// A legal two-byte sequence.
pub open spec fn valid_seq2(b0: u8, b1: u8) -> bool {
    0xC2 <= b0 && b0 <= 0xDF && is_cont(b1)
}

/// A legal three-byte sequence.
pub open spec fn valid_seq3(b0: u8, b1: u8, b2: u8) -> bool {
    0xE0 <= b0 && b0 <= 0xEF && cont_lo(b0) <= b1 && b1 <= cont_hi(b0) && is_cont(b2)
}

/// A legal four-byte sequence.
pub open spec fn valid_seq4(b0: u8, b1: u8, b2: u8, b3: u8) -> bool {
    0xF0 <= b0 && b0 <= 0xF4 && cont_lo(b0) <= b1 && b1 <= cont_hi(b0) && is_cont(b2)
        && is_cont(b3)
}

/// Well-formed UTF-8: the whole sequence splits into legal one- to
/// four-byte sequences.
pub open spec fn is_utf8_seq(s: Seq<u8>) -> bool
    decreases s.len(),
{
    if s.len() == 0 {
        true
    } else if s[0] < 0x80 {
        is_utf8_seq(s.skip(1))
    } else if s.len() >= 2 && valid_seq2(s[0], s[1]) {
        is_utf8_seq(s.skip(2))
    } else if s.len() >= 3 && valid_seq3(s[0], s[1], s[2]) {
        is_utf8_seq(s.skip(3))
    } else if s.len() >= 4 && valid_seq4(s[0], s[1], s[2], s[3]) {
        is_utf8_seq(s.skip(4))
    } else {
        false
    }
}

/// State of the byte-at-a-time acceptor: whether any byte so far was
/// illegal, and the bytes of the sequence still being read.
pub ghost struct MachineState {
    pub ok: bool,
    pub pend: Seq<u8>,
}

/// The acceptor's starting state.
pub open spec fn m_init() -> MachineState {
    MachineState { ok: true, pend: Seq::empty() }
}

/// Bounds for the next byte given the pending bytes of an open sequence:
/// the byte right after the lead may be narrowed, later ones are 80..BF.
pub open spec fn follow_ok(pend: Seq<u8>, b: u8) -> bool {
    if pend.len() == 1 {
        cont_lo(pend[0]) <= b && b <= cont_hi(pend[0])
    } else {
        is_cont(b)
    }
}

/// One step of the acceptor.
pub open spec fn mstep(st: MachineState, b: u8) -> MachineState {
    if !st.ok {
        MachineState { ok: false, pend: Seq::empty() }
    } else if st.pend.len() == 0 {
        if b < 0x80 {
            st
        } else if is_lead(b) {
            MachineState { ok: true, pend: seq![b] }
        } else {
            MachineState { ok: false, pend: Seq::empty() }
        }
    } else {
        if follow_ok(st.pend, b) {
            if st.pend.len() + 1 == lead_len(st.pend[0]) {
                MachineState { ok: true, pend: Seq::empty() }
            } else {
                MachineState { ok: true, pend: st.pend.push(b) }
            }
        } else {
            MachineState { ok: false, pend: Seq::empty() }
        }
    }
}

/// The acceptor run from state `st` over all of `s`.
pub open spec fn mrun_from(st: MachineState, s: Seq<u8>) -> MachineState
    decreases s.len(),
{
    if s.len() == 0 {
        st
    } else {
        mrun_from(mstep(st, s[0]), s.skip(1))
    }
}

/// The acceptor run from the starting state.
pub open spec fn mrun(s: Seq<u8>) -> MachineState {
    mrun_from(m_init(), s)
}

/// The acceptor accepts: it never failed and no sequence is left open.
pub open spec fn m_accepts(s: Seq<u8>) -> bool {
    mrun(s).ok && mrun(s).pend.len() == 0
}

/// Once the acceptor has failed it stays failed.
pub proof fn lemma_mrun_from_dead(st: MachineState, s: Seq<u8>)
    requires
        !st.ok,
    ensures
        !mrun_from(st, s).ok,
    decreases s.len(),
{
    if s.len() > 0 {
        lemma_mrun_from_dead(mstep(st, s[0]), s.skip(1));
    }
}

/// Running over a concatenation is running over the parts in turn.
pub proof fn lemma_mrun_from_compose(st: MachineState, s1: Seq<u8>, s2: Seq<u8>)
    ensures
        mrun_from(st, s1 + s2) == mrun_from(mrun_from(st, s1), s2),
    decreases s1.len(),
{
    if s1.len() == 0 {
        assert(s1 + s2 =~= s2);
    } else {
        assert((s1 + s2)[0] == s1[0]);
        assert((s1 + s2).skip(1) =~= s1.skip(1) + s2);
        lemma_mrun_from_compose(mstep(st, s1[0]), s1.skip(1), s2);
    }
}

/// Splitting a run at position `n`.
pub proof fn lemma_mrun_from_split(st: MachineState, s: Seq<u8>, n: int)
    requires
        0 <= n <= s.len(),
    ensures
        mrun_from(st, s) == mrun_from(mrun_from(st, s.take(n)), s.skip(n)),
{
    assert(s =~= s.take(n) + s.skip(n));
    lemma_mrun_from_compose(st, s.take(n), s.skip(n));
}

/// Extending a prefix by one byte is one step of the acceptor.
pub proof fn lemma_mrun_take_step(s: Seq<u8>, i: int)
    requires
        0 <= i < s.len(),
    ensures
        mrun(s.take(i + 1)) == mstep(mrun(s.take(i)), s[i]),
{
    let p = s.take(i + 1);
    lemma_mrun_from_split(m_init(), p, i);
    assert(p.take(i) =~= s.take(i));
    assert(p.skip(i) =~= seq![s[i]]);
    assert(mrun_from(mrun(s.take(i)), seq![s[i]])
        == mrun_from(mstep(mrun(s.take(i)), s[i]), seq![s[i]].skip(1)));
    assert(seq![s[i]].skip(1).len() == 0);
}

/// A well-formed sequence drives the acceptor back to its starting state.
pub proof fn lemma_utf8_implies_accept(s: Seq<u8>)
    requires
        is_utf8_seq(s),
    ensures
        mrun(s) == m_init(),
    decreases s.len(),
{
    reveal_with_fuel(mrun_from, 5);
    if s.len() == 0 {
    } else if s[0] < 0x80 {
        assert(mstep(m_init(), s[0]) == m_init());
        lemma_utf8_implies_accept(s.skip(1));
    } else if s.len() >= 2 && valid_seq2(s[0], s[1]) {
        let st1 = mstep(m_init(), s[0]);
        assert(st1.pend == seq![s[0]]);
        assert(mstep(st1, s[1]) == m_init());
        assert(s.skip(1)[0] == s[1]);
        assert(s.skip(1).skip(1) =~= s.skip(2));
        lemma_utf8_implies_accept(s.skip(2));
    } else if s.len() >= 3 && valid_seq3(s[0], s[1], s[2]) {
        let st1 = mstep(m_init(), s[0]);
        assert(st1.pend == seq![s[0]]);
        let st2 = mstep(st1, s[1]);
        assert(st2.pend == seq![s[0], s[1]]);
        assert(mstep(st2, s[2]) == m_init());
        assert(s.skip(1)[0] == s[1]);
        assert(s.skip(1).skip(1) =~= s.skip(2));
        assert(s.skip(2)[0] == s[2]);
        assert(s.skip(2).skip(1) =~= s.skip(3));
        lemma_utf8_implies_accept(s.skip(3));
    } else if s.len() >= 4 && valid_seq4(s[0], s[1], s[2], s[3]) {
        let st1 = mstep(m_init(), s[0]);
        assert(st1.pend == seq![s[0]]);
        let st2 = mstep(st1, s[1]);
        assert(st2.pend == seq![s[0], s[1]]);
        let st3 = mstep(st2, s[2]);
        assert(st3.pend == seq![s[0], s[1], s[2]]);
        assert(mstep(st3, s[3]) == m_init());
        assert(s.skip(1)[0] == s[1]);
        assert(s.skip(1).skip(1) =~= s.skip(2));
        assert(s.skip(2)[0] == s[2]);
        assert(s.skip(2).skip(1) =~= s.skip(3));
        assert(s.skip(3)[0] == s[3]);
        assert(s.skip(3).skip(1) =~= s.skip(4));
        lemma_utf8_implies_accept(s.skip(4));
    }
}

/// An accepted sequence is well-formed.
pub proof fn lemma_accept_implies_utf8(s: Seq<u8>)
    requires
        m_accepts(s),
    ensures
        is_utf8_seq(s),
    decreases s.len(),
{
    reveal_with_fuel(mrun_from, 5);
    if s.len() == 0 {
    } else {
        let st1 = mstep(m_init(), s[0]);
        assert(mrun(s) == mrun_from(st1, s.skip(1)));
        if s[0] < 0x80 {
            assert(st1 == m_init());
            lemma_accept_implies_utf8(s.skip(1));
        } else if is_lead(s[0]) {
            assert(st1.pend == seq![s[0]]);
            let m = lead_len(s[0]);
            if s.len() < 2 {
                assert(mrun(s).pend == seq![s[0]]);
                assert(false);
            }
            assert(s.skip(1)[0] == s[1]);
            assert(s.skip(1).skip(1) =~= s.skip(2));
            let st2 = mstep(st1, s[1]);
            assert(mrun(s) == mrun_from(st2, s.skip(2)));
            if !(cont_lo(s[0]) <= s[1] && s[1] <= cont_hi(s[0])) {
                lemma_mrun_from_dead(st2, s.skip(2));
                assert(false);
            }
            if m == 2 {
                assert(st2 == m_init());
                assert(valid_seq2(s[0], s[1]));
                lemma_accept_implies_utf8(s.skip(2));
            } else {
                assert(st2.pend == seq![s[0], s[1]]);
                if s.len() < 3 {
                    assert(mrun(s).pend == seq![s[0], s[1]]);
                    assert(false);
                }
                assert(s.skip(2)[0] == s[2]);
                assert(s.skip(2).skip(1) =~= s.skip(3));
                let st3 = mstep(st2, s[2]);
                assert(mrun(s) == mrun_from(st3, s.skip(3)));
                if !is_cont(s[2]) {
                    lemma_mrun_from_dead(st3, s.skip(3));
                    assert(false);
                }
                if m == 3 {
                    assert(st3 == m_init());
                    assert(valid_seq3(s[0], s[1], s[2]));
                    lemma_accept_implies_utf8(s.skip(3));
                } else {
                    assert(st3.pend == seq![s[0], s[1], s[2]]);
                    if s.len() < 4 {
                        assert(mrun(s).pend == seq![s[0], s[1], s[2]]);
                        assert(false);
                    }
                    assert(s.skip(3)[0] == s[3]);
                    assert(s.skip(3).skip(1) =~= s.skip(4));
                    let st4 = mstep(st3, s[3]);
                    assert(mrun(s) == mrun_from(st4, s.skip(4)));
                    if !is_cont(s[3]) {
                        lemma_mrun_from_dead(st4, s.skip(4));
                        assert(false);
                    }
                    assert(st4 == m_init());
                    assert(valid_seq4(s[0], s[1], s[2], s[3]));
                    lemma_accept_implies_utf8(s.skip(4));
                }
            }
        } else {
            assert(!st1.ok);
            lemma_mrun_from_dead(st1, s.skip(1));
            assert(false);
        }
    }
}

/// If the acceptor is alive after a prefix it was alive after every
/// shorter prefix.
pub proof fn lemma_clean_prefix(s: Seq<u8>, j: int, i: int)
    requires
        0 <= j <= i <= s.len(),
        mrun(s.take(i)).ok,
    ensures
        mrun(s.take(j)).ok,
{
    if !mrun(s.take(j)).ok {
        lemma_mrun_from_split(m_init(), s.take(i), j);
        assert(s.take(i).take(j) =~= s.take(j));
        lemma_mrun_from_dead(mrun(s.take(j)), s.take(i).skip(j));
    }
}

/// While the acceptor is alive its pending bytes are an initial part of a
/// legal sequence: a lead byte followed by in-range continuations, shorter
/// than the announced length.
pub proof fn lemma_pend_wf(s: Seq<u8>)
    requires
        mrun(s).ok,
    ensures
        mrun(s).pend.len() <= 3,
        mrun(s).pend.len() >= 1 ==> is_lead(mrun(s).pend[0]) && mrun(s).pend.len() < lead_len(
            mrun(s).pend[0],
        ),
    decreases s.len(),
{
    if s.len() > 0 {
        let n = s.len() as int;
        lemma_mrun_take_step(s, n - 1);
        assert(s.take(n) =~= s);
        lemma_clean_prefix(s, n - 1, n);
        lemma_pend_wf(s.take(n - 1));
    }
}

/// A failure on any prefix dooms the whole sequence.
pub proof fn lemma_prefix_dead(s: Seq<u8>, i: int)
    requires
        0 <= i <= s.len(),
        !mrun(s.take(i)).ok,
    ensures
        !m_accepts(s),
{
    lemma_mrun_from_split(m_init(), s, i);
    lemma_mrun_from_dead(mrun(s.take(i)), s.skip(i));
}

/// At a position where no sequence is open, validity of the whole splits
/// into validity of the rest.
pub proof fn lemma_boundary_split(s: Seq<u8>, b: int)
    requires
        0 <= b <= s.len(),
        mrun(s.take(b)).ok,
        mrun(s.take(b)).pend.len() == 0,
    ensures
        is_utf8_seq(s) <==> is_utf8_seq(s.skip(b)),
{
    lemma_mrun_from_split(m_init(), s, b);
    assert(mrun(s.take(b)).pend =~= Seq::<u8>::empty());
    assert(mrun(s.take(b)) == m_init());
    assert(mrun(s) == mrun(s.skip(b)));
    lemma_machine_characterizes_utf8(s);
    lemma_machine_characterizes_utf8(s.skip(b));
}

/// The acceptor and the recursive definition agree on every input.
pub proof fn lemma_machine_characterizes_utf8(s: Seq<u8>)
    ensures
        m_accepts(s) <==> is_utf8_seq(s),
{
    if is_utf8_seq(s) {
        lemma_utf8_implies_accept(s);
    }
    if m_accepts(s) {
        lemma_accept_implies_utf8(s);
    }
}

} // verus!
