//! Properties that hold of every validator in this crate.
//!
//! Each executable validator's contract states that it returns exactly
//! [`is_utf8_seq`] of its input.  Because that makes the verdict a
//! function of the byte sequence alone, repeated calls on the same input
//! return the same result and cannot interfere with each other.  The
//! lemmas here record the remaining facts that relate the validators and
//! the definition itself.

use vstd::prelude::*;

use crate::lemire::asc_proofs::lemma_lemire_ascii_correct;
use crate::lemire::model::{lemire_ascii_result, lemire_result};
use crate::lemire::proofs::lemma_lemire_correct;
use crate::utf8::{
    is_lead, is_utf8_seq, lemma_machine_characterizes_utf8, lemma_mrun_take_step,
    lemma_utf8_implies_accept, m_accepts, mrun, mstep, m_init,
};

verus! {

/// Agreement: the continuation-length algorithm returns the same verdict
/// at every lane width, and that verdict is well-formedness itself — the
/// same value the range-table and byte-by-byte validators return by
/// their contracts.
pub proof fn lemma_agreement(s: Seq<u8>, w1: int, w2: int)
    requires
        4 <= w1,
        4 <= w2,
    ensures
        lemire_result(s, w1) == lemire_result(s, w2),
        lemire_result(s, w1) == is_utf8_seq(s),
        lemire_ascii_result(s, w1) == is_utf8_seq(s),
        m_accepts(s) == is_utf8_seq(s),
{
    lemma_lemire_correct(s, w1);
    lemma_lemire_correct(s, w2);
    lemma_lemire_ascii_correct(s, w1);
    lemma_machine_characterizes_utf8(s);
}

/// Prefix sensitivity: dropping the last byte of a well-formed sequence
/// that ends in a multi-byte sequence leaves an ill-formed sequence.
pub proof fn lemma_truncation(s: Seq<u8>)
    requires
        is_utf8_seq(s),
        s.len() > 0,
        s.last() >= 0x80,
    ensures
        !is_utf8_seq(s.drop_last()),
{
    let n = s.len() as int;
    lemma_utf8_implies_accept(s);
    lemma_mrun_take_step(s, n - 1);
    assert(s.take(n) =~= s);
    assert(s.take(n - 1) =~= s.drop_last());
    let st = mrun(s.drop_last());
    assert(mstep(st, s.last()) == m_init());
    if st.pend.len() == 0 {
        // A byte at or above 80 from a boundary cannot return to the
        // starting state: it opens a sequence or fails.
        assert(!(s.last() < 0x80));
        if is_lead(s.last()) {
            assert(mstep(st, s.last()).pend.len() == 1);
            assert(false);
        } else {
            assert(!mstep(st, s.last()).ok);
            assert(false);
        }
    }
    assert(!m_accepts(s.drop_last()));
    lemma_machine_characterizes_utf8(s.drop_last());
}

/// ASCII passthrough: a single byte is well-formed exactly when it is
/// below 80.
pub proof fn lemma_single_byte(b: u8)
    ensures
        is_utf8_seq(seq![b]) <==> b < 0x80,
{
    let s = seq![b];
    assert(s.skip(1) =~= Seq::<u8>::empty());
    assert(is_utf8_seq(Seq::<u8>::empty()));
    if b < 0x80 {
        assert(is_utf8_seq(s));
    } else {
        assert(s.len() < 2);
        assert(!is_utf8_seq(s));
    }
}

} // verus!
