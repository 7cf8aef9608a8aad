//! A Fiat-Shamir transcript on top of merlin's STROBE-based transcript. Its
//! history of operations is tracked as a ghost value; every challenge is a
//! function of that history.
use vstd::prelude::*;
use crate::field::{Fe, fe_bytes, le_value, p};
use crate::mle::vals;

verus! {

/// Number of bytes drawn for each challenge before reduction into the field.
pub const CHALLENGE_BYTES: usize = 16;

/// One operation on a transcript.
pub enum TranscriptOp {
    /// Creation, with a domain-separation label.
    Domain(Seq<char>),
    /// A labelled message.
    Append(Seq<char>, Seq<u8>),
    /// A labelled challenge of the given number of bytes.
    Challenge(Seq<char>, nat),
}

/// The bytes that merlin's transcript hands out for a challenge of `len`
/// bytes under `label`, after the operations of `history`.
pub uninterp spec fn strobe_challenge(history: Seq<TranscriptOp>, label: Seq<char>, len: nat) -> Seq<u8>;

#[verifier::external_type_specification]
#[verifier::external_body]
pub struct ExMerlinTranscript(merlin::Transcript);

/// A transcript together with the history of operations that made it. The
/// history is ghost: it records what the merlin state was built from, and
/// only the three merlin wrappers below (and `new`) change either.
pub struct FsTranscript {
    inner: merlin::Transcript,
    history: Ghost<Seq<TranscriptOp>>,
}

/// The operations that append each element of `xs` under `label`.
pub open spec fn append_ops(label: Seq<char>, xs: Seq<int>) -> Seq<TranscriptOp> {
    Seq::new(xs.len(), |j: int| TranscriptOp::Append(label, fe_bytes(xs[j])))
}

/// The field element that a challenge under `label` yields after `history`:
/// the little-endian integer of the drawn bytes, reduced modulo p.
pub open spec fn challenge_value(history: Seq<TranscriptOp>, label: Seq<char>) -> int {
    le_value(strobe_challenge(history, label, CHALLENGE_BYTES as nat)) % p()
}

/// Relies on merlin's `Transcript::new`, which starts a transcript under a
/// domain-separation label.
#[verifier::external_body]
fn merlin_new(label: &'static str) -> merlin::Transcript {
    merlin::Transcript::new(label.as_bytes())
}

/// Relies on merlin's `Transcript::append_message`, which absorbs a labelled
/// message (it panics on messages longer than u32::MAX bytes).
#[verifier::external_body]
fn merlin_append(t: &mut FsTranscript, label: &'static str, msg: &Vec<u8>)
    requires
        msg@.len() <= u32::MAX,
    ensures
        final(t).history() == old(t).history().push(TranscriptOp::Append(label@, msg@)),
{
    t.inner.append_message(label.as_bytes(), msg.as_slice())
}

/// Relies on merlin's `Transcript::challenge_bytes`, which fills a buffer with
/// bytes determined by the transcript so far, the label and the length, and
/// records the challenge in the transcript.
#[verifier::external_body]
fn merlin_challenge(t: &mut FsTranscript, label: &'static str, len: usize) -> (r: Vec<u8>)
    requires
        len <= u32::MAX,
    ensures
        r@ == strobe_challenge(old(t).history(), label@, len as nat),
        r@.len() == len,
        final(t).history() == old(t).history().push(TranscriptOp::Challenge(label@, len as nat)),
{
    let mut buf = vec![0u8; len];
    t.inner.challenge_bytes(label.as_bytes(), buf.as_mut_slice());
    buf
}

impl FsTranscript {
    /// The operations performed on this transcript, oldest first.
    pub closed spec fn history(&self) -> Seq<TranscriptOp> {
        self.history@
    }

    /// A fresh transcript under the domain label `domain`.
    pub fn new(domain: &'static str) -> (r: FsTranscript)
        ensures
            r.history() == seq![TranscriptOp::Domain(domain@)],
    {
        let history: Ghost<Seq<TranscriptOp>> = Ghost(Seq::empty().push(TranscriptOp::Domain(domain@)));
        FsTranscript { inner: merlin_new(domain), history }
    }

    /// Appends the encoding of `x` under `label`.
    pub fn append_fe(&mut self, label: &'static str, x: Fe)
        ensures
            final(self).history() == old(self).history().push(
                TranscriptOp::Append(label@, fe_bytes(x.val())),
            ),
    {
        let bytes = x.to_bytes_le();
        merlin_append(self, label, &bytes);
    }

    /// Appends each element of `xs` under `label`, in order.
    pub fn append_fes(&mut self, label: &'static str, xs: &Vec<Fe>)
        ensures
            final(self).history() == old(self).history() + append_ops(label@, vals(xs@)),
    {
        let ghost start = self.history();
        let mut i: usize = 0;
        while i < xs.len()
            invariant
                i <= xs@.len(),
                self.history() == start + append_ops(label@, vals(xs@.subrange(0, i as int))),
            decreases xs@.len() - i,
        {
            self.append_fe(label, xs[i]);
            assert(append_ops(label@, vals(xs@.subrange(0, i + 1))) =~= append_ops(
                label@,
                vals(xs@.subrange(0, i as int)),
            ).push(TranscriptOp::Append(label@, fe_bytes(xs@[i as int].val()))));
            i = i + 1;
        }
        assert(xs@.subrange(0, xs@.len() as int) =~= xs@);
    }

    /// Draws a challenge under `label` and decodes it into the field.
    pub fn challenge_fe(&mut self, label: &'static str) -> (r: Fe)
        ensures
            r.wf(),
            r.val() == challenge_value(old(self).history(), label@),
            final(self).history() == old(self).history().push(
                TranscriptOp::Challenge(label@, CHALLENGE_BYTES as nat),
            ),
    {
        let bytes = merlin_challenge(self, label, CHALLENGE_BYTES);
        Fe::from_bytes_le_wide(&bytes)
    }
}

/// A transcript that absorbs field elements and hands out field challenges.
pub trait TranscriptProtocol {
    /// The operations performed so far, oldest first.
    spec fn transcript_history(&self) -> Seq<TranscriptOp>;

    /// Draws a challenge under `label`, decoded into the field.
    fn challenge_scalar(&mut self, label: &'static str) -> (r: Fe)
        ensures
            r.wf(),
            r.val() == challenge_value(old(self).transcript_history(), label@),
            final(self).transcript_history() == old(self).transcript_history().push(
                TranscriptOp::Challenge(label@, CHALLENGE_BYTES as nat),
            ),
    ;

    /// Appends `scalar` under `label`.
    fn append_data(&mut self, label: &'static str, scalar: &Fe)
        ensures
            final(self).transcript_history() == old(self).transcript_history().push(
                TranscriptOp::Append(label@, fe_bytes(scalar.val())),
            ),
    ;
}

impl TranscriptProtocol for FsTranscript {
    open spec fn transcript_history(&self) -> Seq<TranscriptOp> {
        self.history()
    }

    fn challenge_scalar(&mut self, label: &'static str) -> (r: Fe) {
        self.challenge_fe(label)
    }

    fn append_data(&mut self, label: &'static str, scalar: &Fe) {
        self.append_fe(label, *scalar)
    }
}

} // verus!
