//! The Fiat-Shamir transcript of the proof: a `merlin::Transcript`, and the messages that
//! the prover and the verifier absorb into it and the challenges they draw from it.
//!
//! A merlin transcript is a deterministic function of the operations applied to it, so
//! it is described by that list: `transcript_ops(t)`. Each entry is `(tag, label, bytes)`,
//! with tag 0 for an appended message and tag 1 for drawn challenge bytes.
use crate::field::{group_order, le_nat};
use crate::point::CompressedRistretto;
use crate::scalar::Scalar;
use merlin::Transcript;
use vstd::prelude::*;

verus! {

#[verifier::external_type_specification]
#[verifier::external_body]
pub struct ExTranscript(Transcript);

/// One operation applied to a transcript: (tag, label, bytes).
pub type TranscriptOp = (u8, Seq<u8>, Seq<u8>);

/// The operations applied to a merlin transcript so far, oldest first.
pub uninterp spec fn transcript_ops(t: Transcript) -> Seq<(u8, Seq<u8>, Seq<u8>)>;

/// The 64 bytes that `Transcript::challenge_bytes` draws under `label` from a transcript
/// to which `ops` were applied.
pub uninterp spec fn merlin_challenge(ops: Seq<(u8, Seq<u8>, Seq<u8>)>, label: Seq<u8>) -> Seq<u8>;

/// The entry that appending `msg` under `label` adds.
pub open spec fn message_op(label: Seq<u8>, msg: Seq<u8>) -> TranscriptOp {
    (0u8, label, msg)
}

/// The entry that drawing the challenge bytes `out` under `label` adds.
pub open spec fn challenge_op(label: Seq<u8>, out: Seq<u8>) -> TranscriptOp {
    (1u8, label, out)
}

/// The scalar challenge drawn under `label` after `ops`: 64 bytes reduced modulo ℓ.
pub open spec fn challenge_value(ops: Seq<TranscriptOp>, label: Seq<u8>) -> int {
    le_nat(merlin_challenge(ops, label)) as int % group_order()
}

/// The transcript after drawing the scalar challenge under `label` from `ops`.
pub open spec fn after_challenge(ops: Seq<TranscriptOp>, label: Seq<u8>) -> Seq<TranscriptOp> {
    ops.push(challenge_op(label, merlin_challenge(ops, label)))
}

/// The label of the domain separator: `dom-sep`.
pub const DOM_SEP_LABEL: [u8; 7] = [100, 111, 109, 45, 115, 101, 112];

/// The message of the inner-product domain separator: `ipsp inner product`.
pub const INNER_PRODUCT_DOMAIN: [u8; 18] = [
    105, 112, 115, 112, 32, 105, 110, 110, 101, 114, 32, 112, 114, 111, 100, 117, 99, 116,
];

/// Appends the domain separator of the inner-product proof.
pub fn inner_product_domain_separator(transcript: &mut Transcript)
    ensures
        transcript_ops(*final(transcript)) == transcript_ops(*old(transcript)).push(
            message_op(DOM_SEP_LABEL@, INNER_PRODUCT_DOMAIN@),
        ),
{
    merlin_append_message(transcript, &DOM_SEP_LABEL, &INNER_PRODUCT_DOMAIN);
}

/// Appends a compressed point under `label`.
pub fn append_point(transcript: &mut Transcript, label: &'static [u8], point: &CompressedRistretto)
    ensures
        transcript_ops(*final(transcript)) == transcript_ops(*old(transcript)).push(
            message_op(label@, point.bytes@),
        ),
{
    merlin_append_message(transcript, label, &point.bytes);
}

/// Draws a scalar challenge under `label`: 64 challenge bytes reduced modulo ℓ.
pub fn challenge_scalar(transcript: &mut Transcript, label: &'static [u8]) -> (r: Scalar)
    ensures
        r.val() == challenge_value(transcript_ops(*old(transcript)), label@),
        r.canonical(),
        transcript_ops(*final(transcript)) == after_challenge(
            transcript_ops(*old(transcript)),
            label@,
        ),
{
    let buf = merlin_challenge_bytes(transcript, label);
    Scalar::from_bytes_mod_order_wide(&buf)
}

/// `Transcript::append_message` of merlin: absorbs `msg` under `label`. The source asserts
/// that the message's length fits in a `u32`.
#[verifier::external_body]
fn merlin_append_message(t: &mut Transcript, label: &'static [u8], msg: &[u8])
    requires
        msg@.len() <= u32::MAX,
    ensures
        transcript_ops(*final(t)) == transcript_ops(*old(t)).push(message_op(label@, msg@)),
{
    t.append_message(label, msg);
}

/// `Transcript::challenge_bytes` of merlin, into 64 bytes: the bytes are a function of the
/// operations applied before and of the label, and drawing them is itself an operation.
#[verifier::external_body]
fn merlin_challenge_bytes(t: &mut Transcript, label: &'static [u8]) -> (r: [u8; 64])
    ensures
        r@ == merlin_challenge(transcript_ops(*old(t)), label@),
        transcript_ops(*final(t)) == transcript_ops(*old(t)).push(challenge_op(label@, r@)),
{
    let mut buf = [0u8; 64];
    t.challenge_bytes(label, &mut buf);
    buf
}

} // verus!
