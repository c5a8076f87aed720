//! Pedersen commitments of an account's values on the confidential chain.
use crate::field::{lemma_md_add, md};
use crate::point::{bulletproofs_pedersen_gens, ristretto_encoding, CompressedRistretto, RistrettoPoint};
use crate::scalar::{dalek_random, Scalar};
use vstd::prelude::*;

verus! {

/// The residue of the Pedersen commitment `v·f + r·u` to the value `v` with blinding `r`.
pub open spec fn pedersen(v: int, r: int, f: int, u: int) -> int {
    md(v * f + r * u)
}

/// The compressed Pedersen commitment `v·f + blinding·g` to the value `v`.
pub fn compute_ctx_gens_commitment(
    f: &RistrettoPoint,
    g: &RistrettoPoint,
    v: &Scalar,
    blinding: &Scalar,
) -> (r: CompressedRistretto)
    ensures
        r.bytes@ == ristretto_encoding(pedersen(v.val(), blinding.val(), f.log(), g.log())),
{
    let commit = f.times(v).plus(&g.times(blinding));
    proof {
        lemma_md_add(f.log() * v.val(), g.log() * blinding.val());
        assert(f.log() * v.val() == v.val() * f.log()) by (nonlinear_arith);
        assert(g.log() * blinding.val() == blinding.val() * g.log()) by (nonlinear_arith);
    }
    commit.compress()
}

/// The Pedersen side of an account: the value it holds, the blinding of the commitment to
/// it, and the generators `f` of values and `u` of blindings.
pub struct PedersenAccount {
    /// The value held.
    pub value: u64,
    /// The blinding of the commitment to the value.
    pub blinding: Scalar,
    /// The generator of values: the basepoint.
    pub f: RistrettoPoint,
    /// The generator of blindings.
    pub u: RistrettoPoint,
}

impl PedersenAccount {
    /// Opens an account holding `initial_value`, with the default Pedersen generators and a
    /// random blinding, and returns it with the commitment to its value.
    pub fn new(initial_value: u64) -> (r: (PedersenAccount, CompressedRistretto))
        ensures
            r.0.value == initial_value,
            r.0.f.log() == 1,
            r.0.blinding.canonical(),
            r.1.bytes@ == ristretto_encoding(
                pedersen(initial_value as int, r.0.blinding.val(), r.0.f.log(), r.0.u.log()),
            ),
    {
        let (f, u) = bulletproofs_pedersen_gens();
        let blinding = dalek_random();
        let value = Scalar::from_u64(initial_value);
        let commitment = compute_ctx_gens_commitment(&f, &u, &value, &blinding);
        (PedersenAccount { value: initial_value, blinding, f, u }, commitment)
    }

    /// Commits to each message with a fresh random blinding: the commitments, and their
    /// blindings in the same order.
    pub fn commit_messages(&self, messages: &[u64]) -> (r: (Vec<CompressedRistretto>, Vec<Scalar>))
        ensures
            r.0@.len() == messages@.len(),
            r.1@.len() == messages@.len(),
            forall|i: int|
                0 <= i < messages@.len() ==> (#[trigger] r.1@[i]).canonical() && r.0@[i].bytes@
                    == ristretto_encoding(
                    pedersen(messages@[i] as int, r.1@[i].val(), self.f.log(), self.u.log()),
                ),
    {
        let mut commitments: Vec<CompressedRistretto> = Vec::new();
        let mut blindings: Vec<Scalar> = Vec::new();
        let mut i: usize = 0;
        while i < messages.len()
            invariant
                i <= messages@.len(),
                commitments@.len() == i,
                blindings@.len() == i,
                forall|j: int|
                    0 <= j < i ==> (#[trigger] blindings@[j]).canonical() && commitments@[j].bytes@
                        == ristretto_encoding(
                        pedersen(messages@[j] as int, blindings@[j].val(), self.f.log(), self.u.log()),
                    ),
            decreases messages@.len() - i,
        {
            let r = dalek_random();
            let m = Scalar::from_u64(messages[i]);
            let commitment = compute_ctx_gens_commitment(&self.f, &self.u, &m, &r);
            commitments.push(commitment);
            blindings.push(r);
            i = i + 1;
        }
        (commitments, blindings)
    }
}

} // verus!
