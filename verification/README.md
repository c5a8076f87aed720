# a2f_ipsp

A verified zero-knowledge inner-product argument between a secret and a public vector of
scalars over the Ristretto group, and the Pedersen commitments of the accounts of an
additively homomorphic confidential chain whose values are converted into BFV ciphertexts.

The library is written in Verus. Group and scalar arithmetic is done by
`sunscreen_curve25519` and `sunscreen_math`, the Fiat-Shamir transcript by `merlin`, and
randomness by `rand`; each such call stands behind a small trusted item whose contract is
stated over the discrete logarithm of points and the value of scalars modulo the group
order.

Layout of `src/`:

- `field.rs`: residues modulo the group order, inner products of integer vectors.
- `scalar.rs`, `point.rs`: scalars and group elements, and the trusted items of the curve.
- `transcript.rs`: the transcript as the list of operations applied to it.
- `model.rs`: the prover, the proof and the verifier as mathematics.
- `ipsp.rs`: the executable prover and verifier, each proved to compute its model.
- `algebra.rs`, `laws.rs`: lemmas on inner products, and the properties of the argument
  as a whole: every folding round keeps the commitment relation, the verifier's one-shot
  folding agrees with the prover's rounds, and an honest proof is accepted.
- `account.rs`: Pedersen commitments of account values.

`app/` holds the account flow with its BFV encryption (`seal_fhe`) and the serializable
form of proofs.
