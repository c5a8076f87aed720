//! The inner-product argument as mathematics: the prover's folding rounds, the proof it
//! produces, and the verifier's decision, over residues modulo the group order.
//!
//! Scalars are their values and group elements are their discrete logarithms to the
//! basepoint; the transcript is the list of operations applied to it.
use crate::field::{dot, group_order, inv, lin, md, zeros};
use crate::point::{encodes_at_most_one, encodes_point, ristretto_encoding};
use crate::transcript::{
    after_challenge, challenge_value, message_op, TranscriptOp, DOM_SEP_LABEL,
    INNER_PRODUCT_DOMAIN,
};
use vstd::arithmetic::power2::{lemma_pow2_pos, lemma_pow2_unfold, pow2};
use vstd::prelude::*;

verus! {

/// Label of the folded commitment `t_{-1}`: `t-1`.
pub const T_MINUS1_LABEL: [u8; 3] = [116, 45, 49];

/// Label of the folded commitment `t_1`: `t1`.
pub const T1_LABEL: [u8; 2] = [116, 49];

/// Label of the challenges: `c`.
pub const C_LABEL: [u8; 1] = [99];

/// Label of the final commitment `w`: `w`.
pub const W_LABEL: [u8; 1] = [119];

/// Errors of proof verification.
#[derive(Clone, Copy, Debug, PartialEq, Eq, Structural)]
pub enum ProofError {
    /// The proof does not have the shape of a proof, or one of its points is not the
    /// encoding of a group element.
    MalformedProof,
    /// The proof is well formed, but its final check fails.
    VerificationError,
}

// ---------------------------------------------------------------------------------------
// Lengths
// ---------------------------------------------------------------------------------------

/// The least `e >= k` with `2^e >= n`.
pub open spec fn ceil_log2_from(n: nat, k: nat) -> nat
    decreases n - k,
{
    if pow2(k) >= n {
        k
    } else {
        proof {
            lemma_pow2_exceeds(k);
        }
        ceil_log2_from(n, k + 1)
    }
}

/// `2^k > k`.
pub proof fn lemma_pow2_exceeds(k: nat)
    ensures
        pow2(k) > k,
    decreases k,
{
    lemma_pow2_pos(k);
    if k > 0 {
        lemma_pow2_exceeds((k - 1) as nat);
        lemma_pow2_unfold(k);
    }
}

/// Counting up from `k <= e`, the least exponent reaching `2^e` is `e`.
pub proof fn lemma_ceil_log2_from_pow2(e: nat, k: nat)
    requires
        k <= e,
    ensures
        ceil_log2_from(pow2(e), k) == e,
    decreases e - k,
{
    if k < e {
        vstd::arithmetic::power2::lemma_pow2_strictly_increases(k, e);
        lemma_ceil_log2_from_pow2(e, k + 1);
    }
}

/// Counting up from `k`, the exponent reached covers `n`.
pub proof fn lemma_ceil_log2_from_covers(n: nat, k: nat)
    ensures
        pow2(ceil_log2_from(n, k)) >= n,
        ceil_log2_from(n, k) >= k,
    decreases n - k,
{
    if pow2(k) < n {
        lemma_pow2_exceeds(k);
        lemma_ceil_log2_from_covers(n, k + 1);
    }
}

/// `next_pow2(n)` is at least `n`.
pub proof fn lemma_next_pow2_covers(n: nat)
    ensures
        next_pow2(n) >= n,
{
    lemma_ceil_log2_from_covers(n, 0);
}

/// `next_pow2` of a power of two is itself, and `next_pow2(n)` is a power of two.
pub proof fn lemma_next_pow2_of_pow2(n: nat)
    ensures
        ceil_log2(pow2(ceil_log2(n))) == ceil_log2(n),
        next_pow2(next_pow2(n)) == next_pow2(n),
{
    lemma_ceil_log2_from_pow2(ceil_log2(n), 0);
}

/// The least `e` with `2^e >= n`: the number of folding rounds for `n` generators.
pub open spec fn ceil_log2(n: nat) -> nat {
    ceil_log2_from(n, 0)
}

/// The least power of two that is at least `n` (1 for 0), as `usize::next_power_of_two`.
pub open spec fn next_pow2(n: nat) -> nat {
    pow2(ceil_log2(n))
}

/// `v` extended with zeros to length `n`.
pub open spec fn pad(v: Seq<int>, n: nat) -> Seq<int> {
    v + zeros((n - v.len()) as nat)
}

/// The first half of `v`.
pub open spec fn top(v: Seq<int>) -> Seq<int> {
    v.subrange(0, (v.len() / 2) as int)
}

/// The second half of `v` (the longer one when the length is odd).
pub open spec fn bot(v: Seq<int>) -> Seq<int> {
    v.subrange((v.len() / 2) as int, v.len() as int)
}

// ---------------------------------------------------------------------------------------
// Transcript of the folding rounds
// ---------------------------------------------------------------------------------------

/// The domain separator entry that the prover and the verifier both append first.
pub open spec fn dom_sep_op() -> TranscriptOp {
    message_op(DOM_SEP_LABEL@, INNER_PRODUCT_DOMAIN@)
}

/// The messages of one folding round: `t_{-1}`, then `t_1`.
pub open spec fn round_ops(ops: Seq<TranscriptOp>, tm1: Seq<u8>, t1: Seq<u8>) -> Seq<
    TranscriptOp,
> {
    ops.push(message_op(T_MINUS1_LABEL@, tm1)).push(message_op(T1_LABEL@, t1))
}

/// The transcript after the folding rounds whose commitments are `tm1s` and `t1s`.
pub open spec fn rounds_transcript(
    ops: Seq<TranscriptOp>,
    tm1s: Seq<Seq<u8>>,
    t1s: Seq<Seq<u8>>,
) -> Seq<TranscriptOp>
    decreases t1s.len(),
{
    if t1s.len() == 0 || tm1s.len() == 0 {
        ops
    } else {
        after_challenge(
            round_ops(
                rounds_transcript(ops, tm1s.drop_last(), t1s.drop_last()),
                tm1s.last(),
                t1s.last(),
            ),
            C_LABEL@,
        )
    }
}

/// The challenges of the folding rounds whose commitments are `tm1s` and `t1s`.
pub open spec fn rounds_challenges(
    ops: Seq<TranscriptOp>,
    tm1s: Seq<Seq<u8>>,
    t1s: Seq<Seq<u8>>,
) -> Seq<int>
    decreases t1s.len(),
{
    if t1s.len() == 0 || tm1s.len() == 0 {
        seq![]
    } else {
        rounds_challenges(ops, tm1s.drop_last(), t1s.drop_last()).push(
            challenge_value(
                round_ops(
                    rounds_transcript(ops, tm1s.drop_last(), t1s.drop_last()),
                    tm1s.last(),
                    t1s.last(),
                ),
                C_LABEL@,
            ),
        )
    }
}

// ---------------------------------------------------------------------------------------
// Group-element arithmetic of the rounds
// ---------------------------------------------------------------------------------------

/// The commitment folded with challenge `c`: `t_{-1}·c⁻² + t + t_1·c²`.
pub open spec fn fold_t(t: int, tm1: int, t1: int, c: int) -> int {
    md(tm1 * inv(c) * inv(c) + t + t1 * c * c)
}

/// The commitment folded with challenge `c` for vector commitments: `t_{-1}·c⁻¹ + t + t_1·c`.
pub open spec fn fold_t_commits(t: int, tm1: int, t1: int, c: int) -> int {
    md(tm1 * inv(c) + t + t1 * c)
}

/// The residue that an encoding stands for.
pub open spec fn decode(bytes: Seq<u8>) -> int {
    choose|k: int| 0 <= k < group_order() && #[trigger] ristretto_encoding(k) == bytes
}

/// Every entry of `bs` encodes a group element.
pub open spec fn all_encode(bs: Seq<Seq<u8>>) -> bool {
    forall|i: int| 0 <= i < bs.len() ==> encodes_point(#[trigger] bs[i])
}

/// Each entry of `bs` encodes at most one group element.
pub open spec fn all_at_most_one(bs: Seq<Seq<u8>>) -> bool {
    forall|i: int| 0 <= i < bs.len() ==> encodes_at_most_one(#[trigger] bs[i])
}

/// Every encoding in the proof names at most one group element, as the encodings that
/// `RistrettoPoint::compress` makes do.
pub open spec fn canonical_encodings(p: ProofModel) -> bool {
    all_at_most_one(p.t1s) && all_at_most_one(p.tm1s) && encodes_at_most_one(p.w)
}

/// The verifier's commitment after folding with the decoded `tm1s`, `t1s` and challenges `cs`.
pub open spec fn verifier_t(t: int, tm1s: Seq<Seq<u8>>, t1s: Seq<Seq<u8>>, cs: Seq<int>) -> int
    decreases cs.len(),
{
    if cs.len() == 0 || t1s.len() == 0 || tm1s.len() == 0 {
        md(t)
    } else {
        fold_t(
            verifier_t(t, tm1s.drop_last(), t1s.drop_last(), cs.drop_last()),
            decode(tm1s.last()),
            decode(t1s.last()),
            cs.last(),
        )
    }
}

/// The same for vector commitments.
pub open spec fn verifier_t_commits(
    t: int,
    tm1s: Seq<Seq<u8>>,
    t1s: Seq<Seq<u8>>,
    cs: Seq<int>,
) -> int
    decreases cs.len(),
{
    if cs.len() == 0 || t1s.len() == 0 || tm1s.len() == 0 {
        md(t)
    } else {
        fold_t_commits(
            verifier_t_commits(t, tm1s.drop_last(), t1s.drop_last(), cs.drop_last()),
            decode(tm1s.last()),
            decode(t1s.last()),
            cs.last(),
        )
    }
}

/// Bit `j` of `i`.
pub open spec fn bit(i: int, j: nat) -> bool {
    (i / pow2(j) as int) % 2 == 1
}

/// The product, over the last `j` challenges from the end of `cs`, of the challenge where
/// the matching bit of `i` is set and of its inverse where it is not: bit 0 goes with the
/// last challenge, bit 1 with the one before, and so on.
pub open spec fn s_partial(i: int, cs: Seq<int>, j: nat) -> int
    decreases j,
{
    if j == 0 {
        1
    } else {
        let x = cs[cs.len() - j];
        md(s_partial(i, cs, (j - 1) as nat) * (if bit(i, (j - 1) as nat) {
            x
        } else {
            inv(x)
        }))
    }
}

/// The factor of generator `i` in the fully folded generator.
pub open spec fn s_factor(i: int, cs: Seq<int>) -> int {
    s_partial(i, cs, cs.len())
}

/// The factors of all `n` generators.
pub open spec fn s_vec(cs: Seq<int>, n: nat) -> Seq<int> {
    Seq::new(n, |i: int| s_factor(i, cs))
}

/// For vector commitments: the product of the challenges whose bit is set.
pub open spec fn s_partial_commits(i: int, cs: Seq<int>, j: nat) -> int
    decreases j,
{
    if j == 0 {
        1
    } else {
        let x = cs[cs.len() - j];
        let p = s_partial_commits(i, cs, (j - 1) as nat);
        if bit(i, (j - 1) as nat) {
            md(p * x)
        } else {
            p
        }
    }
}

/// The factors of all `n` generators `g` for vector commitments.
pub open spec fn s_vec_commits(cs: Seq<int>, n: nat) -> Seq<int> {
    Seq::new(n, |i: int| s_partial_commits(i, cs, cs.len()))
}

/// The inverses of the factors.
pub open spec fn inverses(s: Seq<int>) -> Seq<int> {
    Seq::new(s.len(), |i: int| inv(s[i]))
}

// ---------------------------------------------------------------------------------------
// The prover
// ---------------------------------------------------------------------------------------

/// The prover's state between folding rounds.
pub ghost struct FoldState {
    /// The transcript so far.
    pub ops: Seq<TranscriptOp>,
    /// The challenges drawn so far.
    pub cs: Seq<int>,
    /// The secret vector.
    pub v: Seq<int>,
    /// The public vector.
    pub z: Seq<int>,
    /// The generators.
    pub h: Seq<int>,
    /// The commitment.
    pub t: int,
    /// The blinding factor.
    pub rho: int,
    /// The encodings of the commitments `t_1` sent so far.
    pub t1s: Seq<Seq<u8>>,
    /// The encodings of the commitments `t_{-1}` sent so far.
    pub tm1s: Seq<Seq<u8>>,
}

/// `t_{-1}` of a round: the bottom half of `v` on the top half of `h`, their cross
/// product on `f`, and `σ_{-1}` on `u`.
pub open spec fn round_tm1(s: FoldState, f: int, u: int, sigma_m1: int) -> int {
    let x_m1 = md(dot(bot(s.v), top(s.z)));
    md(dot(bot(s.v).push(x_m1).push(sigma_m1), top(s.h).push(f).push(u)))
}

/// `t_1` of a round: the top half of `v` on the bottom half of `h`, their cross product
/// on `f`, and `σ` on `u`.
pub open spec fn round_t1(s: FoldState, f: int, u: int, sigma: int) -> int {
    let x = md(dot(top(s.v), bot(s.z)));
    md(dot(top(s.v).push(x).push(sigma), bot(s.h).push(f).push(u)))
}

/// One folding round of the prover with the random blinders `sigma` and `sigma_m1`.
#[verifier::opaque]
pub open spec fn prover_step(s: FoldState, f: int, u: int, sigma: int, sigma_m1: int) -> FoldState {
    let tm1 = round_tm1(s, f, u, sigma_m1);
    let t1 = round_t1(s, f, u, sigma);
    let ops1 = round_ops(s.ops, ristretto_encoding(tm1), ristretto_encoding(t1));
    let c = challenge_value(ops1, C_LABEL@);
    let ci = inv(c);
    FoldState {
        ops: after_challenge(ops1, C_LABEL@),
        cs: s.cs.push(c),
        v: lin(top(s.v), bot(s.v), c, ci),
        z: lin(top(s.z), bot(s.z), ci, c),
        h: lin(top(s.h), bot(s.h), ci, c),
        t: fold_t(s.t, tm1, t1, c),
        rho: md(s.rho + ci * ci * sigma_m1 + c * c * sigma),
        t1s: s.t1s.push(ristretto_encoding(t1)),
        tm1s: s.tm1s.push(ristretto_encoding(tm1)),
    }
}

/// The fields of a prover round.
pub proof fn lemma_prover_step_fields(st: FoldState, f: int, u: int, sigma: int, sigma_m1: int)
    ensures
        ({
            let tm1 = round_tm1(st, f, u, sigma_m1);
            let t1 = round_t1(st, f, u, sigma);
            let ops1 = round_ops(st.ops, ristretto_encoding(tm1), ristretto_encoding(t1));
            let c = challenge_value(ops1, C_LABEL@);
            let st1 = prover_step(st, f, u, sigma, sigma_m1);
            &&& st1.v == lin(top(st.v), bot(st.v), c, inv(c))
            &&& st1.z == lin(top(st.z), bot(st.z), inv(c), c)
            &&& st1.h == lin(top(st.h), bot(st.h), inv(c), c)
            &&& st1.t == fold_t(st.t, tm1, t1, c)
            &&& st1.rho == md(st.rho + inv(c) * inv(c) * sigma_m1 + c * c * sigma)
            &&& st1.ops == after_challenge(ops1, C_LABEL@)
            &&& st1.t1s == st.t1s.push(ristretto_encoding(t1))
            &&& st1.tm1s == st.tm1s.push(ristretto_encoding(tm1))
            &&& st1.cs == st.cs.push(c)
        }),
{
    reveal(prover_step);
}

/// The prover after the folding rounds with blinders `sigmas` (each `(σ, σ_{-1})`).
pub open spec fn prover_rounds(s: FoldState, f: int, u: int, sigmas: Seq<(int, int)>) -> FoldState
    decreases sigmas.len(),
{
    if sigmas.len() == 0 {
        s
    } else {
        prover_step(
            prover_rounds(s, f, u, sigmas.drop_last()),
            f,
            u,
            sigmas.last().0,
            sigmas.last().1,
        )
    }
}

/// The prover's state before the first round.
pub open spec fn fold_start(
    ops: Seq<TranscriptOp>,
    v: Seq<int>,
    z: Seq<int>,
    h: Seq<int>,
    t: int,
    rho: int,
) -> FoldState {
    FoldState { ops, cs: seq![], v, z, h, t, rho, t1s: seq![], tm1s: seq![] }
}

/// The prover's rounds for the secret `v`, the public `z`, the generators `h`, `f`, `u`,
/// the commitment `t`, the blinding `rho` and the blinders `sigmas`: the vectors padded to
/// the next power of two, after the domain separator.
pub open spec fn prover_run(
    ops: Seq<TranscriptOp>,
    v: Seq<int>,
    z: Seq<int>,
    h: Seq<int>,
    t: int,
    rho: int,
    f: int,
    u: int,
    sigmas: Seq<(int, int)>,
) -> FoldState {
    let n = next_pow2(h.len());
    prover_rounds(
        fold_start(ops.push(dom_sep_op()), pad(v, n), pad(z, n), pad(h, n), t, rho),
        f,
        u,
        sigmas,
    )
}

/// A proof, as the encodings and residues it holds.
pub ghost struct ProofModel {
    /// The encodings of the commitments `t_1`, one per round.
    pub t1s: Seq<Seq<u8>>,
    /// The encodings of the commitments `t_{-1}`, one per round.
    pub tm1s: Seq<Seq<u8>>,
    /// The encoding of the final commitment `w`.
    pub w: Seq<u8>,
    /// The response `e_1`.
    pub e1: int,
    /// The response `e_2`.
    pub e2: int,
}

/// The final commitment `w = h·y_1 + f·(y_1·z) + u·y_2` of a fully folded prover.
pub open spec fn final_w(s: FoldState, f: int, u: int, y1: int, y2: int) -> int {
    md(s.h[0] * y1 + f * (y1 * s.z[0]) + u * y2)
}

/// The proof that the prover makes, and its transcript afterwards, for the secret `v`, the
/// public `z`, the generators `h`, `f`, `u`, the commitment `t`, the blinding `rho`, and the
/// random values `sigmas`, `y1`, `y2`.
pub open spec fn create_model(
    ops: Seq<TranscriptOp>,
    v: Seq<int>,
    z: Seq<int>,
    h: Seq<int>,
    t: int,
    rho: int,
    f: int,
    u: int,
    sigmas: Seq<(int, int)>,
    y1: int,
    y2: int,
) -> (ProofModel, Seq<TranscriptOp>) {
    let s = prover_run(ops, v, z, h, t, rho, f, u, sigmas);
    let w = final_w(s, f, u, y1, y2);
    let ops_w = s.ops.push(message_op(W_LABEL@, ristretto_encoding(w)));
    let c = challenge_value(ops_w, C_LABEL@);
    (
        ProofModel {
            t1s: s.t1s,
            tm1s: s.tm1s,
            w: ristretto_encoding(w),
            e1: md(y1 - c * s.v[0]),
            e2: md(y2 - c * s.rho),
        },
        after_challenge(ops_w, C_LABEL@),
    )
}

// ---------------------------------------------------------------------------------------
// The verifier
// ---------------------------------------------------------------------------------------

/// What the verifier's folding returns, `(z, h, t)` folded, and its transcript afterwards,
/// for the commitment `t`, the generators `h` and the public vector `z`. A proof whose
/// number of rounds does not fit the generators, a round commitment that is no encoding,
/// or a public vector that does not pad to the generators' length, is malformed.
pub open spec fn folding_verifier_model(
    p: ProofModel,
    ops: Seq<TranscriptOp>,
    t: int,
    h: Seq<int>,
    z: Seq<int>,
) -> (Result<(int, int, int), ProofError>, Seq<TranscriptOp>) {
    if p.t1s.len() != p.tm1s.len() || pow2(p.t1s.len()) != h.len() {
        (Err(ProofError::MalformedProof), ops)
    } else {
        let ops2 = rounds_transcript(ops, p.tm1s, p.t1s);
        let cs = rounds_challenges(ops, p.tm1s, p.t1s);
        if !all_encode(p.t1s) || !all_encode(p.tm1s) {
            (Err(ProofError::MalformedProof), ops2)
        } else if next_pow2(z.len()) != h.len() {
            (Err(ProofError::MalformedProof), ops2)
        } else {
            let s = s_vec(cs, h.len());
            let zz = md(dot(pad(z, next_pow2(z.len())), s));
            let hh = md(dot(s, h));
            (Ok((zz, hh, verifier_t(t, p.tm1s, p.t1s, cs))), ops2)
        }
    }
}

/// What the verifier's folding for vector commitments returns, `(g, h, t)` folded, and
/// its transcript afterwards. Generators `h` of another length than `g` are malformed.
pub open spec fn folding_verifier_commits_model(
    p: ProofModel,
    ops: Seq<TranscriptOp>,
    t: int,
    g: Seq<int>,
    h: Seq<int>,
) -> (Result<(int, int, int), ProofError>, Seq<TranscriptOp>) {
    if p.t1s.len() != p.tm1s.len() || pow2(p.t1s.len()) != g.len() {
        (Err(ProofError::MalformedProof), ops)
    } else {
        let ops2 = rounds_transcript(ops, p.tm1s, p.t1s);
        let cs = rounds_challenges(ops, p.tm1s, p.t1s);
        if !all_encode(p.t1s) || !all_encode(p.tm1s) {
            (Err(ProofError::MalformedProof), ops2)
        } else if h.len() != g.len() {
            (Err(ProofError::MalformedProof), ops2)
        } else {
            let s = s_vec_commits(cs, g.len());
            (
                Ok(
                    (
                        md(dot(s, g)),
                        md(dot(inverses(s), h)),
                        verifier_t_commits(t, p.tm1s, p.t1s, cs),
                    ),
                ),
                ops2,
            )
        }
    }
}

/// The verifier's decision on proof `p`, and its transcript afterwards, for the commitment
/// `t`, the public vector `z` and the generators `f`, `h`, `u`.
pub open spec fn verify_model(
    p: ProofModel,
    ops: Seq<TranscriptOp>,
    t: int,
    z: Seq<int>,
    f: int,
    h: Seq<int>,
    u: int,
) -> (Result<(), ProofError>, Seq<TranscriptOp>) {
    let n = next_pow2(h.len());
    let folded = folding_verifier_model(p, ops.push(dom_sep_op()), t, pad(h, n), z);
    match folded.0 {
        Err(e) => (Err(e), folded.1),
        Ok((zz, hh, tt)) => {
            let ops_w = folded.1.push(message_op(W_LABEL@, p.w));
            let c = challenge_value(ops_w, C_LABEL@);
            let ops_c = after_challenge(ops_w, C_LABEL@);
            if !encodes_point(p.w) {
                (Err(ProofError::MalformedProof), ops_c)
            } else if decode(p.w) == md(tt * c + hh * p.e1 + f * (p.e1 * zz) + u * p.e2) {
                (Ok(()), ops_c)
            } else {
                (Err(ProofError::VerificationError), ops_c)
            }
        },
    }
}

/// The commitment to `v` and `z` with blinding `rho`: `Σ v_i·h_i + ⟨v, z⟩·f + rho·u`.
pub open spec fn commitment(v: Seq<int>, z: Seq<int>, rho: int, f: int, h: Seq<int>, u: int) -> int {
    md(dot(v, h) + md(dot(v, z)) * f + rho * u)
}

} // verus!
