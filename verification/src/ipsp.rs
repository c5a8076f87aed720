//! The public-secret inner-product proof: a zero-knowledge proof that the prover knows a
//! secret vector `v_1` and a blinding factor `rho` such that a public commitment
//! `t = Σ v_1[i]·h[i] + ⟨v_1, z⟩·f + rho·u` holds, for a public vector `z`.
use crate::field::{
    dot, group_order, inv, invertible, lemma_md_add, lemma_md_mul, lemma_md_small, lemma_md_sub, lin,
    md,
};
use crate::model::{
    bot, ceil_log2, ceil_log2_from, fold_start, fold_t, next_pow2, pad, prover_rounds,
    prover_step, round_ops, round_t1, round_tm1, top, FoldState, C_LABEL, T1_LABEL, T_MINUS1_LABEL,
    commitment, create_model, lemma_prover_step_fields, ProofModel, W_LABEL, bit, s_factor, s_partial, s_partial_commits,
    rounds_transcript, rounds_challenges, ProofError, all_encode, decode, verifier_t, s_vec,
    folding_verifier_model, verify_model, verifier_t_commits, s_vec_commits, inverses,
    folding_verifier_commits_model, all_at_most_one, canonical_encodings,
};
use crate::point::{
    dalek_multiscalar_mul, encodes_at_most_one, encodes_point, lemma_log_range, logs, math_vec_add, math_vec_scale, ristretto_encoding,
    CompressedRistretto, RistrettoPoint,
};
use crate::laws::{
    challenges_invertible, commits_round_terms, fold_seq_commits,
    lemma_commits_fold_in_round_order, lemma_commits_generators_in_round_order,
    lemma_honest_proof_is_accepted,
};
use crate::scalar::{batch_invert, lemma_scalar_val_range, vals, Scalar};
use crate::transcript::{
    after_challenge, append_point, challenge_scalar, challenge_value, inner_product_domain_separator,
    transcript_ops, TranscriptOp,
};
use merlin::Transcript;
use vstd::arithmetic::power2::{lemma2_to64, lemma_pow2_unfold, pow2};
use vstd::prelude::*;

verus! {

/// The least power of two that is at least `n`, as `usize::next_power_of_two`.
pub fn next_power_of_two(n: usize) -> (r: usize)
    requires
        n as int <= usize::MAX as int / 2 + 1,
    ensures
        r as nat == next_pow2(n as nat),
        r >= n,
        r >= 1,
{
    let mut p: usize = 1;
    let ghost mut k: nat = 0;
    proof {
        lemma2_to64();
    }
    while p < n
        invariant
            p as nat == pow2(k),
            p >= 1,
            ceil_log2_from(n as nat, k) == ceil_log2(n as nat),
            n as int <= usize::MAX as int / 2 + 1,
        decreases 2 * n - p,
    {
        proof {
            lemma_pow2_unfold(k + 1);
        }
        p = p * 2;
        proof {
            k = k + 1;
        }
    }
    p
}

/// `v[lo..hi]` as a new vector.
pub(crate) fn sub_vec<T: Copy>(v: &[T], lo: usize, hi: usize) -> (r: Vec<T>)
    requires
        lo <= hi <= v@.len(),
    ensures
        r@ == v@.subrange(lo as int, hi as int),
{
    let mut r: Vec<T> = Vec::new();
    let mut i = lo;
    while i < hi
        invariant
            lo <= i <= hi <= v@.len(),
            r@ == v@.subrange(lo as int, i as int),
        decreases hi - i,
    {
        r.push(v[i]);
        i = i + 1;
    }
    r
}

/// `⟨a, b⟩` modulo the group order.
pub fn inner_product(a: &[Scalar], b: &[Scalar]) -> (r: Scalar)
    requires
        a@.len() == b@.len(),
    ensures
        r.val() == md(dot(vals(a@), vals(b@))),
        r.canonical(),
{
    let mut acc = Scalar::zero();
    let mut i: usize = 0;
    proof {
        assert(vals(a@).subrange(0, 0) =~= Seq::<int>::empty());
    }
    while i < a.len()
        invariant
            a@.len() == b@.len(),
            i <= a@.len(),
            acc.val() == md(dot(vals(a@).subrange(0, i as int), vals(b@).subrange(0, i as int))),
            acc.canonical(),
        decreases a@.len() - i,
    {
        let prod = a[i].times(&b[i]);
        let ghost prev = acc.val();
        acc = acc.plus(&prod);
        proof {
            let sa = vals(a@).subrange(0, i + 1);
            let sb = vals(b@).subrange(0, i + 1);
            assert(sa.drop_last() =~= vals(a@).subrange(0, i as int));
            assert(sb.drop_last() =~= vals(b@).subrange(0, i as int));
            let d = dot(vals(a@).subrange(0, i as int), vals(b@).subrange(0, i as int));
            assert(dot(sa, sb) == d + a@[i as int].val() * b@[i as int].val());
            lemma_md_add(d, a@[i as int].val() * b@[i as int].val());
        }
        i = i + 1;
    }
    proof {
        assert(vals(a@).subrange(0, a@.len() as int) =~= vals(a@));
        assert(vals(b@).subrange(0, b@.len() as int) =~= vals(b@));
    }
    acc
}

/// Elementwise `v_1[i]·c + v_2[i]·c_inv`.
pub fn mad_mad_scalar_scalar(v_1: &[Scalar], v_2: &[Scalar], c: Scalar, c_inv: Scalar) -> (r: Vec<
    Scalar,
>)
    requires
        v_1@.len() == v_2@.len(),
    ensures
        vals(r@) == lin(vals(v_1@), vals(v_2@), c.val(), c_inv.val()),
{
    let mut r: Vec<Scalar> = Vec::new();
    let mut i: usize = 0;
    while i < v_1.len()
        invariant
            v_1@.len() == v_2@.len(),
            i <= v_1@.len(),
            r@.len() == i,
            forall|j: int|
                0 <= j < i ==> #[trigger] r@[j].val() == md(
                    v_1@[j].val() * c.val() + v_2@[j].val() * c_inv.val(),
                ),
        decreases v_1@.len() - i,
    {
        let x = v_1[i].times(&c).plus(&v_2[i].times(&c_inv));
        proof {
            lemma_md_add(v_1@[i as int].val() * c.val(), v_2@[i as int].val() * c_inv.val());
        }
        r.push(x);
        i = i + 1;
    }
    proof {
        assert(vals(r@) =~= lin(vals(v_1@), vals(v_2@), c.val(), c_inv.val()));
    }
    r
}

/// Elementwise `v_1[i]·c + v_2[i]·c_inv`, over the shorter length.
pub fn mad_mad_scalar_point(
    v_1: &[RistrettoPoint],
    v_2: &[RistrettoPoint],
    c: Scalar,
    c_inv: Scalar,
) -> (r: Vec<RistrettoPoint>)
    ensures
        logs(r@) == lin(logs(v_1@), logs(v_2@), c.val(), c_inv.val()),
{
    let a = math_vec_scale(v_1, &c);
    let b = math_vec_scale(v_2, &c_inv);
    let r = math_vec_add(&a, &b);
    proof {
        assert forall|i: int| 0 <= i < r@.len() implies #[trigger] logs(r@)[i] == lin(
            logs(v_1@),
            logs(v_2@),
            c.val(),
            c_inv.val(),
        )[i] by {
            lemma_md_add(v_1@[i].log() * c.val(), v_2@[i].log() * c_inv.val());
        }
        assert(logs(r@) =~= lin(logs(v_1@), logs(v_2@), c.val(), c_inv.val()));
    }
    r
}

/// Elementwise `v_1[i] + v_2[i]·c`, over the shorter length.
pub fn mad_scalar_point(v_1: &[RistrettoPoint], v_2: &[RistrettoPoint], c: Scalar) -> (r: Vec<
    RistrettoPoint,
>)
    ensures
        logs(r@) == lin(logs(v_1@), logs(v_2@), 1, c.val()),
{
    let b = math_vec_scale(v_2, &c);
    let r = math_vec_add(v_1, &b);
    proof {
        assert forall|i: int| 0 <= i < r@.len() implies #[trigger] logs(r@)[i] == lin(
            logs(v_1@),
            logs(v_2@),
            1,
            c.val(),
        )[i] by {
            lemma_log_range(v_1@[i]);
            lemma_md_small(v_1@[i].log());
            lemma_md_add(v_1@[i].log(), v_2@[i].log() * c.val());
        }
        assert(logs(r@) =~= lin(logs(v_1@), logs(v_2@), 1, c.val()));
    }
    r
}

/// The exact reduction order of `t_{-1}·c⁻¹·c⁻¹ + t + t_1·c·c` is the folded commitment.
proof fn lemma_fold_t_value(t: int, tm1: int, t1: int, c: int, ci: int)
    ensures
        md(md(md(md(tm1 * ci) * ci) + t) + md(md(t1 * c) * c)) == md(tm1 * ci * ci + t + t1 * c
            * c),
{
    lemma_md_mul(tm1 * ci, ci);
    lemma_md_mul(t1 * c, c);
    lemma_md_add(md(tm1 * ci) * ci, t);
    lemma_md_add(tm1 * ci * ci, t);
    lemma_md_add(md(md(tm1 * ci) * ci) + t, md(md(t1 * c) * c));
    lemma_md_add(tm1 * ci * ci + t, t1 * c * c);
    lemma_md_add(md(tm1 * ci * ci + t), t1 * c * c);
    lemma_md_add(tm1 * ci * ci + t, md(t1 * c * c));
}

/// One folding round run by both the prover and the verifier: appends `t_{-1}` and `t_1`,
/// draws the challenge `c`, and folds the generators, the public vector and the
/// commitment. Returns `(h', z', t', c, c⁻¹)`.
pub fn fold_verifier(
    transcript: &mut Transcript,
    t: &RistrettoPoint,
    t_1: &RistrettoPoint,
    t_minus1: &RistrettoPoint,
    h_t: &[RistrettoPoint],
    h_b: &[RistrettoPoint],
    v_z_t: &[Scalar],
    v_z_b: &[Scalar],
) -> (r: (Vec<RistrettoPoint>, Vec<Scalar>, RistrettoPoint, Scalar, Scalar))
    requires
        h_t@.len() == h_b@.len(),
        v_z_t@.len() == h_b@.len(),
        v_z_b@.len() == h_b@.len(),
    ensures
        ({
            let ops1 = round_ops(
                transcript_ops(*old(transcript)),
                ristretto_encoding(t_minus1.log()),
                ristretto_encoding(t_1.log()),
            );
            let c = challenge_value(ops1, C_LABEL@);
            &&& transcript_ops(*final(transcript)) == after_challenge(ops1, C_LABEL@)
            &&& r.3.val() == c
            &&& r.4.val() == inv(c)
            &&& logs(r.0@) == lin(logs(h_t@), logs(h_b@), inv(c), c)
            &&& vals(r.1@) == lin(vals(v_z_t@), vals(v_z_b@), inv(c), c)
            &&& r.2.log() == fold_t(t.log(), t_minus1.log(), t_1.log(), c)
        }),
{
    append_point(transcript, &T_MINUS1_LABEL, &t_minus1.compress());
    append_point(transcript, &T1_LABEL, &t_1.compress());
    let c = challenge_scalar(transcript, &C_LABEL);
    let c_inv = c.invert();
    let h = mad_mad_scalar_point(h_t, h_b, c_inv, c);
    let vec_z = mad_mad_scalar_scalar(v_z_t, v_z_b, c_inv, c);
    let left = t_minus1.times(&c_inv).times(&c_inv).plus(t);
    let t_new = left.plus(&t_1.times(&c).times(&c));
    proof {
        lemma_fold_t_value(t.log(), t_minus1.log(), t_1.log(), c.val(), c_inv.val());
    }
    (h, vec_z, t_new, c, c_inv)
}

/// Information known to both the prover and the verifier.
#[derive(Clone)]
pub struct IPSPVerifierKnowledge {
    /// A commitment to `h^v_1 · f^⟨v_1, z⟩ · u^rho`.
    pub t: RistrettoPoint,
    /// The public vector `v_2`.
    pub z: Vec<Scalar>,
}

/// Information known only to the prover.
#[derive(Clone)]
pub struct IPSPProverKnowledge {
    /// The secret vector of the inner product.
    v_1: Vec<Scalar>,
    /// A blinding factor.
    rho: Scalar,
    /// The knowledge shared between both the prover and the verifier.
    pub vk: IPSPVerifierKnowledge,
}

/// A zero-knowledge proof that the prover knows a secret vector `v_1` whose inner product
/// with the public vector `z` the commitment `t` binds, together with `v_1` itself.
#[derive(Clone, Debug)]
pub struct IPSPInnerProductProof {
    /// The commitments `t_1` of the folding rounds.
    pub t_1: Vec<CompressedRistretto>,
    /// The commitments `t_{-1}` of the folding rounds.
    pub t_minus1: Vec<CompressedRistretto>,
    /// The final commitment `w`.
    pub w: CompressedRistretto,
    /// The response `e_1`.
    pub e_1: Scalar,
    /// The response `e_2`.
    pub e_2: Scalar,
}

/// The encodings held by a vector of compressed points.
pub open spec fn encodings(s: Seq<CompressedRistretto>) -> Seq<Seq<u8>> {
    Seq::new(s.len(), |i: int| s[i].bytes@)
}

/// The values of pairs of random blinders `(σ, σ_{-1})`.
pub open spec fn sigma_vals(s: Seq<(Scalar, Scalar)>) -> Seq<(int, int)> {
    Seq::new(s.len(), |i: int| (s[i].0.val(), s[i].1.val()))
}

/// `n` is a power of two.
pub open spec fn is_power_of_two(n: nat) -> bool {
    next_pow2(n) == n
}

impl IPSPProverKnowledge {
    /// The secret vector `v_1`.
    pub closed spec fn secret(&self) -> Seq<Scalar> {
        self.v_1@
    }

    /// The blinding factor `rho`.
    pub closed spec fn blinding(&self) -> Scalar {
        self.rho
    }

    /// The knowledge shared with the verifier.
    pub closed spec fn public(&self) -> IPSPVerifierKnowledge {
        self.vk
    }

    /// The knowledge shared with the verifier, for callers outside this module.
    pub fn verifier_knowledge(&self) -> (r: &IPSPVerifierKnowledge)
        ensures
            *r == self.public(),
    {
        &self.vk
    }

    /// Creates the prover's knowledge of the secret `v_1`, the public `v_2`, the blinding
    /// `rho` and the commitment `t`. The two vectors have the same, nonzero, length.
    pub fn new(v_1: &[Scalar], v_2: &[Scalar], rho: &Scalar, t: &RistrettoPoint) -> (r: Self)
        requires
            v_1@.len() == v_2@.len(),
            v_1@.len() > 0,
        ensures
            r.secret() == v_1@,
            r.blinding() == *rho,
            r.public().t == *t,
            r.public().z@ == v_2@,
    {
        let vk = IPSPVerifierKnowledge { t: *t, z: sub_vec(v_2, 0, v_2.len()) };
        proof {
            assert(v_1@.subrange(0, v_1@.len() as int) =~= v_1@);
            assert(v_2@.subrange(0, v_2@.len() as int) =~= v_2@);
        }
        Self { v_1: sub_vec(v_1, 0, v_1.len()), rho: *rho, vk }
    }

    /// The commitment `t = Σ v_1[i]·h[i] + ⟨v_1, vec_z⟩·f + rho·u` that the verifier's
    /// knowledge holds.
    pub fn make_commitment(
        v_1: &[Scalar],
        vec_z: &[Scalar],
        rho: &Scalar,
        f: &RistrettoPoint,
        h: &[RistrettoPoint],
        u: &RistrettoPoint,
    ) -> (r: RistrettoPoint)
        requires
            v_1@.len() == h@.len(),
            v_1@.len() == vec_z@.len(),
        ensures
            r.log() == commitment(vals(v_1@), vals(vec_z@), rho.val(), f.log(), logs(h@), u.log()),
    {
        let ip = inner_product(v_1, vec_z);
        let mut scalars = sub_vec(v_1, 0, v_1.len());
        scalars.push(ip);
        scalars.push(*rho);
        let mut points = sub_vec(h, 0, h.len());
        points.push(*f);
        points.push(*u);
        proof {
            assert(v_1@.subrange(0, v_1@.len() as int) =~= v_1@);
            assert(h@.subrange(0, h@.len() as int) =~= h@);
            assert(vals(scalars@) =~= vals(v_1@).push(ip.val()).push(rho.val()));
            assert(logs(points@) =~= logs(h@).push(f.log()).push(u.log()));
            let a = vals(v_1@).push(ip.val());
            let b = logs(h@).push(f.log());
            assert(a.push(rho.val()).drop_last() =~= a);
            assert(b.push(u.log()).drop_last() =~= b);
            assert(a.drop_last() =~= vals(v_1@));
            assert(b.drop_last() =~= logs(h@));
            assert(dot(a, b) == dot(vals(v_1@), logs(h@)) + ip.val() * f.log());
            assert(dot(a.push(rho.val()), b.push(u.log())) == dot(a, b) + rho.val() * u.log());
        }
        dalek_multiscalar_mul(scalars.as_slice(), points.as_slice())
    }

    /// The prover's state before folding, for the transcript `ops` and generators `h`.
    pub open spec fn start(&self, ops: Seq<TranscriptOp>, h: Seq<RistrettoPoint>) -> FoldState {
        fold_start(
            ops,
            vals(self.secret()),
            vals(self.public().z@),
            logs(h),
            self.public().t.log(),
            self.blinding().val(),
        )
    }
}

/// The result of `folding_prover` with blinders `sig`: the transcript, the commitments
/// appended to `t1_new` and `tm1_new`, and the returned `(h, t, v_1, z, rho)` are those of
/// the prover's rounds; each commitment sent encodes at most one group element.
pub open spec fn folding_prover_post(
    pk: IPSPProverKnowledge,
    ops_old: Seq<TranscriptOp>,
    ops_new: Seq<TranscriptOp>,
    t1_old: Seq<CompressedRistretto>,
    t1_new: Seq<CompressedRistretto>,
    tm1_old: Seq<CompressedRistretto>,
    tm1_new: Seq<CompressedRistretto>,
    f: RistrettoPoint,
    h: Seq<RistrettoPoint>,
    u: RistrettoPoint,
    r: (RistrettoPoint, RistrettoPoint, Scalar, Scalar, Scalar),
    sig: Seq<(int, int)>,
) -> bool {
    let s = prover_rounds(pk.start(ops_old, h), f.log(), u.log(), sig);
    &&& ops_new == s.ops
    &&& encodings(t1_new) == encodings(t1_old) + s.t1s
    &&& encodings(tm1_new) == encodings(tm1_old) + s.tm1s
    &&& r.0.log() == s.h[0]
    &&& r.1.log() == s.t
    &&& r.2.val() == s.v[0]
    &&& r.3.val() == s.z[0]
    &&& r.4.val() == s.rho
    &&& all_at_most_one(s.t1s)
    &&& all_at_most_one(s.tm1s)
}

/// A proof as the encodings and residues it holds.
pub open spec fn proof_model(p: IPSPInnerProductProof) -> ProofModel {
    ProofModel {
        t1s: encodings(p.t_1@),
        tm1s: encodings(p.t_minus1@),
        w: p.w.bytes@,
        e1: p.e_1.val(),
        e2: p.e_2.val(),
    }
}

/// `v` extended with zero scalars to length `n`.
fn pad_scalars(v: &[Scalar], n: usize) -> (r: Vec<Scalar>)
    requires
        v@.len() <= n,
    ensures
        vals(r@) == pad(vals(v@), n as nat),
        r@.len() == n,
{
    let mut r = sub_vec(v, 0, v.len());
    proof {
        assert(v@.subrange(0, v@.len() as int) =~= v@);
    }
    while r.len() < n
        invariant
            v@.len() <= r@.len() <= n,
            vals(r@) == pad(vals(v@), r@.len() as nat),
        decreases n - r@.len(),
    {
        let ghost before = r@;
        r.push(Scalar::zero());
        proof {
            assert(vals(r@) =~= vals(before).push(0));
            assert(pad(vals(v@), r@.len() as nat) =~= pad(vals(v@), before.len() as nat).push(0));
        }
    }
    r
}

/// `v` extended with identity points to length `n`.
fn pad_points(v: &[RistrettoPoint], n: usize) -> (r: Vec<RistrettoPoint>)
    requires
        v@.len() <= n,
    ensures
        logs(r@) == pad(logs(v@), n as nat),
        r@.len() == n,
{
    let mut r = sub_vec(v, 0, v.len());
    proof {
        assert(v@.subrange(0, v@.len() as int) =~= v@);
        assert(logs(r@) =~= pad(logs(v@), r@.len() as nat));
    }
    while r.len() < n
        invariant
            v@.len() <= r@.len() <= n,
            logs(r@) == pad(logs(v@), r@.len() as nat),
        decreases n - r@.len(),
    {
        let ghost before = r@;
        r.push(RistrettoPoint::identity());
        proof {
            assert(logs(r@) =~= logs(before).push(0));
            assert(pad(logs(v@), r@.len() as nat) =~= pad(logs(v@), before.len() as nat).push(0));
        }
    }
    r
}

/// The reduction order of `h·y_1 + f·(y_1·z) + u·y_2`.
proof fn lemma_w_value(h: int, f: int, u: int, y1: int, y2: int, z: int)
    ensures
        md(md(md(h * y1) + md(f * md(y1 * z))) + md(u * y2)) == md(h * y1 + f * (y1 * z) + u * y2),
{
    lemma_md_mul(f, y1 * z);
    lemma_md_add(h * y1, f * (y1 * z));
    lemma_md_add(h * y1 + f * (y1 * z), u * y2);
    lemma_md_add(md(h * y1 + f * (y1 * z)), u * y2);
}

/// The reduction order of `rho + c⁻¹·c⁻¹·σ_{-1} + c·c·σ`.
proof fn lemma_rho_value(rho: int, c: int, ci: int, s: int, sm1: int)
    ensures
        md(md(rho + md(md(ci * ci) * sm1)) + md(md(c * c) * s)) == md(rho + ci * ci * sm1 + c * c
            * s),
{
    lemma_md_mul(ci * ci, sm1);
    lemma_md_mul(c * c, s);
    lemma_md_add(rho, ci * ci * sm1);
    lemma_md_add(rho + ci * ci * sm1, c * c * s);
    lemma_md_add(md(rho + ci * ci * sm1), c * c * s);
}

proof fn lemma_vals_subrange(s: Seq<Scalar>, lo: int, hi: int)
    requires
        0 <= lo <= hi <= s.len(),
    ensures
        vals(s.subrange(lo, hi)) == vals(s).subrange(lo, hi),
{
    assert(vals(s.subrange(lo, hi)) =~= vals(s).subrange(lo, hi));
}

proof fn lemma_logs_subrange(s: Seq<RistrettoPoint>, lo: int, hi: int)
    requires
        0 <= lo <= hi <= s.len(),
    ensures
        logs(s.subrange(lo, hi)) == logs(s).subrange(lo, hi),
{
    assert(logs(s.subrange(lo, hi)) =~= logs(s).subrange(lo, hi));
}

/// `k` random blinder pairs `(σ, σ_{-1})`, one per folding round.
fn random_blinders(k: usize) -> (r: Vec<(Scalar, Scalar)>)
    ensures
        r@.len() == k,
{
    let mut r: Vec<(Scalar, Scalar)> = Vec::new();
    while r.len() < k
        invariant
            r@.len() <= k,
        decreases k - r@.len(),
    {
        let sigma = Scalar::random();
        let sigma_minus1 = Scalar::random();
        r.push((sigma, sigma_minus1));
    }
    r
}

/// The number of halvings from `n`, a power of two, down to 1.
fn rounds_for(n: usize) -> (k: usize)
    requires
        is_power_of_two(n as nat),
    ensures
        k as nat == ceil_log2(n as nat),
        pow2(k as nat) == n,
{
    let ghost kk = ceil_log2(n as nat);
    let mut m = n;
    let mut k: usize = 0;
    proof {
        crate::model::lemma_pow2_exceeds(kk);
    }
    while m > 1
        invariant
            k <= kk,
            m as nat == pow2((kk - k) as nat),
            pow2(kk) == n,
            kk == ceil_log2(n as nat),
            kk < usize::MAX,
        decreases m,
    {
        proof {
            if k == kk {
                lemma2_to64();
            }
            lemma_pow2_unfold((kk - k) as nat);
        }
        m = m / 2;
        k = k + 1;
    }
    proof {
        vstd::arithmetic::power2::lemma_pow2_pos((kk - k) as nat);
        if k < kk {
            vstd::arithmetic::power2::lemma_pow2_strictly_increases(0, (kk - k) as nat);
            lemma2_to64();
        }
    }
    k
}

/// The result of the verifier's folding as residues.
pub open spec fn folded_model(r: Result<(Scalar, RistrettoPoint, RistrettoPoint), ProofError>) -> Result<
    (int, int, int),
    ProofError,
> {
    match r {
        Ok((z, h, t)) => Ok((z.val(), h.log(), t.log())),
        Err(e) => Err(e),
    }
}

/// The result of the verifier's folding for vector commitments as residues.
pub open spec fn folded_commits_model(
    r: Result<(RistrettoPoint, RistrettoPoint, RistrettoPoint), ProofError>,
) -> Result<(int, int, int), ProofError> {
    match r {
        Ok((g, h, t)) => Ok((g.log(), h.log(), t.log())),
        Err(e) => Err(e),
    }
}

/// `i & (1 << j) != 0` tests bit `j` of `i`.
proof fn lemma_bit_test(i: usize, j: usize)
    requires
        j < usize::BITS,
    ensures
        ((i & (1usize << j)) != 0usize) == bit(i as int, j as nat),
{
    assert(((i & (1usize << j)) != 0usize) == (((i >> j) & 1usize) == 1usize)) by (bit_vector)
        requires
            j < usize::BITS,
    ;
    assert(((i >> j) & 1usize) == (i >> j) % 2) by (bit_vector);
    vstd::bits::lemma_usize_shr_is_div(i, j);
}

/// The factor of generator `i`: the product over the challenges, from the last, of the
/// challenge where the matching bit of `i` is set and of its inverse where it is not.
fn s_factor_exec(i: usize, c: &Vec<Scalar>) -> (r: Scalar)
    requires
        c@.len() < usize::BITS,
    ensures
        r.val() == s_factor(i as int, vals(c@)),
{
    let k = c.len();
    let mut p = Scalar::one();
    let mut j: usize = 0;
    while j < k
        invariant
            k == c@.len(),
            k < usize::BITS,
            j <= k,
            p.val() == s_partial(i as int, vals(c@), j as nat),
        decreases k - j,
    {
        let x = c[k - 1 - j];
        proof {
            lemma_bit_test(i, j);
        }
        if i & (1usize << j) != 0 {
            p = p.times(&x);
        } else {
            p = p.times(&x.invert());
        }
        j = j + 1;
    }
    p
}

/// For vector commitments: the product of the challenges whose bit of `i` is set.
fn s_factor_commits_exec(i: usize, c: &Vec<Scalar>) -> (r: Scalar)
    requires
        c@.len() < usize::BITS,
    ensures
        r.val() == s_partial_commits(i as int, vals(c@), c@.len() as nat),
{
    let k = c.len();
    let mut p = Scalar::one();
    let mut j: usize = 0;
    while j < k
        invariant
            k == c@.len(),
            k < usize::BITS,
            j <= k,
            p.val() == s_partial_commits(i as int, vals(c@), j as nat),
        decreases k - j,
    {
        let x = c[k - 1 - j];
        proof {
            lemma_bit_test(i, j);
            lemma_scalar_val_range(p);
            lemma_md_small(p.val());
        }
        if i & (1usize << j) != 0 {
            p = p.times(&x);
        }
        j = j + 1;
    }
    p
}

/// Powers of two against the range of `usize`: `2^k` exceeds it from `k = usize::BITS` on,
/// and below that it is at most `usize::MAX / 2 + 1`.
proof fn lemma_pow2_usize(k: nat)
    ensures
        k >= usize::BITS ==> pow2(k) > usize::MAX,
        k < usize::BITS ==> pow2(k) <= usize::MAX as int / 2 + 1,
{
    lemma2_to64();
    vstd::arithmetic::power2::lemma2_to64_rest();
    assert(usize::BITS == 32 ==> usize::MAX == 0xffff_ffff);
    assert(usize::BITS == 64 ==> usize::MAX == 0xffff_ffff_ffff_ffff);
    assert(usize::BITS == 32 || usize::BITS == 64);
    if k > usize::BITS {
        vstd::arithmetic::power2::lemma_pow2_strictly_increases(usize::BITS as nat, k);
    }
    if k + 1 < usize::BITS {
        vstd::arithmetic::power2::lemma_pow2_strictly_increases(k, (usize::BITS - 1) as nat);
    }
}

/// `1 << k` is `2^k`.
proof fn lemma_one_shl(k: usize)
    requires
        k < usize::BITS,
    ensures
        (1usize << k) as nat == pow2(k as nat),
{
    vstd::bits::lemma_usize_pow2_no_overflow(k as nat);
    vstd::bits::lemma_usize_shl_is_mul(1, k);
}

/// The reduction order of the verifier's right-hand side `t·c + h·e_1 + f·(e_1·z) + u·e_2`.
proof fn lemma_rhs_value(t: int, c: int, h: int, e1: int, f: int, z: int, u: int, e2: int)
    ensures
        md(md(md(md(t * c) + md(h * e1)) + md(f * md(e1 * z))) + md(u * e2)) == md(t * c + h * e1
            + f * (e1 * z) + u * e2),
{
    lemma_md_mul(f, e1 * z);
    lemma_md_add(t * c, h * e1);
    lemma_md_add(t * c + h * e1, f * (e1 * z));
    lemma_md_add(md(t * c + h * e1), f * (e1 * z));
    lemma_md_add(t * c + h * e1 + f * (e1 * z), u * e2);
    lemma_md_add(md(t * c + h * e1 + f * (e1 * z)), u * e2);
}

/// The reduction order of `t_{-1}·c⁻¹ + t + t_1·c`.
proof fn lemma_fold_t_commits_value(t: int, tm1: int, t1: int, c: int, ci: int)
    ensures
        md(md(md(tm1 * ci) + t) + md(t1 * c)) == md(tm1 * ci + t + t1 * c),
{
    lemma_md_add(tm1 * ci, t);
    lemma_md_add(tm1 * ci + t, t1 * c);
    lemma_md_add(md(tm1 * ci + t), t1 * c);
}

impl IPSPInnerProductProof {
    /// Appends the commitments of every folding round to the transcript and draws the
    /// round challenges.
    fn round_challenges(&self, transcript: &mut Transcript) -> (c: Vec<Scalar>)
        requires
            self.t_1@.len() == self.t_minus1@.len(),
        ensures
            ({
                let p = proof_model(*self);
                &&& transcript_ops(*final(transcript)) == rounds_transcript(
                    transcript_ops(*old(transcript)),
                    p.tm1s,
                    p.t1s,
                )
                &&& vals(c@) == rounds_challenges(transcript_ops(*old(transcript)), p.tm1s, p.t1s)
                &&& c@.len() == self.t_1@.len()
            }),
    {
        let ghost ops0 = transcript_ops(*transcript);
        let ghost p = proof_model(*self);
        let k = self.t_1.len();
        let mut c: Vec<Scalar> = Vec::new();
        let mut i: usize = 0;
        proof {
            assert(p.tm1s.subrange(0, 0) =~= Seq::<Seq<u8>>::empty());
            assert(p.t1s.subrange(0, 0) =~= Seq::<Seq<u8>>::empty());
            assert(vals(c@) =~= Seq::<int>::empty());
        }
        while i < k
            invariant
                k == self.t_1@.len(),
                k == self.t_minus1@.len(),
                p == proof_model(*self),
                i <= k,
                c@.len() == i,
                transcript_ops(*transcript) == rounds_transcript(
                    ops0,
                    p.tm1s.subrange(0, i as int),
                    p.t1s.subrange(0, i as int),
                ),
                vals(c@) == rounds_challenges(
                    ops0,
                    p.tm1s.subrange(0, i as int),
                    p.t1s.subrange(0, i as int),
                ),
            decreases k - i,
        {
            append_point(transcript, &T_MINUS1_LABEL, &self.t_minus1[i]);
            append_point(transcript, &T1_LABEL, &self.t_1[i]);
            let ch = challenge_scalar(transcript, &C_LABEL);
            let ghost c_before = c@;
            c.push(ch);
            proof {
                let a = p.tm1s.subrange(0, i + 1);
                let b = p.t1s.subrange(0, i + 1);
                assert(a.drop_last() =~= p.tm1s.subrange(0, i as int));
                assert(b.drop_last() =~= p.t1s.subrange(0, i as int));
                assert(a.last() == self.t_minus1@[i as int].bytes@);
                assert(b.last() == self.t_1@[i as int].bytes@);
                assert(vals(c@) =~= vals(c_before).push(ch.val()));
            }
            i = i + 1;
        }
        proof {
            assert(p.tm1s.subrange(0, k as int) =~= p.tm1s);
            assert(p.t1s.subrange(0, k as int) =~= p.t1s);
        }
        c
    }

    /// The verifier's folding of the commitment through the decoded round commitments;
    /// fails if one of them is not the encoding of a group element.
    fn fold_commitment(&self, t0: &RistrettoPoint, c: &Vec<Scalar>) -> (r: Result<
        RistrettoPoint,
        ProofError,
    >)
        requires
            self.t_1@.len() == self.t_minus1@.len(),
            c@.len() == self.t_1@.len(),
        ensures
            ({
                let p = proof_model(*self);
                match r {
                    Ok(t) => all_encode(p.t1s) && all_encode(p.tm1s) && t.log() == verifier_t(
                        t0.log(),
                        p.tm1s,
                        p.t1s,
                        vals(c@),
                    ),
                    Err(e) => e == ProofError::MalformedProof && !(all_encode(p.t1s) && all_encode(
                        p.tm1s,
                    )),
                }
            }),
    {
        let ghost p = proof_model(*self);
        let ghost cs = vals(c@);
        let k = c.len();
        let mut t = *t0;
        let mut i: usize = 0;
        proof {
            lemma_log_range(*t0);
            lemma_md_small(t0.log());
        }
        while i < k
            invariant
                k == c@.len(),
                k == self.t_1@.len(),
                k == self.t_minus1@.len(),
                p == proof_model(*self),
                cs == vals(c@),
                i <= k,
                t.log() == verifier_t(
                    t0.log(),
                    p.tm1s.subrange(0, i as int),
                    p.t1s.subrange(0, i as int),
                    cs.subrange(0, i as int),
                ),
                forall|j: int| 0 <= j < i ==> encodes_point(#[trigger] p.t1s[j]),
                forall|j: int| 0 <= j < i ==> encodes_point(#[trigger] p.tm1s[j]),
            decreases k - i,
        {
            let c_inv = c[i].invert();
            let t_1 = match self.t_1[i].decompress() {
                Some(x) => x,
                None => {
                    proof {
                        assert(!encodes_point(p.t1s[i as int]));
                    }
                    return Err(ProofError::MalformedProof);
                },
            };
            let t_minus_1 = match self.t_minus1[i].decompress() {
                Some(x) => x,
                None => {
                    proof {
                        assert(!encodes_point(p.tm1s[i as int]));
                    }
                    return Err(ProofError::MalformedProof);
                },
            };
            let ghost t_before = t.log();
            let left = t_minus_1.times(&c_inv).times(&c_inv).plus(&t);
            t = left.plus(&t_1.times(&c[i]).times(&c[i]));
            proof {
                lemma_fold_t_value(t_before, t_minus_1.log(), t_1.log(), c[i as int].val(), c_inv.val());
                let a = p.tm1s.subrange(0, i + 1);
                let b = p.t1s.subrange(0, i + 1);
                let d = cs.subrange(0, i + 1);
                assert(a.drop_last() =~= p.tm1s.subrange(0, i as int));
                assert(b.drop_last() =~= p.t1s.subrange(0, i as int));
                assert(d.drop_last() =~= cs.subrange(0, i as int));
                assert(encodes_point(p.tm1s[i as int]));
                assert(encodes_point(p.t1s[i as int]));
                assert(decode(a.last()) == t_minus_1.log());
                assert(decode(b.last()) == t_1.log());
            }
            i = i + 1;
        }
        proof {
            assert(p.tm1s.subrange(0, k as int) =~= p.tm1s);
            assert(p.t1s.subrange(0, k as int) =~= p.t1s);
            assert(cs.subrange(0, k as int) =~= cs);
        }
        Ok(t)
    }

    /// The full folding algorithm of the verifier: draws the round challenges, folds the
    /// commitment, and folds the generators `h` and the public vector `vec_z` (padded with
    /// zeros) with one factor per generator. Returns `(z, h, t)` folded.
    pub fn folding_verifier(
        &self,
        transcript: &mut Transcript,
        vk: &IPSPVerifierKnowledge,
        gens_f: &RistrettoPoint,
        h: &[RistrettoPoint],
        vec_z: &[Scalar],
    ) -> (r: Result<(Scalar, RistrettoPoint, RistrettoPoint), ProofError>)
        ensures
            ({
                let m = folding_verifier_model(
                    proof_model(*self),
                    transcript_ops(*old(transcript)),
                    vk.t.log(),
                    logs(h@),
                    vals(vec_z@),
                );
                &&& folded_model(r) == m.0
                &&& transcript_ops(*final(transcript)) == m.1
            }),
    {
        let t = vk.t;
        if self.t_1.len() != self.t_minus1.len() {
            return Err(ProofError::MalformedProof);
        }
        let n = h.len();
        if self.t_1.len() >= usize::BITS as usize {
            proof {
                lemma_pow2_usize(self.t_1.len() as nat);
                assert(proof_model(*self).t1s.len() == self.t_1@.len());
                assert(pow2(self.t_1@.len() as nat) > usize::MAX);
                assert(pow2(proof_model(*self).t1s.len()) != logs(h@).len());
            }
            return Err(ProofError::MalformedProof);
        }
        proof {
            lemma_one_shl(self.t_1.len());
        }
        if (1usize << self.t_1.len()) != n {
            return Err(ProofError::MalformedProof);
        }
        let c = self.round_challenges(transcript);
        let t = match self.fold_commitment(&t, &c) {
            Ok(t) => t,
            Err(e) => return Err(e),
        };
        proof {
            lemma_pow2_usize(self.t_1.len() as nat);
            crate::model::lemma_next_pow2_covers(vec_z@.len() as nat);
        }
        if vec_z.len() > n {
            return Err(ProofError::MalformedProof);
        }
        if next_power_of_two(vec_z.len()) != n {
            return Err(ProofError::MalformedProof);
        }
        let mut s: Vec<Scalar> = Vec::new();
        let mut i: usize = 0;
        while i < n
            invariant
                n == h@.len(),
                c@.len() < usize::BITS,
                i <= n,
                s@.len() == i,
                forall|j: int| 0 <= j < i ==> #[trigger] s@[j].val() == s_factor(j, vals(c@)),
            decreases n - i,
        {
            s.push(s_factor_exec(i, &c));
            i = i + 1;
        }
        proof {
            assert(vals(s@) =~= s_vec(vals(c@), n as nat));
        }
        let hh = dalek_multiscalar_mul(s.as_slice(), h);
        let padded_z = pad_scalars(vec_z, n);
        let z = inner_product(padded_z.as_slice(), s.as_slice());
        Ok((z, hh, t))
    }

    /// Verifies the proof for the verifier's knowledge `vk` and the generators `gens_f`,
    /// `h`, `u`: `Ok(())` if it is valid, otherwise an error saying whether it is malformed
    /// or fails the final check.
    pub fn verify(
        &self,
        transcript: &mut Transcript,
        vk: &IPSPVerifierKnowledge,
        gens_f: &RistrettoPoint,
        h: &[RistrettoPoint],
        u: &RistrettoPoint,
    ) -> (r: Result<(), ProofError>)
        requires
            vk.z@.len() == h@.len(),
            h@.len() as int <= usize::MAX as int / 2 + 1,
        ensures
            ({
                let m = verify_model(
                    proof_model(*self),
                    transcript_ops(*old(transcript)),
                    vk.t.log(),
                    vals(vk.z@),
                    gens_f.log(),
                    logs(h@),
                    u.log(),
                );
                &&& r == m.0
                &&& transcript_ops(*final(transcript)) == m.1
            }),
    {
        let len = next_power_of_two(h.len());
        let hp = pad_points(h, len);
        inner_product_domain_separator(transcript);
        let folded = self.folding_verifier(transcript, vk, gens_f, hp.as_slice(), vk.z.as_slice());
        let (z, hh, t_pprime) = match folded {
            Ok(x) => x,
            Err(e) => return Err(e),
        };
        append_point(transcript, &W_LABEL, &self.w);
        let c = challenge_scalar(transcript, &C_LABEL);
        let w = match self.w.decompress() {
            Some(w) => w,
            None => return Err(ProofError::MalformedProof),
        };
        let rhs = t_pprime.times(&c).plus(&hh.times(&self.e_1)).plus(
            &gens_f.times(&self.e_1.times(&z)),
        ).plus(&u.times(&self.e_2));
        proof {
            lemma_rhs_value(
                t_pprime.log(),
                c.val(),
                hh.log(),
                self.e_1.val(),
                gens_f.log(),
                z.val(),
                u.log(),
                self.e_2.val(),
            );
            assert(decode(self.w.bytes@) == w.log());
        }
        if w.equals(&rhs) {
            Ok(())
        } else {
            Err(ProofError::VerificationError)
        }
    }

    /// The verifier's folding of a vector commitment through the decoded round commitments;
    /// fails if one of them is not the encoding of a group element.
    fn fold_commitment_commits(&self, t0: &RistrettoPoint, c: &Vec<Scalar>) -> (r: Result<
        RistrettoPoint,
        ProofError,
    >)
        requires
            self.t_1@.len() == self.t_minus1@.len(),
            c@.len() == self.t_1@.len(),
        ensures
            ({
                let p = proof_model(*self);
                match r {
                    Ok(t) => all_encode(p.t1s) && all_encode(p.tm1s) && t.log()
                        == verifier_t_commits(t0.log(), p.tm1s, p.t1s, vals(c@)),
                    Err(e) => e == ProofError::MalformedProof && !(all_encode(p.t1s) && all_encode(
                        p.tm1s,
                    )),
                }
            }),
    {
        let ghost p = proof_model(*self);
        let ghost cs = vals(c@);
        let k = c.len();
        let mut t = *t0;
        let mut i: usize = 0;
        proof {
            lemma_log_range(*t0);
            lemma_md_small(t0.log());
        }
        while i < k
            invariant
                k == c@.len(),
                k == self.t_1@.len(),
                k == self.t_minus1@.len(),
                p == proof_model(*self),
                cs == vals(c@),
                i <= k,
                t.log() == verifier_t_commits(
                    t0.log(),
                    p.tm1s.subrange(0, i as int),
                    p.t1s.subrange(0, i as int),
                    cs.subrange(0, i as int),
                ),
                forall|j: int| 0 <= j < i ==> encodes_point(#[trigger] p.t1s[j]),
                forall|j: int| 0 <= j < i ==> encodes_point(#[trigger] p.tm1s[j]),
            decreases k - i,
        {
            let c_inv = c[i].invert();
            let t_1 = match self.t_1[i].decompress() {
                Some(x) => x,
                None => {
                    proof {
                        assert(!encodes_point(p.t1s[i as int]));
                    }
                    return Err(ProofError::MalformedProof);
                },
            };
            let t_minus_1 = match self.t_minus1[i].decompress() {
                Some(x) => x,
                None => {
                    proof {
                        assert(!encodes_point(p.tm1s[i as int]));
                    }
                    return Err(ProofError::MalformedProof);
                },
            };
            let ghost t_before = t.log();
            let left = t_minus_1.times(&c_inv).plus(&t);
            t = left.plus(&t_1.times(&c[i]));
            proof {
                lemma_fold_t_commits_value(
                    t_before,
                    t_minus_1.log(),
                    t_1.log(),
                    c[i as int].val(),
                    c_inv.val(),
                );
                let a = p.tm1s.subrange(0, i + 1);
                let b = p.t1s.subrange(0, i + 1);
                let d = cs.subrange(0, i + 1);
                assert(a.drop_last() =~= p.tm1s.subrange(0, i as int));
                assert(b.drop_last() =~= p.t1s.subrange(0, i as int));
                assert(d.drop_last() =~= cs.subrange(0, i as int));
                assert(encodes_point(p.tm1s[i as int]));
                assert(encodes_point(p.t1s[i as int]));
                assert(decode(a.last()) == t_minus_1.log());
                assert(decode(b.last()) == t_1.log());
            }
            i = i + 1;
        }
        proof {
            assert(p.tm1s.subrange(0, k as int) =~= p.tm1s);
            assert(p.t1s.subrange(0, k as int) =~= p.t1s);
            assert(cs.subrange(0, k as int) =~= cs);
        }
        Ok(t)
    }

    /// The full folding algorithm of the verifier for vector commitments: draws the round
    /// challenges, folds the commitment, and folds the generators `g` with the products of
    /// the challenges and `h` with their inverses. Returns `(g, h, t)` folded.
    pub fn folding_verifier_for_commits(
        &self,
        transcript: &mut Transcript,
        vk: &IPSPVerifierKnowledge,
        a: &RistrettoPoint,
        g: &[RistrettoPoint],
        h: &[RistrettoPoint],
    ) -> (r: Result<(RistrettoPoint, RistrettoPoint, RistrettoPoint), ProofError>)
        ensures
            ({
                let m = folding_verifier_commits_model(
                    proof_model(*self),
                    transcript_ops(*old(transcript)),
                    vk.t.log(),
                    logs(g@),
                    logs(h@),
                );
                &&& folded_commits_model(r) == m.0
                &&& transcript_ops(*final(transcript)) == m.1
            }),
            ({
                let p = proof_model(*self);
                let cs = rounds_challenges(transcript_ops(*old(transcript)), p.tm1s, p.t1s);
                &&& r matches Ok(x) ==> x.2.log() == md(
                    vk.t.log() + commits_round_terms(p.tm1s, p.t1s, cs, p.t1s.len()),
                )
                &&& r matches Ok(x) ==> x.0.log() == fold_seq_commits(logs(g@), cs)[0]
                &&& r matches Ok(x) ==> ((forall|i: int|
                    0 <= i < cs.len() ==> #[trigger] md(cs[i]) == 0 || invertible(cs[i]))
                    ==> x.1.log() == fold_seq_commits(logs(h@), inverses(cs))[0])
            }),
    {
        let t = vk.t;
        if self.t_1.len() != self.t_minus1.len() {
            return Err(ProofError::MalformedProof);
        }
        let n = g.len();
        if self.t_1.len() >= usize::BITS as usize {
            proof {
                lemma_pow2_usize(self.t_1.len() as nat);
                assert(proof_model(*self).t1s.len() == self.t_1@.len());
                assert(pow2(self.t_1@.len() as nat) > usize::MAX);
                assert(pow2(proof_model(*self).t1s.len()) != logs(g@).len());
            }
            return Err(ProofError::MalformedProof);
        }
        proof {
            lemma_one_shl(self.t_1.len());
        }
        if (1usize << self.t_1.len()) != n {
            return Err(ProofError::MalformedProof);
        }
        let c = self.round_challenges(transcript);
        let t = match self.fold_commitment_commits(&t, &c) {
            Ok(t) => t,
            Err(e) => return Err(e),
        };
        if h.len() != n {
            return Err(ProofError::MalformedProof);
        }
        let mut s: Vec<Scalar> = Vec::new();
        let mut i: usize = 0;
        while i < n
            invariant
                n == g@.len(),
                c@.len() < usize::BITS,
                i <= n,
                s@.len() == i,
                forall|j: int|
                    0 <= j < i ==> #[trigger] s@[j].val() == s_partial_commits(
                        j,
                        vals(c@),
                        c@.len() as nat,
                    ),
            decreases n - i,
        {
            s.push(s_factor_commits_exec(i, &c));
            i = i + 1;
        }
        let s_inv = batch_invert(s.as_slice());
        proof {
            assert(vals(s@) =~= s_vec_commits(vals(c@), n as nat));
            assert(vals(s_inv@) =~= inverses(s_vec_commits(vals(c@), n as nat)));
        }
        let gg = dalek_multiscalar_mul(s.as_slice(), g);
        let hh = dalek_multiscalar_mul(s_inv.as_slice(), h);
        let r = Ok((gg, hh, t));
        proof {
            lemma_commits_fold_in_round_order(
                proof_model(*self),
                transcript_ops(*old(transcript)),
                vk.t.log(),
                logs(g@),
                logs(h@),
            );
            assert forall|i: int| 0 <= i < logs(g@).len() implies 0 <= #[trigger] logs(g@)[i]
                < group_order() by {
                lemma_log_range(g@[i]);
            }
            assert forall|i: int| 0 <= i < logs(h@).len() implies 0 <= #[trigger] logs(h@)[i]
                < group_order() by {
                lemma_log_range(h@[i]);
            }
            lemma_commits_generators_in_round_order(
                proof_model(*self),
                transcript_ops(*old(transcript)),
                vk.t.log(),
                logs(g@),
                logs(h@),
            );
        }
        r
    }

    /// Creates an inner-product proof that `⟨pk.v_1, pk.vk.z⟩` is what the commitment
    /// `pk.vk.t` binds, drawing its random blinders.
    ///
    /// The result is the proof that `create_with_randomness` makes for some blinders; when
    /// `pk.vk.t` is the commitment that `make_commitment` makes and the round challenges are
    /// invertible, `verify` accepts it from the same transcript and ends in the same state.
    pub fn create(
        transcript: &mut Transcript,
        pk: &IPSPProverKnowledge,
        gens_f: &RistrettoPoint,
        h: &[RistrettoPoint],
        u: &RistrettoPoint,
    ) -> (r: Self)
        requires
            pk.secret().len() == pk.public().z@.len(),
            h@.len() == pk.secret().len(),
            h@.len() as int <= usize::MAX as int / 2 + 1,
        ensures
            exists|sig: Seq<(int, int)>, y1: int, y2: int|
                sig.len() == ceil_log2(h@.len() as nat) && #[trigger] create_model(
                    transcript_ops(*old(transcript)),
                    vals(pk.secret()),
                    vals(pk.public().z@),
                    logs(h@),
                    pk.public().t.log(),
                    pk.blinding().val(),
                    gens_f.log(),
                    u.log(),
                    sig,
                    y1,
                    y2,
                ) == (proof_model(r), transcript_ops(*final(transcript))) && ({
                    let ops = transcript_ops(*old(transcript));
                    let v = vals(pk.secret());
                    let z = vals(pk.public().z@);
                    let rho = pk.blinding().val();
                    (pk.public().t.log() == commitment(v, z, rho, gens_f.log(), logs(h@), u.log())
                        && challenges_invertible(ops, v, z, logs(h@), rho, gens_f.log(), u.log(), sig))
                        ==> verify_model(proof_model(r), ops, pk.public().t.log(), z, gens_f.log(), logs(h@), u.log())
                        == (Ok::<(), ProofError>(()), transcript_ops(*final(transcript)))
                }),
            canonical_encodings(proof_model(r)),
    {
        let len = next_power_of_two(h.len());
        proof {
            crate::model::lemma_next_pow2_of_pow2(h@.len() as nat);
        }
        let k = rounds_for(len);
        let sigmas = random_blinders(k);
        let y_1 = Scalar::random();
        let y_2 = Scalar::random();
        let r = Self::create_with_randomness(
            transcript,
            pk,
            gens_f,
            h,
            u,
            sigmas.as_slice(),
            &y_1,
            &y_2,
        );
        proof {
            let m = create_model(
                transcript_ops(*old(transcript)),
                vals(pk.secret()),
                vals(pk.public().z@),
                logs(h@),
                pk.public().t.log(),
                pk.blinding().val(),
                gens_f.log(),
                u.log(),
                sigma_vals(sigmas@),
                y_1.val(),
                y_2.val(),
            );
            assert(m == (proof_model(r), transcript_ops(*transcript)));
        }
        r
    }

    /// The full folding algorithm of the prover, drawing its random blinders.
    ///
    /// The result is that of `folding_prover_with_randomness` for some blinders.
    pub fn folding_prover(
        transcript: &mut Transcript,
        pk: &IPSPProverKnowledge,
        t_1_vec: &mut Vec<CompressedRistretto>,
        t_minus1_vec: &mut Vec<CompressedRistretto>,
        gens_f: &RistrettoPoint,
        h: &[RistrettoPoint],
        u: &RistrettoPoint,
    ) -> (r: (RistrettoPoint, RistrettoPoint, Scalar, Scalar, Scalar))
        requires
            pk.secret().len() == h@.len(),
            pk.public().z@.len() == h@.len(),
            is_power_of_two(h@.len() as nat),
        ensures
            exists|sig: Seq<(int, int)>|
                sig.len() == ceil_log2(h@.len() as nat) && #[trigger] folding_prover_post(
                    *pk,
                    transcript_ops(*old(transcript)),
                    transcript_ops(*final(transcript)),
                    old(t_1_vec)@,
                    final(t_1_vec)@,
                    old(t_minus1_vec)@,
                    final(t_minus1_vec)@,
                    *gens_f,
                    h@,
                    *u,
                    r,
                    sig,
                ),
    {
        let k = rounds_for(h.len());
        let sigmas = random_blinders(k);
        let r = Self::folding_prover_with_randomness(
            transcript,
            pk,
            t_1_vec,
            t_minus1_vec,
            gens_f,
            h,
            u,
            sigmas.as_slice(),
        );
        proof {
            assert(sigma_vals(sigmas@).len() == ceil_log2(h@.len() as nat));
        }
        r
    }

    /// Creates an inner-product proof that `⟨pk.v_1, pk.vk.z⟩` is what the commitment
    /// `pk.vk.t` binds, with the random blinders given: `sigmas` for the folding rounds and
    /// `y_1`, `y_2` for the final commitment. When `pk.vk.t` is the commitment that
    /// `make_commitment` makes and the round challenges are invertible, `verify` accepts the
    /// proof from the same transcript and ends in the same state.
    ///
    /// Vectors whose length is not a power of two are padded with zeros, and the generators
    /// `h` with the identity, up to the next power of two; this does not change the inner
    /// product.
    pub fn create_with_randomness(
        transcript: &mut Transcript,
        pk: &IPSPProverKnowledge,
        gens_f: &RistrettoPoint,
        h: &[RistrettoPoint],
        u: &RistrettoPoint,
        sigmas: &[(Scalar, Scalar)],
        y_1: &Scalar,
        y_2: &Scalar,
    ) -> (r: Self)
        requires
            pk.secret().len() == pk.public().z@.len(),
            h@.len() == pk.secret().len(),
            h@.len() as int <= usize::MAX as int / 2 + 1,
            sigmas@.len() == ceil_log2(h@.len() as nat),
        ensures
            ({
                let m = create_model(
                    transcript_ops(*old(transcript)),
                    vals(pk.secret()),
                    vals(pk.public().z@),
                    logs(h@),
                    pk.public().t.log(),
                    pk.blinding().val(),
                    gens_f.log(),
                    u.log(),
                    sigma_vals(sigmas@),
                    y_1.val(),
                    y_2.val(),
                );
                &&& proof_model(r) == m.0
                &&& transcript_ops(*final(transcript)) == m.1
            }),
            canonical_encodings(proof_model(r)),
            ({
                let ops = transcript_ops(*old(transcript));
                let v = vals(pk.secret());
                let z = vals(pk.public().z@);
                let rho = pk.blinding().val();
                (pk.public().t.log() == commitment(v, z, rho, gens_f.log(), logs(h@), u.log())
                    && challenges_invertible(ops, v, z, logs(h@), rho, gens_f.log(), u.log(), sigma_vals(sigmas@)))
                    ==> verify_model(proof_model(r), ops, pk.public().t.log(), z, gens_f.log(), logs(h@), u.log())
                    == (Ok::<(), ProofError>(()), transcript_ops(*final(transcript)))
            }),
    {
        let ghost ops0 = transcript_ops(*transcript);
        let old_len = h.len();
        let len = next_power_of_two(old_len);
        let hp = pad_points(h, len);
        let v1p = pad_scalars(pk.v_1.as_slice(), len);
        let zp = pad_scalars(pk.vk.z.as_slice(), len);
        let pk_p = IPSPProverKnowledge {
            v_1: v1p,
            rho: pk.rho,
            vk: IPSPVerifierKnowledge { t: pk.vk.t, z: zp },
        };
        inner_product_domain_separator(transcript);
        let mut t_1: Vec<CompressedRistretto> = Vec::new();
        let mut t_minus1: Vec<CompressedRistretto> = Vec::new();
        let (hh, _t_pprime, v_1, v_2, rho_prime) = Self::folding_prover_with_randomness(
            transcript,
            &pk_p,
            &mut t_1,
            &mut t_minus1,
            gens_f,
            hp.as_slice(),
            u,
            sigmas,
        );
        let w = hh.times(y_1).plus(&gens_f.times(&y_1.times(&v_2))).plus(&u.times(y_2));
        let wc = w.compress();
        append_point(transcript, &W_LABEL, &wc);
        let c = challenge_scalar(transcript, &C_LABEL);
        let e_1 = y_1.minus(&c.times(&v_1));
        let e_2 = y_2.minus(&c.times(&rho_prime));
        proof {
            lemma_w_value(hh.log(), gens_f.log(), u.log(), y_1.val(), y_2.val(), v_2.val());
            lemma_md_sub(y_1.val(), c.val() * v_1.val());
            lemma_md_sub(y_2.val(), c.val() * rho_prime.val());
            lemma_scalar_val_range(*y_1);
            lemma_scalar_val_range(*y_2);
            lemma_md_small(y_1.val());
            lemma_md_small(y_2.val());
            assert(encodings(t_1@) =~= encodings(Seq::<CompressedRistretto>::empty()) + encodings(
                t_1@,
            ));
            assert(encodings(Seq::<CompressedRistretto>::empty()) =~= Seq::<Seq<u8>>::empty());
        }
        let r = IPSPInnerProductProof { w: wc, e_1, e_2, t_1, t_minus1 };
        proof {
            let v = vals(pk.secret());
            let z = vals(pk.public().z@);
            let rho = pk.blinding().val();
            if pk.public().t.log() == commitment(v, z, rho, gens_f.log(), logs(h@), u.log())
                && challenges_invertible(ops0, v, z, logs(h@), rho, gens_f.log(), u.log(), sigma_vals(sigmas@)) {
                lemma_honest_proof_is_accepted(
                    ops0,
                    v,
                    z,
                    rho,
                    gens_f.log(),
                    logs(h@),
                    u.log(),
                    sigma_vals(sigmas@),
                    y_1.val(),
                    y_2.val(),
                );
            }
        }
        r
    }

    /// The halves of a round's vectors and its cross-term commitments `t_{-1}` and `t_1`.
    fn round_commitments(
        v: &Vec<Scalar>,
        z: &Vec<Scalar>,
        hv: &Vec<RistrettoPoint>,
        gens_f: &RistrettoPoint,
        u: &RistrettoPoint,
        sigma: &Scalar,
        sigma_minus1: &Scalar,
        Ghost(st): Ghost<FoldState>,
    ) -> (r: (
        RistrettoPoint,
        RistrettoPoint,
        Vec<Scalar>,
        Vec<Scalar>,
        Vec<Scalar>,
        Vec<Scalar>,
        Vec<RistrettoPoint>,
        Vec<RistrettoPoint>,
    ))
        requires
            v@.len() >= 2,
            v@.len() % 2 == 0,
            z@.len() == v@.len(),
            hv@.len() == v@.len(),
            vals(v@) == st.v,
            vals(z@) == st.z,
            logs(hv@) == st.h,
        ensures
            r.0.log() == round_tm1(st, gens_f.log(), u.log(), sigma_minus1.val()),
            r.1.log() == round_t1(st, gens_f.log(), u.log(), sigma.val()),
            vals(r.2@) == top(st.v),
            vals(r.3@) == bot(st.v),
            vals(r.4@) == top(st.z),
            vals(r.5@) == bot(st.z),
            logs(r.6@) == top(st.h),
            logs(r.7@) == bot(st.h),
            r.2@.len() == v@.len() / 2,
            r.3@.len() == v@.len() / 2,
            r.4@.len() == v@.len() / 2,
            r.5@.len() == v@.len() / 2,
            r.6@.len() == v@.len() / 2,
            r.7@.len() == v@.len() / 2,
    {
        let ghost f = gens_f.log();
        let ghost uu = u.log();
        let n = v.len();
        let n_2 = n / 2;
        let v_t = sub_vec(v.as_slice(), 0, n_2);
        let v_b = sub_vec(v.as_slice(), n_2, n);
        let z_t = sub_vec(z.as_slice(), 0, n_2);
        let z_b = sub_vec(z.as_slice(), n_2, n);
        let h_t = sub_vec(hv.as_slice(), 0, n_2);
        let h_b = sub_vec(hv.as_slice(), n_2, n);
        proof {
            lemma_vals_subrange(v@, 0, n_2 as int);
            lemma_vals_subrange(v@, n_2 as int, n as int);
            lemma_vals_subrange(z@, 0, n_2 as int);
            lemma_vals_subrange(z@, n_2 as int, n as int);
            lemma_logs_subrange(hv@, 0, n_2 as int);
            lemma_logs_subrange(hv@, n_2 as int, n as int);
            assert(vals(v_t@) == top(st.v));
            assert(vals(v_b@) == bot(st.v));
            assert(vals(z_t@) == top(st.z));
            assert(vals(z_b@) == bot(st.z));
            assert(logs(h_t@) == top(st.h));
            assert(logs(h_b@) == bot(st.h));
        }
        let x_minus1 = inner_product(v_b.as_slice(), z_t.as_slice());
        let x = inner_product(v_t.as_slice(), z_b.as_slice());
        let mut sv_m1 = sub_vec(v_b.as_slice(), 0, v_b.len());
        sv_m1.push(x_minus1);
        sv_m1.push(*sigma_minus1);
        let mut pv_m1 = sub_vec(h_t.as_slice(), 0, h_t.len());
        pv_m1.push(*gens_f);
        pv_m1.push(*u);
        let mut sv_1 = sub_vec(v_t.as_slice(), 0, v_t.len());
        sv_1.push(x);
        sv_1.push(*sigma);
        let mut pv_1 = sub_vec(h_b.as_slice(), 0, h_b.len());
        pv_1.push(*gens_f);
        pv_1.push(*u);
        proof {
            assert(v_b@.subrange(0, v_b@.len() as int) =~= v_b@);
            assert(v_t@.subrange(0, v_t@.len() as int) =~= v_t@);
            assert(h_t@.subrange(0, h_t@.len() as int) =~= h_t@);
            assert(h_b@.subrange(0, h_b@.len() as int) =~= h_b@);
            assert(vals(sv_m1@) =~= bot(st.v).push(x_minus1.val()).push(sigma_minus1.val()));
            assert(logs(pv_m1@) =~= top(st.h).push(f).push(uu));
            assert(vals(sv_1@) =~= top(st.v).push(x.val()).push(sigma.val()));
            assert(logs(pv_1@) =~= bot(st.h).push(f).push(uu));
        }
        let t_minus1 = dalek_multiscalar_mul(sv_m1.as_slice(), pv_m1.as_slice());
        let t_1 = dalek_multiscalar_mul(sv_1.as_slice(), pv_1.as_slice());
        assert(t_minus1.log() == round_tm1(st, f, uu, sigma_minus1.val()));
        assert(t_1.log() == round_t1(st, f, uu, sigma.val()));
        (t_minus1, t_1, v_t, v_b, z_t, z_b, h_t, h_b)
    }

    /// One folding round of the prover from the state `st`: commits to the cross terms
    /// `t_{-1}` and `t_1` with blinders `sigma_minus1` and `sigma`, folds, and records the
    /// commitments. Returns the folded `(v_1, z, h, t, rho)`.
    #[verifier::spinoff_prover]
    fn prover_round(
        transcript: &mut Transcript,
        v: &Vec<Scalar>,
        z: &Vec<Scalar>,
        hv: &Vec<RistrettoPoint>,
        t: &RistrettoPoint,
        rho: &Scalar,
        t_1_vec: &mut Vec<CompressedRistretto>,
        t_minus1_vec: &mut Vec<CompressedRistretto>,
        gens_f: &RistrettoPoint,
        u: &RistrettoPoint,
        sigma: &Scalar,
        sigma_minus1: &Scalar,
        Ghost(st): Ghost<FoldState>,
    ) -> (r: (Vec<Scalar>, Vec<Scalar>, Vec<RistrettoPoint>, RistrettoPoint, Scalar))
        requires
            v@.len() >= 2,
            v@.len() % 2 == 0,
            z@.len() == v@.len(),
            hv@.len() == v@.len(),
            vals(v@) == st.v,
            vals(z@) == st.z,
            logs(hv@) == st.h,
            t.log() == st.t,
            rho.val() == st.rho,
            transcript_ops(*old(transcript)) == st.ops,
        ensures
            ({
                let tm1 = round_tm1(st, gens_f.log(), u.log(), sigma_minus1.val());
                let t1 = round_t1(st, gens_f.log(), u.log(), sigma.val());
                let ops1 = round_ops(st.ops, ristretto_encoding(tm1), ristretto_encoding(t1));
                let c = challenge_value(ops1, C_LABEL@);
                &&& vals(r.0@) == lin(top(st.v), bot(st.v), c, inv(c))
                &&& vals(r.1@) == lin(top(st.z), bot(st.z), inv(c), c)
                &&& logs(r.2@) == lin(top(st.h), bot(st.h), inv(c), c)
                &&& r.3.log() == fold_t(st.t, tm1, t1, c)
                &&& r.4.val() == md(st.rho + inv(c) * inv(c) * sigma_minus1.val() + c * c * sigma.val())
                &&& transcript_ops(*final(transcript)) == after_challenge(ops1, C_LABEL@)
                &&& encodings(final(t_1_vec)@) == encodings(old(t_1_vec)@).push(ristretto_encoding(t1))
                &&& encodings(final(t_minus1_vec)@) == encodings(old(t_minus1_vec)@).push(
                    ristretto_encoding(tm1),
                )
                &&& r.0@.len() == v@.len() / 2
                &&& r.1@.len() == v@.len() / 2
                &&& r.2@.len() == v@.len() / 2
                &&& encodes_at_most_one(ristretto_encoding(t1))
                &&& encodes_at_most_one(ristretto_encoding(tm1))
            }),
    {
        let ghost f = gens_f.log();
        let ghost uu = u.log();
        let (t_minus1, t_1, v_t, v_b, z_t, z_b, h_t, h_b) = Self::round_commitments(
            v,
            z,
            hv,
            gens_f,
            u,
            sigma,
            sigma_minus1,
            Ghost(st),
        );
        let (h_new, z_new, t_new, c, c_inv) = fold_verifier(
            transcript,
            t,
            &t_1,
            &t_minus1,
            h_t.as_slice(),
            h_b.as_slice(),
            z_t.as_slice(),
            z_b.as_slice(),
        );
        let v_new = mad_mad_scalar_scalar(v_t.as_slice(), v_b.as_slice(), c, c_inv);
        let rho_new = rho.plus(&c_inv.times(&c_inv).times(sigma_minus1)).plus(
            &c.times(&c).times(sigma),
        );
        proof {
            lemma_rho_value(rho.val(), c.val(), c_inv.val(), sigma.val(), sigma_minus1.val());
        }
        let ghost t1_old = t_1_vec@;
        let ghost tm1_old = t_minus1_vec@;
        t_1_vec.push(t_1.compress());
        t_minus1_vec.push(t_minus1.compress());
        proof {
            assert(encodings(t_1_vec@) =~= encodings(t1_old).push(
                ristretto_encoding(t_1.log()),
            ));
            assert(encodings(t_minus1_vec@) =~= encodings(tm1_old).push(
                ristretto_encoding(t_minus1.log()),
            ));
            let tm1 = round_tm1(st, f, uu, sigma_minus1.val());
            let t1 = round_t1(st, f, uu, sigma.val());
            let ops1 = round_ops(st.ops, ristretto_encoding(tm1), ristretto_encoding(t1));
            let cc = challenge_value(ops1, C_LABEL@);
            assert(c.val() == cc);
            assert(c_inv.val() == inv(cc));
            assert(vals(v_new@) == lin(top(st.v), bot(st.v), cc, inv(cc)));
            assert(vals(z_new@) == lin(top(st.z), bot(st.z), inv(cc), cc));
            assert(logs(h_new@) == lin(top(st.h), bot(st.h), inv(cc), cc));
            assert(t_new.log() == fold_t(st.t, tm1, t1, cc));
        }
        (v_new, z_new, h_new, t_new, rho_new)
    }

    /// The full folding algorithm of the prover, with the random blinders `sigmas` of its
    /// rounds given: one pair `(σ, σ_{-1})` per round.
    pub fn folding_prover_with_randomness(
        transcript: &mut Transcript,
        pk: &IPSPProverKnowledge,
        t_1_vec: &mut Vec<CompressedRistretto>,
        t_minus1_vec: &mut Vec<CompressedRistretto>,
        gens_f: &RistrettoPoint,
        h: &[RistrettoPoint],
        u: &RistrettoPoint,
        sigmas: &[(Scalar, Scalar)],
    ) -> (r: (RistrettoPoint, RistrettoPoint, Scalar, Scalar, Scalar))
        requires
            pk.secret().len() == h@.len(),
            pk.public().z@.len() == h@.len(),
            h@.len() == pow2(sigmas@.len() as nat),
        ensures
            folding_prover_post(
                *pk,
                transcript_ops(*old(transcript)),
                transcript_ops(*final(transcript)),
                old(t_1_vec)@,
                final(t_1_vec)@,
                old(t_minus1_vec)@,
                final(t_minus1_vec)@,
                *gens_f,
                h@,
                *u,
                r,
                sigma_vals(sigmas@),
            ),
    {
        let mut v = sub_vec(pk.v_1.as_slice(), 0, pk.v_1.len());
        let mut z = sub_vec(pk.vk.z.as_slice(), 0, pk.vk.z.len());
        let mut hv = sub_vec(h, 0, h.len());
        let mut t = pk.vk.t;
        let mut rho = pk.rho;
        let ghost s0 = pk.start(transcript_ops(*transcript), h@);
        let ghost f = gens_f.log();
        let ghost uu = u.log();
        let ghost sig = sigma_vals(sigmas@);
        let ghost k = sigmas@.len() as nat;
        let mut i: usize = 0;
        proof {
            assert(sig.subrange(0, 0) =~= Seq::<(int, int)>::empty());
            assert(encodings(t_1_vec@) =~= encodings(old(t_1_vec)@) + s0.t1s);
            assert(encodings(t_minus1_vec@) =~= encodings(old(t_minus1_vec)@) + s0.tm1s);
            assert(pk.v_1@.subrange(0, pk.v_1@.len() as int) =~= pk.v_1@);
            assert(pk.vk.z@.subrange(0, pk.vk.z@.len() as int) =~= pk.vk.z@);
            assert(h@.subrange(0, h@.len() as int) =~= h@);
        }
        while v.len() > 1
            invariant
                i <= k,
                k == sigmas@.len(),
                sig == sigma_vals(sigmas@),
                v@.len() == pow2((k - i) as nat),
                z@.len() == v@.len(),
                hv@.len() == v@.len(),
                ({
                    let st = prover_rounds(s0, f, uu, sig.subrange(0, i as int));
                    &&& vals(v@) == st.v
                    &&& vals(z@) == st.z
                    &&& logs(hv@) == st.h
                    &&& t.log() == st.t
                    &&& rho.val() == st.rho
                    &&& transcript_ops(*transcript) == st.ops
                    &&& encodings(t_1_vec@) == encodings(old(t_1_vec)@) + st.t1s
                    &&& encodings(t_minus1_vec@) == encodings(old(t_minus1_vec)@) + st.tm1s
                    &&& all_at_most_one(st.t1s)
                    &&& all_at_most_one(st.tm1s)
                }),
                f == gens_f.log(),
                uu == u.log(),
            decreases v@.len(),
        {
            let ghost st = prover_rounds(s0, f, uu, sig.subrange(0, i as int));
            proof {
                if i == k {
                    assert(pow2(0) == 1) by {
                        lemma2_to64();
                    }
                }
                lemma_pow2_unfold((k - i) as nat);
            }
            let (v_new, z_new, h_new, t_new, rho_new) = Self::prover_round(
                transcript,
                &v,
                &z,
                &hv,
                &t,
                &rho,
                t_1_vec,
                t_minus1_vec,
                gens_f,
                u,
                &sigmas[i].0,
                &sigmas[i].1,
                Ghost(st),
            );
            v = v_new;
            z = z_new;
            hv = h_new;
            t = t_new;
            rho = rho_new;
            proof {
                let sub1 = sig.subrange(0, i + 1);
                assert(sub1.drop_last() =~= sig.subrange(0, i as int));
                let st1 = prover_rounds(s0, f, uu, sub1);
                assert(st1 == prover_step(st, f, uu, sub1.last().0, sub1.last().1));
                lemma_prover_step_fields(st, f, uu, sub1.last().0, sub1.last().1);
                assert(encodings(t_1_vec@) =~= encodings(old(t_1_vec)@) + st1.t1s);
                assert(encodings(t_minus1_vec@) =~= encodings(old(t_minus1_vec)@) + st1.tm1s);
                assert forall|j: int| 0 <= j < st1.t1s.len() implies encodes_at_most_one(
                    #[trigger] st1.t1s[j],
                ) by {
                    if j < st.t1s.len() {
                        assert(st1.t1s[j] == st.t1s[j]);
                    }
                }
                assert forall|j: int| 0 <= j < st1.tm1s.len() implies encodes_at_most_one(
                    #[trigger] st1.tm1s[j],
                ) by {
                    if j < st.tm1s.len() {
                        assert(st1.tm1s[j] == st.tm1s[j]);
                    }
                }
            }
            i = i + 1;
        }
        proof {
            vstd::arithmetic::power2::lemma_pow2_pos((k - i) as nat);
            if i < k {
                vstd::arithmetic::power2::lemma_pow2_strictly_increases(0, (k - i) as nat);
                lemma2_to64();
            }
            assert(sig.subrange(0, k as int) =~= sig);
        }
        (hv[0], t, v[0], z[0], rho)
    }
}

} // verus!
