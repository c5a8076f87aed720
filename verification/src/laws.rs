//! What holds of the inner-product argument as a whole: the prover's folding keeps the
//! commitment relation up to the final opening, the verifier's one-shot folding of the
//! generators agrees with the prover's round-by-round folding and gives back the prover's
//! folded values, and an honestly created proof is accepted.
use crate::algebra::{
    lemma_dot_bilinear, lemma_dot_comm, lemma_dot_lin_left, lemma_dot_pad, lemma_dot_scaled,
    lemma_dot_split,
};
use crate::field::{
    cong, dot, group_order, inv, invertible, lemma_cong_add, lemma_cong_mul,
    lemma_cong_reduced_eq, lemma_cong_refl, lemma_cong_sym, lemma_cong_trans, lemma_md,
    lemma_inv_unique, lemma_md_add, lemma_md_mul, lemma_md_small, lin, md,
};
use crate::model::{
    all_at_most_one, all_encode, bit, bot, canonical_encodings, ceil_log2, commitment,
    create_model, decode, dom_sep_op, final_w, fold_start, folding_verifier_commits_model,
    folding_verifier_model, verifier_t_commits,
    lemma_next_pow2_covers, lemma_prover_step_fields, next_pow2, pad, prover_rounds, prover_run,
    prover_step, round_ops, round_t1, round_tm1, rounds_challenges, rounds_transcript, s_factor,
    s_partial, s_partial_commits, s_vec, s_vec_commits, inverses, top, verifier_t, verify_model,
    FoldState, ProofError, ProofModel, C_LABEL, W_LABEL,
};
use crate::point::{encodes_at_most_one, encodes_point, ristretto_encoding};
use crate::transcript::{challenge_value, message_op, TranscriptOp};
use vstd::arithmetic::div_mod::{
    lemma_basic_div, lemma_hoist_over_denominator, lemma_mod_multiples_vanish,
};
use vstd::arithmetic::power2::{
    lemma2_to64, lemma_pow2_adds, lemma_pow2_pos, lemma_pow2_subtracts, lemma_pow2_unfold, pow2,
};
use vstd::prelude::*;

verus! {

/// The prover's commitment opens to its vectors and blinding:
/// `t ≡ ⟨v, h⟩ + ⟨v, z⟩·f + rho·u`.
pub open spec fn commits_to(s: FoldState, f: int, u: int) -> bool {
    cong(s.t, dot(s.v, s.h) + dot(s.v, s.z) * f + s.rho * u)
}

/// The challenge that a prover round from `s` draws.
pub open spec fn round_challenge(s: FoldState, f: int, u: int, sigma: int, sigma_m1: int) -> int {
    challenge_value(
        round_ops(
            s.ops,
            ristretto_encoding(round_tm1(s, f, u, sigma_m1)),
            ristretto_encoding(round_t1(s, f, u, sigma)),
        ),
        C_LABEL@,
    )
}

proof fn lemma_unit_mul(c: int, ci: int, p: int)
    requires
        cong(c * ci, 1),
    ensures
        cong(c * ci * p, p),
        cong(ci * c * p, p),
{
    lemma_cong_refl(p);
    lemma_cong_mul(c * ci, 1, p, p);
    assert(ci * c * p == c * ci * p) by (nonlinear_arith);
    assert(1 * p == p);
}

proof fn lemma_round_identity(
    hh: int,
    a: int,
    b: int,
    zz: int,
    x: int,
    y: int,
    f: int,
    u: int,
    rho: int,
    c2: int,
    ci2: int,
    s: int,
    sm1: int,
)
    ensures
        (hh + c2 * a + ci2 * b) + (zz + c2 * x + ci2 * y) * f + (rho + ci2 * sm1 + c2 * s) * u == (hh
            + zz * f + rho * u) + c2 * (a + x * f + s * u) + ci2 * (b + y * f + sm1 * u),
{
    assert((zz + c2 * x + ci2 * y) * f == zz * f + c2 * (x * f) + ci2 * (y * f)) by (nonlinear_arith);
    assert((rho + ci2 * sm1 + c2 * s) * u == rho * u + ci2 * (sm1 * u) + c2 * (s * u))
        by (nonlinear_arith);
    assert(c2 * (a + x * f + s * u) == c2 * a + c2 * (x * f) + c2 * (s * u)) by (nonlinear_arith);
    assert(ci2 * (b + y * f + sm1 * u) == ci2 * b + ci2 * (y * f) + ci2 * (sm1 * u))
        by (nonlinear_arith);
}

proof fn lemma_fold_order(t: int, t1: int, tm1: int, c: int, ci: int)
    ensures
        t + c * c * t1 + ci * ci * tm1 == tm1 * ci * ci + t + t1 * c * c,
{
    assert(c * c * t1 == t1 * c * c) by (nonlinear_arith);
    assert(ci * ci * tm1 == tm1 * ci * ci) by (nonlinear_arith);
}

/// The inner product of two three-element extensions.
proof fn lemma_dot_push2(a: Seq<int>, b: Seq<int>, x: int, y: int, p: int, q: int)
    requires
        a.len() == b.len(),
    ensures
        dot(a.push(x).push(y), b.push(p).push(q)) == dot(a, b) + x * p + y * q,
{
    assert(a.push(x).push(y).drop_last() =~= a.push(x));
    assert(b.push(p).push(q).drop_last() =~= b.push(p));
    assert(a.push(x).drop_last() =~= a);
    assert(b.push(p).drop_last() =~= b);
    assert(dot(a.push(x).push(y), b.push(p).push(q)) == dot(a.push(x), b.push(p)) + y * q);
    assert(dot(a.push(x), b.push(p)) == dot(a, b) + x * p);
}

/// A folding round keeps the commitment relation: if `t` opens to `(v, z, rho)` over the
/// generators `(h, f, u)`, then the folded `t` opens to the folded `(v, z, rho)` over the
/// folded `h`, whenever the round's challenge is invertible.
pub proof fn lemma_round_keeps_commitment(s: FoldState, f: int, u: int, sigma: int, sigma_m1: int)
    requires
        s.v.len() == s.h.len(),
        s.z.len() == s.h.len(),
        s.h.len() % 2 == 0,
        commits_to(s, f, u),
        invertible(round_challenge(s, f, u, sigma, sigma_m1)),
    ensures
        commits_to(prover_step(s, f, u, sigma, sigma_m1), f, u),
{
    let c = round_challenge(s, f, u, sigma, sigma_m1);
    let ci = inv(c);
    let s1 = prover_step(s, f, u, sigma, sigma_m1);
    lemma_prover_step_fields(s, f, u, sigma, sigma_m1);
    let (vt, vb, zt, zb, ht, hb) = (top(s.v), bot(s.v), top(s.z), bot(s.z), top(s.h), bot(s.h));
    let a = dot(vt, hb);
    let b = dot(vb, ht);
    let xx = dot(vt, zb);
    let yy = dot(vb, zt);
    let x = md(xx);
    let y = md(yy);
    let tm1 = round_tm1(s, f, u, sigma_m1);
    let t1 = round_t1(s, f, u, sigma);
    // the halves
    lemma_dot_split(s.v, s.h);
    lemma_dot_split(s.v, s.z);
    let hh = dot(vt, ht) + dot(vb, hb);
    let zz = dot(vt, zt) + dot(vb, zb);
    // ⟨v', h'⟩ and ⟨v', z'⟩
    lemma_dot_bilinear(vt, vb, ht, hb, c, ci, ci, c);
    lemma_dot_bilinear(vt, vb, zt, zb, c, ci, ci, c);
    lemma_unit_mul(c, ci, dot(vt, ht));
    lemma_unit_mul(c, ci, dot(vb, hb));
    lemma_unit_mul(c, ci, dot(vt, zt));
    lemma_unit_mul(c, ci, dot(vb, zb));
    lemma_cong_refl(c * c * a);
    lemma_cong_refl(ci * ci * b);
    lemma_cong_refl(c * c * xx);
    lemma_cong_refl(ci * ci * yy);
    let eh = hh + c * c * a + ci * ci * b;
    let ez = zz + c * c * xx + ci * ci * yy;
    lemma_cong_add(c * ci * dot(vt, ht), dot(vt, ht), c * c * a, c * c * a);
    lemma_cong_add(c * ci * dot(vt, ht) + c * c * a, dot(vt, ht) + c * c * a, ci * ci * b, ci * ci * b);
    lemma_cong_add(
        c * ci * dot(vt, ht) + c * c * a + ci * ci * b,
        dot(vt, ht) + c * c * a + ci * ci * b,
        ci * c * dot(vb, hb),
        dot(vb, hb),
    );
    assert(dot(vt, ht) + c * c * a + ci * ci * b + dot(vb, hb) == eh);
    lemma_cong_trans(dot(s1.v, s1.h), c * ci * dot(vt, ht) + c * c * a + ci * ci * b + ci * c * dot(vb, hb), eh);
    lemma_cong_add(c * ci * dot(vt, zt), dot(vt, zt), c * c * xx, c * c * xx);
    lemma_cong_add(c * ci * dot(vt, zt) + c * c * xx, dot(vt, zt) + c * c * xx, ci * ci * yy, ci * ci * yy);
    lemma_cong_add(
        c * ci * dot(vt, zt) + c * c * xx + ci * ci * yy,
        dot(vt, zt) + c * c * xx + ci * ci * yy,
        ci * c * dot(vb, zb),
        dot(vb, zb),
    );
    assert(dot(vt, zt) + c * c * xx + ci * ci * yy + dot(vb, zb) == ez);
    lemma_cong_trans(dot(s1.v, s1.z), c * ci * dot(vt, zt) + c * c * xx + ci * ci * yy + ci * c * dot(vb, zb), ez);
    // the new blinding
    let r1 = s.rho + ci * ci * sigma_m1 + c * c * sigma;
    lemma_md(r1);
    // the right-hand side of the new relation
    lemma_cong_refl(f);
    lemma_cong_refl(u);
    lemma_cong_mul(dot(s1.v, s1.z), ez, f, f);
    lemma_cong_mul(s1.rho, r1, u, u);
    lemma_cong_add(dot(s1.v, s1.h), eh, dot(s1.v, s1.z) * f, ez * f);
    lemma_cong_add(dot(s1.v, s1.h) + dot(s1.v, s1.z) * f, eh + ez * f, s1.rho * u, r1 * u);
    lemma_round_identity(hh, a, b, zz, xx, yy, f, u, s.rho, c * c, ci * ci, sigma, sigma_m1);
    assert(eh + ez * f + r1 * u == (hh + zz * f + s.rho * u) + c * c * (a + xx * f + sigma * u) + ci
        * ci * (b + yy * f + sigma_m1 * u));
    // the cross-term commitments
    lemma_dot_push2(vt, hb, x, sigma, f, u);
    lemma_dot_push2(vb, ht, y, sigma_m1, f, u);
    assert(t1 == md(a + x * f + sigma * u));
    assert(tm1 == md(b + y * f + sigma_m1 * u));
    lemma_md(a + x * f + sigma * u);
    lemma_md(b + y * f + sigma_m1 * u);
    lemma_md(xx);
    lemma_md(yy);
    lemma_cong_mul(x, xx, f, f);
    lemma_cong_mul(y, yy, f, f);
    lemma_cong_refl(a);
    lemma_cong_refl(b);
    lemma_cong_refl(sigma * u);
    lemma_cong_refl(sigma_m1 * u);
    lemma_cong_add(a, a, x * f, xx * f);
    lemma_cong_add(a + x * f, a + xx * f, sigma * u, sigma * u);
    lemma_cong_add(b, b, y * f, yy * f);
    lemma_cong_add(b + y * f, b + yy * f, sigma_m1 * u, sigma_m1 * u);
    lemma_cong_trans(t1, a + x * f + sigma * u, a + xx * f + sigma * u);
    lemma_cong_trans(tm1, b + y * f + sigma_m1 * u, b + yy * f + sigma_m1 * u);
    lemma_cong_refl(c * c);
    lemma_cong_refl(ci * ci);
    lemma_cong_mul(c * c, c * c, a + xx * f + sigma * u, t1);
    lemma_cong_sym(t1, a + xx * f + sigma * u);
    lemma_cong_sym(tm1, b + yy * f + sigma_m1 * u);
    lemma_cong_mul(c * c, c * c, a + xx * f + sigma * u, t1);
    lemma_cong_mul(ci * ci, ci * ci, b + yy * f + sigma_m1 * u, tm1);
    lemma_cong_sym(s.t, hh + zz * f + s.rho * u);
    lemma_cong_add(
        hh + zz * f + s.rho * u,
        s.t,
        c * c * (a + xx * f + sigma * u),
        c * c * t1,
    );
    lemma_cong_add(
        hh + zz * f + s.rho * u + c * c * (a + xx * f + sigma * u),
        s.t + c * c * t1,
        ci * ci * (b + yy * f + sigma_m1 * u),
        ci * ci * tm1,
    );
    // the folded commitment
    let tt = tm1 * ci * ci + s.t + t1 * c * c;
    lemma_fold_order(s.t, t1, tm1, c, ci);
    lemma_md(tt);
    assert(s1.t == md(tt));
    lemma_cong_trans(
        dot(s1.v, s1.h) + dot(s1.v, s1.z) * f + s1.rho * u,
        eh + ez * f + r1 * u,
        tt,
    );
    lemma_cong_sym(s1.t, tt);
    lemma_cong_sym(dot(s1.v, s1.h) + dot(s1.v, s1.z) * f + s1.rho * u, tt);
    lemma_cong_trans(s1.t, tt, dot(s1.v, s1.h) + dot(s1.v, s1.z) * f + s1.rho * u);
}

/// One folding of a vector with challenge `c`: `top·c⁻¹ + bottom·c`.
pub open spec fn fold_once(x: Seq<int>, c: int) -> Seq<int> {
    lin(top(x), bot(x), inv(c), c)
}

/// A vector folded with the challenges `cs`, first to last.
pub open spec fn fold_seq(x: Seq<int>, cs: Seq<int>) -> Seq<int>
    decreases cs.len(),
{
    if cs.len() == 0 {
        x
    } else {
        fold_once(fold_seq(x, cs.drop_last()), cs.last())
    }
}

/// Folding with `cs` is folding with its first challenge, then with the rest.
pub proof fn lemma_fold_seq_front(x: Seq<int>, cs: Seq<int>)
    requires
        cs.len() >= 1,
    ensures
        fold_seq(x, cs) == fold_seq(fold_once(x, cs[0]), cs.drop_first()),
    decreases cs.len(),
{
    if cs.len() == 1 {
        assert(cs.drop_last() =~= Seq::<int>::empty());
        assert(cs.drop_first() =~= Seq::<int>::empty());
        assert(fold_seq(x, cs.drop_last()) == x);
        assert(fold_seq(x, cs) == fold_once(x, cs.last()));
        assert(cs.last() == cs[0]);
        assert(fold_seq(fold_once(x, cs[0]), cs.drop_first()) == fold_once(x, cs[0]));
    } else {
        lemma_fold_seq_front(x, cs.drop_last());
        let y = fold_once(x, cs[0]);
        assert(cs.drop_last().drop_first() =~= cs.drop_first().drop_last());
        assert(cs.drop_last()[0] == cs[0]);
        assert(cs.drop_first().last() == cs.last());
        assert(fold_seq(x, cs) == fold_once(fold_seq(x, cs.drop_last()), cs.last()));
        assert(fold_seq(y, cs.drop_first()) == fold_once(
            fold_seq(y, cs.drop_first().drop_last()),
            cs.drop_first().last(),
        ));
    }
}

/// Bits of `i + b·2^(k-1)`, for `i < 2^(k-1)`: the lower ones are those of `i`, and bit
/// `k - 1` is `b`.
pub proof fn lemma_bit_high(i: int, b: int, k: nat, j: nat)
    requires
        k >= 1,
        0 <= i < pow2((k - 1) as nat),
        b == 0 || b == 1,
    ensures
        j < k - 1 ==> bit(i + b * pow2((k - 1) as nat), j) == bit(i, j),
        bit(i + b * pow2((k - 1) as nat), (k - 1) as nat) == (b == 1),
{
    let m = pow2((k - 1) as nat) as int;
    lemma_pow2_pos((k - 1) as nat);
    if j < k - 1 {
        let d = (k - 1 - j) as nat;
        lemma_pow2_adds(d, j);
        assert((d + j) as nat == (k - 1) as nat);
        lemma_pow2_pos(j);
        let pj = pow2(j) as int;
        let e = pow2(d) as int;
        assert(m == e * pj);
        lemma_hoist_over_denominator(i, b * e, pj as nat);
        assert(b * m == (b * e) * pj) by (nonlinear_arith)
            requires
                m == e * pj,
        ;
        assert((i + b * m) / pj == i / pj + b * e);
        lemma_pow2_unfold(d);
        let w = b * pow2((d - 1) as nat) as int;
        assert(b * e == 2 * w) by (nonlinear_arith)
            requires
                e == 2 * pow2((d - 1) as nat),
                w == b * pow2((d - 1) as nat),
        ;
        lemma_mod_multiples_vanish(w, i / pj, 2);
    }
    lemma_hoist_over_denominator(i, b, m as nat);
    lemma_basic_div(i, m);
    assert((i + b * m) / m == b);
}

/// The factor of a generator in the top half (`b = 0`) or the bottom half (`b = 1`), from
/// the factors of the once-folded generators: the first challenge's inverse or itself.
pub proof fn lemma_s_partial_tail(i: int, b: int, cs: Seq<int>, j: nat)
    requires
        cs.len() >= 1,
        0 <= i < pow2((cs.len() - 1) as nat),
        b == 0 || b == 1,
        j <= cs.len() - 1,
    ensures
        s_partial(i + b * pow2((cs.len() - 1) as nat), cs, j) == s_partial(i, cs.drop_first(), j),
    decreases j,
{
    if j > 0 {
        lemma_s_partial_tail(i, b, cs, (j - 1) as nat);
        lemma_bit_high(i, b, cs.len(), (j - 1) as nat);
        assert(cs.drop_first()[cs.drop_first().len() - j] == cs[cs.len() - j]);
    }
}

/// The factor of generator `i + b·2^(k-1)` is the factor of generator `i` after the first
/// fold, times the first challenge (`b = 1`) or its inverse (`b = 0`).
pub proof fn lemma_s_factor_split(i: int, b: int, cs: Seq<int>)
    requires
        cs.len() >= 1,
        0 <= i < pow2((cs.len() - 1) as nat),
        b == 0 || b == 1,
    ensures
        cong(
            s_factor(i + b * pow2((cs.len() - 1) as nat), cs),
            s_factor(i, cs.drop_first()) * (if b == 1 {
                cs[0]
            } else {
                inv(cs[0])
            }),
        ),
{
    let k = cs.len();
    let ii = i + b * pow2((k - 1) as nat);
    lemma_s_partial_tail(i, b, cs, (k - 1) as nat);
    lemma_bit_high(i, b, k, (k - 1) as nat);
    assert(cs[cs.len() - k] == cs[0]);
    let sel = if b == 1 {
        cs[0]
    } else {
        inv(cs[0])
    };
    assert(s_factor(ii, cs) == md(s_partial(ii, cs, (k - 1) as nat) * sel));
    lemma_md(s_partial(ii, cs, (k - 1) as nat) * sel);
}

/// The verifier's one-shot folding agrees with the prover's round-by-round folding: a
/// vector of length `2^k` folded with `k` challenges is its inner product with the factors
/// `s_vec` of those challenges.
pub proof fn lemma_fold_seq_factors(x: Seq<int>, cs: Seq<int>)
    requires
        x.len() == pow2(cs.len()),
    ensures
        fold_seq(x, cs).len() == 1,
        cong(fold_seq(x, cs)[0], dot(x, s_vec(cs, x.len()))),
    decreases cs.len(),
{
    let n = x.len();
    let sv = s_vec(cs, n);
    if cs.len() == 0 {
        lemma2_to64();
        assert(sv.drop_last() =~= Seq::<int>::empty());
        assert(x.drop_last() =~= Seq::<int>::empty());
        assert(sv[0] == 1);
        assert(sv.last() == 1);
        assert(x.last() == x[0]);
        assert(dot(x.drop_last(), sv.drop_last()) == 0);
        assert(dot(x, sv) == x[0] * 1);
        lemma_cong_refl(x[0]);
    } else {
        let k = cs.len();
        let m = pow2((k - 1) as nat);
        lemma_pow2_unfold(k);
        let c0 = cs[0];
        let cs1 = cs.drop_first();
        let x1 = fold_once(x, c0);
        lemma_fold_seq_front(x, cs);
        assert(x1.len() == m);
        lemma_fold_seq_factors(x1, cs1);
        let sv1 = s_vec(cs1, m);
        // ⟨x1, s'⟩ ≡ c0⁻¹·⟨top x, s'⟩ + c0·⟨bot x, s'⟩
        lemma_dot_lin_left(top(x), bot(x), inv(c0), c0, sv1);
        // ⟨x, s⟩ = ⟨top x, top s⟩ + ⟨bot x, bot s⟩
        lemma_dot_split(x, sv);
        assert forall|i: int| 0 <= i < top(sv).len() implies cong(
            #[trigger] top(sv)[i],
            sv1[i] * inv(c0),
        ) by {
            lemma_s_factor_split(i, 0, cs);
            assert(i + 0 * m == i);
        }
        assert forall|i: int| 0 <= i < bot(sv).len() implies cong(
            #[trigger] bot(sv)[i],
            sv1[i] * c0,
        ) by {
            lemma_s_factor_split(i, 1, cs);
            assert(i + 1 * m == i + m);
        }
        lemma_dot_scaled(top(x), top(sv), sv1, inv(c0));
        lemma_dot_scaled(bot(x), bot(sv), sv1, c0);
        lemma_cong_add(
            dot(top(x), top(sv)),
            inv(c0) * dot(top(x), sv1),
            dot(bot(x), bot(sv)),
            c0 * dot(bot(x), sv1),
        );
        lemma_cong_sym(dot(x1, sv1), inv(c0) * dot(top(x), sv1) + c0 * dot(bot(x), sv1));
        lemma_cong_trans(dot(x, sv), inv(c0) * dot(top(x), sv1) + c0 * dot(bot(x), sv1), dot(x1, sv1));
        lemma_cong_sym(dot(x, sv), dot(x1, sv1));
        lemma_cong_trans(fold_seq(x, cs)[0], dot(x1, sv1), dot(x, sv));
    }
}

/// The residue that the encoding of a reduced residue decodes to is itself.
pub proof fn lemma_decode_encoding(x: int)
    requires
        encodes_at_most_one(ristretto_encoding(x)),
        0 <= x < group_order(),
    ensures
        decode(ristretto_encoding(x)) == x,
        encodes_point(ristretto_encoding(x)),
{
    assert(0 <= x < group_order() && ristretto_encoding(x) == ristretto_encoding(x));
    let k = decode(ristretto_encoding(x));
    assert(0 <= k < group_order() && ristretto_encoding(k) == ristretto_encoding(x));
}

/// What the prover's rounds from a fresh state amount to: the transcript and challenges
/// are those that the verifier recomputes from the commitments sent, the vectors have
/// halved once per round, the generators and the public vector are folded with the
/// challenges, every commitment sent encodes a group element, the commitment is the one
/// that the verifier folds, and the commitment relation holds throughout when every
/// challenge is invertible.
pub proof fn lemma_rounds_facts(s0: FoldState, f: int, u: int, sig: Seq<(int, int)>, k: nat)
    requires
        s0.t1s.len() == 0,
        s0.tm1s.len() == 0,
        s0.cs.len() == 0,
        s0.v.len() == pow2(k),
        s0.z.len() == pow2(k),
        s0.h.len() == pow2(k),
        sig.len() <= k,
        0 <= s0.t < group_order(),
    ensures
        ({
            let sf = prover_rounds(s0, f, u, sig);
            &&& sf.t1s.len() == sig.len()
            &&& sf.tm1s.len() == sig.len()
            &&& sf.cs.len() == sig.len()
            &&& sf.ops == rounds_transcript(s0.ops, sf.tm1s, sf.t1s)
            &&& sf.cs == rounds_challenges(s0.ops, sf.tm1s, sf.t1s)
            &&& sf.v.len() == pow2((k - sig.len()) as nat)
            &&& sf.z.len() == pow2((k - sig.len()) as nat)
            &&& sf.h.len() == pow2((k - sig.len()) as nat)
            &&& sf.h == fold_seq(s0.h, sf.cs)
            &&& sf.z == fold_seq(s0.z, sf.cs)
            &&& all_encode(sf.t1s)
            &&& all_encode(sf.tm1s)
            &&& (all_at_most_one(sf.t1s) && all_at_most_one(sf.tm1s)) ==> sf.t == verifier_t(
                s0.t,
                sf.tm1s,
                sf.t1s,
                sf.cs,
            )
            &&& (commits_to(s0, f, u) && forall|r: int|
                0 <= r < sf.cs.len() ==> invertible(#[trigger] sf.cs[r])) ==> commits_to(sf, f, u)
        }),
    decreases sig.len(),
{
    let sf = prover_rounds(s0, f, u, sig);
    if sig.len() == 0 {
        assert(all_encode(sf.t1s));
        assert(all_encode(sf.tm1s));
        assert(fold_seq(s0.h, sf.cs) == s0.h);
        assert(fold_seq(s0.z, sf.cs) == s0.z);
        lemma_md_small(s0.t);
    } else {
        let sig1 = sig.drop_last();
        lemma_rounds_facts(s0, f, u, sig1, k);
        let sp = prover_rounds(s0, f, u, sig1);
        let (sg, sgm1) = sig.last();
        assert(sf == prover_step(sp, f, u, sg, sgm1));
        lemma_prover_step_fields(sp, f, u, sg, sgm1);
        let tm1 = round_tm1(sp, f, u, sgm1);
        let t1 = round_t1(sp, f, u, sg);
        let c = round_challenge(sp, f, u, sg, sgm1);
        assert(sf.tm1s.drop_last() =~= sp.tm1s);
        assert(sf.t1s.drop_last() =~= sp.t1s);
        assert(sf.cs.drop_last() =~= sp.cs);
        // the vectors halve
        let m = pow2((k - sig1.len()) as nat);
        lemma_pow2_unfold((k - sig1.len()) as nat);
        assert((k - sig1.len() - 1) as nat == (k - sig.len()) as nat);
        // all sent commitments encode points
        lemma_md(dot(bot(sp.v).push(md(dot(bot(sp.v), top(sp.z)))).push(sgm1), top(sp.h).push(f).push(u)));
        lemma_md(dot(top(sp.v).push(md(dot(top(sp.v), bot(sp.z)))).push(sg), bot(sp.h).push(f).push(u)));
        assert(0 <= tm1 < group_order());
        assert(0 <= t1 < group_order());
        assert(encodes_point(ristretto_encoding(tm1))) by {
            assert(0 <= tm1 < group_order() && ristretto_encoding(tm1) == ristretto_encoding(tm1));
        }
        assert(encodes_point(ristretto_encoding(t1))) by {
            assert(0 <= t1 < group_order() && ristretto_encoding(t1) == ristretto_encoding(t1));
        }
        assert forall|i: int| 0 <= i < sf.t1s.len() implies encodes_point(#[trigger] sf.t1s[i]) by {
            if i < sp.t1s.len() {
                assert(sf.t1s[i] == sp.t1s[i]);
            }
        }
        assert forall|i: int| 0 <= i < sf.tm1s.len() implies encodes_point(#[trigger] sf.tm1s[i]) by {
            if i < sp.tm1s.len() {
                assert(sf.tm1s[i] == sp.tm1s[i]);
            }
        }
        // the folded commitment is the verifier's
        if all_at_most_one(sf.t1s) && all_at_most_one(sf.tm1s) {
            assert(all_at_most_one(sp.t1s)) by {
                assert forall|i: int| 0 <= i < sp.t1s.len() implies encodes_at_most_one(
                    #[trigger] sp.t1s[i],
                ) by {
                    assert(sf.t1s[i] == sp.t1s[i]);
                }
            }
            assert(all_at_most_one(sp.tm1s)) by {
                assert forall|i: int| 0 <= i < sp.tm1s.len() implies encodes_at_most_one(
                    #[trigger] sp.tm1s[i],
                ) by {
                    assert(sf.tm1s[i] == sp.tm1s[i]);
                }
            }
            assert(encodes_at_most_one(sf.t1s[sf.t1s.len() - 1]));
            assert(encodes_at_most_one(sf.tm1s[sf.tm1s.len() - 1]));
            lemma_decode_encoding(tm1);
            lemma_decode_encoding(t1);
        }
        // the commitment relation
        if commits_to(s0, f, u) && forall|r: int| 0 <= r < sf.cs.len() ==> invertible(#[trigger] sf.cs[r]) {
            assert forall|r: int| 0 <= r < sp.cs.len() implies invertible(#[trigger] sp.cs[r]) by {
                assert(sp.cs[r] == sf.cs[r]);
            }
            assert(invertible(sf.cs[sf.cs.len() - 1]));
            lemma_round_keeps_commitment(sp, f, u, sg, sgm1);
        }
    }
}

proof fn lemma_distrib3(a: int, b: int, d: int, c: int)
    ensures
        (a + b + d) * c == a * c + b * c + d * c,
{
    assert((a + b + d) * c == a * c + b * c + d * c) by (nonlinear_arith);
}

proof fn lemma_final_identity(h: int, z: int, v: int, r: int, f: int, u: int, c: int, y1: int, y2: int)
    ensures
        (v * h + v * z * f + r * u) * c + h * (y1 - c * v) + f * ((y1 - c * v) * z) + u * (y2 - c * r)
            == h * y1 + f * (y1 * z) + u * y2,
{
    lemma_distrib3(v * h, v * z * f, r * u, c);
    assert((v * h) * c == c * v * h) by (nonlinear_arith);
    assert((v * z * f) * c == c * v * z * f) by (nonlinear_arith);
    assert((r * u) * c == c * r * u) by (nonlinear_arith);
    assert(h * (y1 - c * v) == h * y1 - c * v * h) by (nonlinear_arith);
    assert(f * ((y1 - c * v) * z) == f * (y1 * z) - c * v * z * f) by (nonlinear_arith);
    assert(u * (y2 - c * r) == u * y2 - c * r * u) by (nonlinear_arith);
}

/// The final check of an honest prover: if `t ≡ v·h + v·z·f + r·u`, and the responses are
/// `e_1 = y_1 - c·v` and `e_2 = y_2 - c·r`, then `t·c + h·e_1 + f·(e_1·z) + u·e_2` is the
/// final commitment `h·y_1 + f·(y_1·z) + u·y_2`.
pub proof fn lemma_final_check(
    t: int,
    hh: int,
    zz: int,
    h: int,
    z: int,
    v: int,
    r: int,
    f: int,
    u: int,
    c: int,
    y1: int,
    y2: int,
)
    requires
        cong(t, v * h + v * z * f + r * u),
        cong(hh, h),
        cong(zz, z),
    ensures
        cong(
            t * c + hh * md(y1 - c * v) + f * (md(y1 - c * v) * zz) + u * md(y2 - c * r),
            h * y1 + f * (y1 * z) + u * y2,
        ),
{
    let e1 = md(y1 - c * v);
    let e2 = md(y2 - c * r);
    lemma_md(y1 - c * v);
    lemma_md(y2 - c * r);
    lemma_cong_refl(c);
    lemma_cong_refl(f);
    lemma_cong_refl(u);
    lemma_cong_mul(t, v * h + v * z * f + r * u, c, c);
    lemma_cong_mul(hh, h, e1, y1 - c * v);
    lemma_cong_mul(e1, y1 - c * v, zz, z);
    lemma_cong_mul(f, f, e1 * zz, (y1 - c * v) * z);
    lemma_cong_mul(u, u, e2, y2 - c * r);
    lemma_cong_add(t * c, (v * h + v * z * f + r * u) * c, hh * e1, h * (y1 - c * v));
    lemma_cong_add(
        t * c + hh * e1,
        (v * h + v * z * f + r * u) * c + h * (y1 - c * v),
        f * (e1 * zz),
        f * ((y1 - c * v) * z),
    );
    lemma_cong_add(
        t * c + hh * e1 + f * (e1 * zz),
        (v * h + v * z * f + r * u) * c + h * (y1 - c * v) + f * ((y1 - c * v) * z),
        u * e2,
        u * (y2 - c * r),
    );
    lemma_final_identity(h, z, v, r, f, u, c, y1, y2);
}

/// Every round challenge of the honest prover's run, for the commitment that
/// `make_commitment` makes, is invertible.
pub open spec fn challenges_invertible(
    ops: Seq<TranscriptOp>,
    v: Seq<int>,
    z: Seq<int>,
    h: Seq<int>,
    rho: int,
    f: int,
    u: int,
    sigmas: Seq<(int, int)>,
) -> bool {
    forall|r: int|
        0 <= r < sigmas.len() ==> invertible(
            #[trigger] prover_run(ops, v, z, h, commitment(v, z, rho, f, h, u), rho, f, u, sigmas).cs[r],
        )
}

/// Completeness: a proof that the prover creates honestly, for a commitment `t` made by
/// `make_commitment` from the secret `v`, the public `z` and the blinding `rho`, is
/// accepted by the verifier, and both end with the same transcript, for every choice of
/// the random blinders whose round challenges are invertible (nonzero modulo the prime ℓ).
/// The encodings of the proof are those that `compress` makes, each naming one group
/// element, as `create` ensures.
pub proof fn lemma_honest_proof_is_accepted(
    ops: Seq<TranscriptOp>,
    v: Seq<int>,
    z: Seq<int>,
    rho: int,
    f: int,
    h: Seq<int>,
    u: int,
    sigmas: Seq<(int, int)>,
    y1: int,
    y2: int,
)
    requires
        canonical_encodings(
            create_model(ops, v, z, h, commitment(v, z, rho, f, h, u), rho, f, u, sigmas, y1, y2).0,
        ),
        v.len() == h.len(),
        z.len() == h.len(),
        sigmas.len() == ceil_log2(h.len()),
        challenges_invertible(ops, v, z, h, rho, f, u, sigmas),
    ensures
        ({
            let t = commitment(v, z, rho, f, h, u);
            let created = create_model(ops, v, z, h, t, rho, f, u, sigmas, y1, y2);
            verify_model(created.0, ops, t, z, f, h, u) == (Ok::<(), ProofError>(()), created.1)
        }),
{
    let m = h.len();
    let t = commitment(v, z, rho, f, h, u);
    let k = ceil_log2(m);
    let n = next_pow2(m);
    lemma_next_pow2_covers(m);
    let (vp, zp, hp) = (pad(v, n), pad(z, n), pad(h, n));
    let s0 = fold_start(ops.push(dom_sep_op()), vp, zp, hp, t, rho);
    let sf = prover_run(ops, v, z, h, t, rho, f, u, sigmas);
    lemma_md(dot(v, h) + md(dot(v, z)) * f + rho * u);
    lemma_rounds_facts(s0, f, u, sigmas, k);
    // the commitment opens to the padded vectors
    lemma_dot_pad(v, h, n);
    lemma_dot_pad(v, z, n);
    lemma_md(dot(v, z));
    lemma_cong_refl(f);
    lemma_cong_refl(rho * u);
    lemma_cong_refl(dot(v, h));
    lemma_cong_mul(md(dot(v, z)), dot(v, z), f, f);
    lemma_cong_add(dot(v, h), dot(v, h), md(dot(v, z)) * f, dot(v, z) * f);
    lemma_cong_add(dot(v, h) + md(dot(v, z)) * f, dot(v, h) + dot(v, z) * f, rho * u, rho * u);
    lemma_cong_trans(t, dot(v, h) + md(dot(v, z)) * f + rho * u, dot(v, h) + dot(v, z) * f + rho * u);
    assert(commits_to(s0, f, u));
    assert(commits_to(sf, f, u));
    lemma_pow2_subtracts(k, k);
    lemma2_to64();
    assert(sf.v.len() == 1);
    // the fully folded vectors
    let (hh0, zz0, vv0) = (sf.h[0], sf.z[0], sf.v[0]);
    assert(sf.v.drop_last() =~= Seq::<int>::empty());
    assert(sf.h.drop_last() =~= Seq::<int>::empty());
    assert(sf.z.drop_last() =~= Seq::<int>::empty());
    assert(dot(sf.v.drop_last(), sf.h.drop_last()) == 0);
    assert(dot(sf.v.drop_last(), sf.z.drop_last()) == 0);
    assert(sf.v.last() == vv0);
    assert(sf.h.last() == hh0);
    assert(sf.z.last() == zz0);
    assert(dot(sf.v, sf.h) == vv0 * hh0);
    assert(dot(sf.v, sf.z) == vv0 * zz0);
    assert(vv0 * zz0 * f == vv0 * (zz0 * f)) by (nonlinear_arith);
    // the verifier's folding
    let svec = s_vec(sf.cs, n);
    lemma_fold_seq_factors(hp, sf.cs);
    lemma_fold_seq_factors(zp, sf.cs);
    lemma_dot_comm(hp, svec);
    let hh = md(dot(svec, hp));
    let zz = md(dot(zp, svec));
    lemma_md(dot(svec, hp));
    lemma_md(dot(zp, svec));
    lemma_cong_sym(hh, dot(svec, hp));
    lemma_cong_trans(hh0, dot(hp, svec), hh);
    lemma_cong_sym(hh0, hh);
    lemma_cong_sym(zz, dot(zp, svec));
    lemma_cong_trans(zz0, dot(zp, svec), zz);
    lemma_cong_sym(zz0, zz);
    let p = create_model(ops, v, z, h, t, rho, f, u, sigmas, y1, y2).0;
    assert(p.t1s == sf.t1s);
    let fv = folding_verifier_model(p, ops.push(dom_sep_op()), t, hp, z);
    assert(fv.0 == Ok::<(int, int, int), ProofError>((zz, hh, sf.t)));
    assert(fv.1 == sf.ops);
    // the final check
    let w = final_w(sf, f, u, y1, y2);
    lemma_md(sf.h[0] * y1 + f * (y1 * sf.z[0]) + u * y2);
    lemma_decode_encoding(w);
    let ops_w = sf.ops.push(message_op(W_LABEL@, ristretto_encoding(w)));
    let c = challenge_value(ops_w, C_LABEL@);
    lemma_final_check(sf.t, hh, zz, hh0, zz0, vv0, sf.rho, f, u, c, y1, y2);
    let rhs = sf.t * c + hh * p.e1 + f * (p.e1 * zz) + u * p.e2;
    lemma_md(rhs);
    lemma_md(hh0 * y1 + f * (y1 * zz0) + u * y2);
    lemma_cong_trans(md(rhs), rhs, hh0 * y1 + f * (y1 * zz0) + u * y2);
    lemma_cong_sym(w, hh0 * y1 + f * (y1 * zz0) + u * y2);
    lemma_cong_trans(md(rhs), hh0 * y1 + f * (y1 * zz0) + u * y2, w);
    lemma_cong_reduced_eq(md(rhs), w);
}

/// One folding of vector-commitment generators with weight `c`: `top + bottom·c`.
pub open spec fn fold_once_commits(x: Seq<int>, c: int) -> Seq<int> {
    lin(top(x), bot(x), 1, c)
}

/// Vector-commitment generators folded with the weights `cs`, first to last.
pub open spec fn fold_seq_commits(x: Seq<int>, cs: Seq<int>) -> Seq<int>
    decreases cs.len(),
{
    if cs.len() == 0 {
        x
    } else {
        fold_once_commits(fold_seq_commits(x, cs.drop_last()), cs.last())
    }
}

/// Folding with `cs` is folding with its first weight, then with the rest.
proof fn lemma_fold_seq_commits_front(x: Seq<int>, cs: Seq<int>)
    requires
        cs.len() >= 1,
    ensures
        fold_seq_commits(x, cs) == fold_seq_commits(fold_once_commits(x, cs[0]), cs.drop_first()),
    decreases cs.len(),
{
    if cs.len() == 1 {
        assert(cs.drop_last() =~= Seq::<int>::empty());
        assert(cs.drop_first() =~= Seq::<int>::empty());
        assert(fold_seq_commits(x, cs.drop_last()) == x);
        assert(cs.last() == cs[0]);
    } else {
        lemma_fold_seq_commits_front(x, cs.drop_last());
        let y = fold_once_commits(x, cs[0]);
        assert(cs.drop_last().drop_first() =~= cs.drop_first().drop_last());
        assert(cs.drop_last()[0] == cs[0]);
        assert(cs.drop_first().last() == cs.last());
        assert(fold_seq_commits(y, cs.drop_first()) == fold_once_commits(
            fold_seq_commits(y, cs.drop_first().drop_last()),
            cs.drop_first().last(),
        ));
    }
}

/// The partial factor of generator `i + b·2^(k-1)` over the last `j < k` weights is that
/// of generator `i` over the weights after the first.
proof fn lemma_s_partial_commits_tail(i: int, b: int, cs: Seq<int>, j: nat)
    requires
        cs.len() >= 1,
        0 <= i < pow2((cs.len() - 1) as nat),
        b == 0 || b == 1,
        j <= cs.len() - 1,
    ensures
        s_partial_commits(i + b * pow2((cs.len() - 1) as nat), cs, j) == s_partial_commits(
            i,
            cs.drop_first(),
            j,
        ),
    decreases j,
{
    if j > 0 {
        lemma_s_partial_commits_tail(i, b, cs, (j - 1) as nat);
        lemma_bit_high(i, b, cs.len(), (j - 1) as nat);
        assert(cs.drop_first()[cs.drop_first().len() - j] == cs[cs.len() - j]);
    }
}

/// The factor of generator `i + b·2^(k-1)` is the factor of generator `i` after the first
/// fold, times the first weight (`b = 1`) or not (`b = 0`).
proof fn lemma_s_commits_split(i: int, b: int, cs: Seq<int>)
    requires
        cs.len() >= 1,
        0 <= i < pow2((cs.len() - 1) as nat),
        b == 0 || b == 1,
    ensures
        cong(
            s_partial_commits(i + b * pow2((cs.len() - 1) as nat), cs, cs.len()),
            s_partial_commits(i, cs.drop_first(), cs.drop_first().len()) * (if b == 1 {
                cs[0]
            } else {
                1
            }),
        ),
{
    let k = cs.len();
    let ii = i + b * pow2((k - 1) as nat);
    lemma_s_partial_commits_tail(i, b, cs, (k - 1) as nat);
    lemma_bit_high(i, b, k, (k - 1) as nat);
    assert(cs[cs.len() - k] == cs[0]);
    let prev = s_partial_commits(ii, cs, (k - 1) as nat);
    if b == 1 {
        lemma_md(prev * cs[0]);
    } else {
        assert(prev * 1 == prev);
        lemma_cong_refl(prev);
    }
}

/// The verifier's one-shot folding of vector-commitment generators agrees with folding
/// them round by round as `top + bottom·c` (`mad_scalar_point`): generators of length `2^k`
/// folded with `k` weights are their inner product with the factors `s_vec_commits`.
pub proof fn lemma_fold_seq_commits_factors(x: Seq<int>, cs: Seq<int>)
    requires
        x.len() == pow2(cs.len()),
    ensures
        fold_seq_commits(x, cs).len() == 1,
        cong(fold_seq_commits(x, cs)[0], dot(x, s_vec_commits(cs, x.len()))),
    decreases cs.len(),
{
    let n = x.len();
    let sv = s_vec_commits(cs, n);
    if cs.len() == 0 {
        lemma2_to64();
        assert(sv.drop_last() =~= Seq::<int>::empty());
        assert(x.drop_last() =~= Seq::<int>::empty());
        assert(sv[0] == 1);
        assert(dot(x.drop_last(), sv.drop_last()) == 0);
        assert(dot(x, sv) == x[0] * 1);
        lemma_cong_refl(x[0]);
    } else {
        let k = cs.len();
        let m = pow2((k - 1) as nat);
        lemma_pow2_unfold(k);
        let c0 = cs[0];
        let cs1 = cs.drop_first();
        let x1 = fold_once_commits(x, c0);
        lemma_fold_seq_commits_front(x, cs);
        assert(x1.len() == m);
        lemma_fold_seq_commits_factors(x1, cs1);
        let sv1 = s_vec_commits(cs1, m);
        lemma_dot_lin_left(top(x), bot(x), 1, c0, sv1);
        lemma_dot_split(x, sv);
        assert forall|i: int| 0 <= i < top(sv).len() implies cong(#[trigger] top(sv)[i], sv1[i] * 1) by {
            lemma_s_commits_split(i, 0, cs);
            assert(i + 0 * m == i);
        }
        assert forall|i: int| 0 <= i < bot(sv).len() implies cong(#[trigger] bot(sv)[i], sv1[i] * c0) by {
            lemma_s_commits_split(i, 1, cs);
            assert(i + 1 * m == i + m);
        }
        lemma_dot_scaled(top(x), top(sv), sv1, 1);
        lemma_dot_scaled(bot(x), bot(sv), sv1, c0);
        lemma_cong_add(
            dot(top(x), top(sv)),
            1 * dot(top(x), sv1),
            dot(bot(x), bot(sv)),
            c0 * dot(bot(x), sv1),
        );
        lemma_cong_sym(dot(x1, sv1), 1 * dot(top(x), sv1) + c0 * dot(bot(x), sv1));
        lemma_cong_trans(dot(x, sv), 1 * dot(top(x), sv1) + c0 * dot(bot(x), sv1), dot(x1, sv1));
        lemma_cong_sym(dot(x, sv), dot(x1, sv1));
        lemma_cong_trans(fold_seq_commits(x, cs)[0], dot(x1, sv1), dot(x, sv));
    }
}

/// The inverse of a product of invertible residues is the product of their inverses.
proof fn lemma_inv_mul(a: int, b: int)
    requires
        invertible(a),
        invertible(b),
    ensures
        inv(md(a * b)) == md(inv(a) * inv(b)),
        invertible(md(a * b)),
{
    let r = md(inv(a) * inv(b));
    lemma_md(inv(a) * inv(b));
    lemma_md(a * b);
    assert(a * b * (inv(a) * inv(b)) == (a * inv(a)) * (b * inv(b))) by (nonlinear_arith);
    lemma_cong_mul(a * inv(a), 1, b * inv(b), 1);
    lemma_cong_mul(md(a * b), a * b, r, inv(a) * inv(b));
    lemma_cong_trans(md(a * b) * r, a * b * (inv(a) * inv(b)), 1);
    lemma_md_small(1);
    lemma_inv_unique(md(a * b), r);
}

/// The inverse of 0 is 0, and that of 1 is 1.
proof fn lemma_inv_zero_one()
    ensures
        inv(0) == 0,
        inv(1) == 1,
        invertible(1),
{
    lemma_md_small(1);
    lemma_inv_unique(1, 1);
}

/// The partial factors of the inverted weights are the inverses of the partial factors,
/// when each weight is 0 or invertible; each partial factor is then 0 or invertible too.
proof fn lemma_s_partial_commits_inverses(i: int, cs: Seq<int>, j: nat)
    requires
        j <= cs.len(),
        forall|r: int| 0 <= r < cs.len() ==> #[trigger] md(cs[r]) == 0 || invertible(cs[r]),
    ensures
        s_partial_commits(i, inverses(cs), j) == inv(s_partial_commits(i, cs, j)),
        s_partial_commits(i, cs, j) == 0 || invertible(s_partial_commits(i, cs, j)),
    decreases j,
{
    lemma_inv_zero_one();
    if j > 0 {
        lemma_s_partial_commits_inverses(i, cs, (j - 1) as nat);
        let x = cs[cs.len() - j];
        let p = s_partial_commits(i, cs, (j - 1) as nat);
        assert(inverses(cs)[inverses(cs).len() - j] == inv(x));
        if bit(i, (j - 1) as nat) {
            assert(md(x) == 0 || invertible(x));
            if p == 0 {
                assert(md(0 * inv(x)) == 0);
                assert(md(p * x) == 0);
            } else if md(x) == 0 {
                assert(inv(x) == 0);
                assert(md(inv(p) * 0) == 0);
                lemma_md_mul(p, x);
                assert(md(p * md(x)) == 0) by {
                    assert(p * 0 == 0);
                }
            } else {
                lemma_inv_mul(p, x);
            }
        }
    }
}

/// For weights that are 0 or invertible (every residue is, ℓ being prime), folding
/// vector-commitment generators round by round as `top + bottom·c⁻¹` agrees with the
/// verifier's one-shot folding with the inverted factors.
pub proof fn lemma_fold_seq_commits_inverse_factors(x: Seq<int>, cs: Seq<int>)
    requires
        x.len() == pow2(cs.len()),
        forall|r: int| 0 <= r < cs.len() ==> #[trigger] md(cs[r]) == 0 || invertible(cs[r]),
    ensures
        fold_seq_commits(x, inverses(cs)).len() == 1,
        cong(
            fold_seq_commits(x, inverses(cs))[0],
            dot(x, inverses(s_vec_commits(cs, x.len()))),
        ),
{
    lemma_fold_seq_commits_factors(x, inverses(cs));
    assert forall|i: int| 0 <= i < x.len() implies #[trigger] s_vec_commits(inverses(cs), x.len())[i]
        == inverses(s_vec_commits(cs, x.len()))[i] by {
        lemma_s_partial_commits_inverses(i, cs, cs.len());
    }
    assert(s_vec_commits(inverses(cs), x.len()) =~= inverses(s_vec_commits(cs, x.len())));
}

/// Folding keeps the entries of a vector of reduced residues reduced.
proof fn lemma_fold_seq_reduced(x: Seq<int>, cs: Seq<int>)
    requires
        forall|i: int| 0 <= i < x.len() ==> 0 <= #[trigger] x[i] < group_order(),
    ensures
        forall|i: int|
            0 <= i < fold_seq(x, cs).len() ==> 0 <= #[trigger] fold_seq(x, cs)[i] < group_order(),
    decreases cs.len(),
{
    if cs.len() > 0 {
        lemma_fold_seq_reduced(x, cs.drop_last());
        let y = fold_seq(x, cs.drop_last());
        let c = cs.last();
        assert forall|i: int| 0 <= i < fold_seq(x, cs).len() implies 0 <= #[trigger] fold_seq(
            x,
            cs,
        )[i] < group_order() by {
            lemma_md(top(y)[i] * inv(c) + bot(y)[i] * c);
        }
    }
}

/// The verifier's folding agrees with the prover's: for a proof whose round commitments
/// are those that the prover's rounds send (each naming one group element), folding them
/// from the same transcript gives back the prover's folded public value, folded generator
/// and folded commitment, and the same transcript.
pub proof fn lemma_verifier_folding_agrees_with_prover(
    ops: Seq<TranscriptOp>,
    v: Seq<int>,
    z: Seq<int>,
    h: Seq<int>,
    t: int,
    rho: int,
    f: int,
    u: int,
    sig: Seq<(int, int)>,
    w: Seq<u8>,
    e1: int,
    e2: int,
)
    requires
        v.len() == h.len(),
        z.len() == h.len(),
        h.len() == pow2(sig.len()),
        0 <= t < group_order(),
        forall|i: int| 0 <= i < z.len() ==> 0 <= #[trigger] z[i] < group_order(),
        forall|i: int| 0 <= i < h.len() ==> 0 <= #[trigger] h[i] < group_order(),
        all_at_most_one(prover_rounds(fold_start(ops, v, z, h, t, rho), f, u, sig).t1s),
        all_at_most_one(prover_rounds(fold_start(ops, v, z, h, t, rho), f, u, sig).tm1s),
    ensures
        ({
            let sf = prover_rounds(fold_start(ops, v, z, h, t, rho), f, u, sig);
            let p = ProofModel { t1s: sf.t1s, tm1s: sf.tm1s, w, e1, e2 };
            folding_verifier_model(p, ops, t, h, z) == (
                Ok::<(int, int, int), ProofError>((sf.z[0], sf.h[0], sf.t)),
                sf.ops,
            )
        }),
{
    let k = sig.len();
    let n = h.len();
    let s0 = fold_start(ops, v, z, h, t, rho);
    let sf = prover_rounds(s0, f, u, sig);
    lemma_rounds_facts(s0, f, u, sig, k);
    lemma_pow2_subtracts(k, k);
    lemma2_to64();
    let p = ProofModel { t1s: sf.t1s, tm1s: sf.tm1s, w, e1, e2 };
    // the public vector is already of power-of-two length
    crate::model::lemma_ceil_log2_from_pow2(k, 0);
    assert(next_pow2(z.len()) == n);
    assert(pad(z, n) =~= z);
    // the one-shot folds are the prover's folds
    let svec = s_vec(sf.cs, n);
    lemma_fold_seq_factors(h, sf.cs);
    lemma_fold_seq_factors(z, sf.cs);
    lemma_fold_seq_reduced(h, sf.cs);
    lemma_fold_seq_reduced(z, sf.cs);
    lemma_dot_comm(h, svec);
    let hh = md(dot(svec, h));
    let zz = md(dot(z, svec));
    lemma_md(dot(svec, h));
    lemma_md(dot(z, svec));
    lemma_cong_sym(hh, dot(svec, h));
    lemma_cong_trans(sf.h[0], dot(h, svec), hh);
    lemma_cong_reduced_eq(sf.h[0], hh);
    lemma_cong_sym(zz, dot(z, svec));
    lemma_cong_trans(sf.z[0], dot(z, svec), zz);
    lemma_cong_reduced_eq(sf.z[0], zz);
    let fv = folding_verifier_model(p, ops, t, h, z);
    assert(fv.0 == Ok::<(int, int, int), ProofError>((zz, hh, sf.t)));
}

/// The final opening: after the prover's rounds from a commitment that opens to
/// `(v, z, rho)`, the folded commitment opens to the folded scalars,
/// `t ≡ v·h + (v·z)·f + rho·u`, whenever every round challenge is invertible.
pub proof fn lemma_final_opening(
    ops: Seq<TranscriptOp>,
    v: Seq<int>,
    z: Seq<int>,
    h: Seq<int>,
    t: int,
    rho: int,
    f: int,
    u: int,
    sig: Seq<(int, int)>,
)
    requires
        v.len() == h.len(),
        z.len() == h.len(),
        h.len() == pow2(sig.len()),
        0 <= t < group_order(),
        cong(t, dot(v, h) + dot(v, z) * f + rho * u),
        forall|r: int|
            0 <= r < sig.len() ==> invertible(
                #[trigger] prover_rounds(fold_start(ops, v, z, h, t, rho), f, u, sig).cs[r],
            ),
    ensures
        ({
            let sf = prover_rounds(fold_start(ops, v, z, h, t, rho), f, u, sig);
            &&& sf.v.len() == 1
            &&& cong(sf.t, sf.v[0] * sf.h[0] + sf.v[0] * sf.z[0] * f + sf.rho * u)
        }),
{
    let k = sig.len();
    let s0 = fold_start(ops, v, z, h, t, rho);
    let sf = prover_rounds(s0, f, u, sig);
    lemma_rounds_facts(s0, f, u, sig, k);
    assert(commits_to(s0, f, u));
    assert(commits_to(sf, f, u));
    lemma_pow2_subtracts(k, k);
    lemma2_to64();
    assert(sf.v.len() == 1);
    assert(sf.v.drop_last() =~= Seq::<int>::empty());
    assert(sf.h.drop_last() =~= Seq::<int>::empty());
    assert(sf.z.drop_last() =~= Seq::<int>::empty());
    assert(dot(sf.v.drop_last(), sf.h.drop_last()) == 0);
    assert(dot(sf.v.drop_last(), sf.z.drop_last()) == 0);
    assert(dot(sf.v, sf.h) == sf.v[0] * sf.h[0]);
    assert(dot(sf.v, sf.z) == sf.v[0] * sf.z[0]);
}

/// The terms that the first `n` rounds add to a vector commitment: round `i` adds its
/// `t_{-1}` times the inverse of its own challenge `c_i` and its `t_1` times `c_i`.
pub open spec fn commits_round_terms(
    tm1s: Seq<Seq<u8>>,
    t1s: Seq<Seq<u8>>,
    cs: Seq<int>,
    n: nat,
) -> int
    decreases n,
{
    if n == 0 {
        0
    } else {
        commits_round_terms(tm1s, t1s, cs, (n - 1) as nat) + decode(tm1s[n - 1]) * inv(cs[n - 1])
            + decode(t1s[n - 1]) * cs[n - 1]
    }
}

/// The terms of the first `n` rounds read only those rounds.
proof fn lemma_commits_round_terms_prefix(
    tm1s: Seq<Seq<u8>>,
    t1s: Seq<Seq<u8>>,
    cs: Seq<int>,
    n: nat,
)
    requires
        n < tm1s.len(),
        n < t1s.len(),
        n < cs.len(),
    ensures
        commits_round_terms(tm1s, t1s, cs, n) == commits_round_terms(
            tm1s.drop_last(),
            t1s.drop_last(),
            cs.drop_last(),
            n,
        ),
    decreases n,
{
    if n > 0 {
        lemma_commits_round_terms_prefix(tm1s, t1s, cs, (n - 1) as nat);
    }
}

/// The vector-commitment fold of `t` through `k` rounds is `t` plus, for each round `i`,
/// `t_{-1}[i]·c_i⁻¹ + t_1[i]·c_i` with that round's own challenge, modulo ℓ.
pub proof fn lemma_verifier_t_commits_sum(t: int, tm1s: Seq<Seq<u8>>, t1s: Seq<Seq<u8>>, cs: Seq<int>)
    requires
        tm1s.len() == cs.len(),
        t1s.len() == cs.len(),
    ensures
        verifier_t_commits(t, tm1s, t1s, cs) == md(t + commits_round_terms(tm1s, t1s, cs, cs.len())),
    decreases cs.len(),
{
    let k = cs.len();
    if k == 0 {
    } else {
        let (a, b, c) = (tm1s.drop_last(), t1s.drop_last(), cs.drop_last());
        lemma_verifier_t_commits_sum(t, a, b, c);
        lemma_commits_round_terms_prefix(tm1s, t1s, cs, (k - 1) as nat);
        let s1 = commits_round_terms(tm1s, t1s, cs, (k - 1) as nat);
        let x = decode(tm1s[k - 1]) * inv(cs[k - 1]);
        let y = decode(t1s[k - 1]) * cs[k - 1];
        assert(tm1s.last() == tm1s[k - 1] && t1s.last() == t1s[k - 1] && cs.last() == cs[k - 1]);
        assert(verifier_t_commits(t, tm1s, t1s, cs) == md(x + md(t + s1) + y));
        lemma_md_add(x, t + s1);
        lemma_md_add(x + (t + s1), y);
        lemma_md_add(x + md(t + s1), y);
        assert(x + (t + s1) + y == t + (s1 + x + y));
    }
}

/// The challenge of each round: the one drawn right after appending that round's
/// `t_{-1}` and `t_1` to the transcript of the rounds before it.
pub proof fn lemma_rounds_challenges_index(ops: Seq<TranscriptOp>, tm1s: Seq<Seq<u8>>, t1s: Seq<Seq<u8>>)
    requires
        tm1s.len() == t1s.len(),
    ensures
        rounds_challenges(ops, tm1s, t1s).len() == t1s.len(),
        forall|i: int|
            0 <= i < t1s.len() ==> #[trigger] rounds_challenges(ops, tm1s, t1s)[i] == challenge_value(
                round_ops(
                    rounds_transcript(ops, tm1s.subrange(0, i), t1s.subrange(0, i)),
                    tm1s[i],
                    t1s[i],
                ),
                C_LABEL@,
            ),
    decreases t1s.len(),
{
    let k = t1s.len();
    if k > 0 {
        let (a, b) = (tm1s.drop_last(), t1s.drop_last());
        lemma_rounds_challenges_index(ops, a, b);
        assert forall|i: int| 0 <= i < k implies #[trigger] rounds_challenges(ops, tm1s, t1s)[i]
            == challenge_value(
            round_ops(
                rounds_transcript(ops, tm1s.subrange(0, i), t1s.subrange(0, i)),
                tm1s[i],
                t1s[i],
            ),
            C_LABEL@,
        ) by {
            if i < k - 1 {
                assert(a.subrange(0, i) =~= tm1s.subrange(0, i));
                assert(b.subrange(0, i) =~= t1s.subrange(0, i));
                assert(rounds_challenges(ops, tm1s, t1s)[i] == rounds_challenges(ops, a, b)[i]);
            } else {
                assert(tm1s.subrange(0, i) =~= a);
                assert(t1s.subrange(0, i) =~= b);
            }
        }
    }
}

/// The commitment that the verifier's folding for vector commitments returns is the
/// verifier's commitment folded round by round in round order: round `i` adds
/// `t_{-1}[i]·c_i⁻¹ + t_1[i]·c_i`, where `c_i` is the challenge drawn right after that
/// round's two points.
pub proof fn lemma_commits_fold_in_round_order(
    p: ProofModel,
    ops: Seq<TranscriptOp>,
    t: int,
    g: Seq<int>,
    h: Seq<int>,
)
    requires
        folding_verifier_commits_model(p, ops, t, g, h).0 is Ok,
    ensures
        ({
            let cs = rounds_challenges(ops, p.tm1s, p.t1s);
            &&& p.t1s.len() == p.tm1s.len()
            &&& cs.len() == p.t1s.len()
            &&& forall|i: int|
                0 <= i < p.t1s.len() ==> #[trigger] cs[i] == challenge_value(
                    round_ops(
                        rounds_transcript(ops, p.tm1s.subrange(0, i), p.t1s.subrange(0, i)),
                        p.tm1s[i],
                        p.t1s[i],
                    ),
                    C_LABEL@,
                )
            &&& folding_verifier_commits_model(p, ops, t, g, h).0->Ok_0.2 == md(
                t + commits_round_terms(p.tm1s, p.t1s, cs, p.t1s.len()),
            )
        }),
{
    lemma_rounds_challenges_index(ops, p.tm1s, p.t1s);
    lemma_verifier_t_commits_sum(t, p.tm1s, p.t1s, rounds_challenges(ops, p.tm1s, p.t1s));
}

/// Verification accepts exactly the proofs that pass the final check: when the verifier's
/// folding succeeds with `(z'', h'', t'')` and `w` decodes, the result is `Ok(())` if and
/// only if `w == t''·c + h''·e_1 + f·(e_1·z'') + u·e_2` for the final challenge `c`, and
/// `VerificationError` otherwise, whatever the number of rounds; a failed folding gives
/// its error, and a `w` that does not decode gives `MalformedProof`.
pub proof fn lemma_verify_is_the_final_check(
    p: ProofModel,
    ops: Seq<TranscriptOp>,
    t: int,
    z: Seq<int>,
    f: int,
    h: Seq<int>,
    u: int,
)
    ensures
        ({
            let fv = folding_verifier_model(
                p,
                ops.push(dom_sep_op()),
                t,
                pad(h, next_pow2(h.len())),
                z,
            );
            let r = verify_model(p, ops, t, z, f, h, u).0;
            match fv.0 {
                Err(e) => r == Err::<(), ProofError>(e),
                Ok((zz, hh, tt)) => {
                    let c = challenge_value(fv.1.push(message_op(W_LABEL@, p.w)), C_LABEL@);
                    &&& !encodes_point(p.w) ==> r == Err::<(), ProofError>(
                        ProofError::MalformedProof,
                    )
                    &&& encodes_point(p.w) ==> (r is Ok <==> decode(p.w) == md(
                        tt * c + hh * p.e1 + f * (p.e1 * zz) + u * p.e2,
                    ))
                    &&& encodes_point(p.w) && r is Err ==> r == Err::<(), ProofError>(
                        ProofError::VerificationError,
                    )
                },
            }
        }),
{
}

/// Folding keeps the entries of a vector of reduced residues reduced (vector commitments).
proof fn lemma_fold_seq_commits_reduced(x: Seq<int>, cs: Seq<int>)
    requires
        forall|i: int| 0 <= i < x.len() ==> 0 <= #[trigger] x[i] < group_order(),
    ensures
        forall|i: int|
            0 <= i < fold_seq_commits(x, cs).len() ==> 0 <= #[trigger] fold_seq_commits(x, cs)[i]
                < group_order(),
    decreases cs.len(),
{
    if cs.len() > 0 {
        lemma_fold_seq_commits_reduced(x, cs.drop_last());
        let y = fold_seq_commits(x, cs.drop_last());
        let c = cs.last();
        assert forall|i: int| 0 <= i < fold_seq_commits(x, cs).len() implies 0
            <= #[trigger] fold_seq_commits(x, cs)[i] < group_order() by {
            lemma_md(top(y)[i] * 1 + bot(y)[i] * c);
        }
    }
}

/// The generators that the verifier's folding for vector commitments returns are the
/// generators folded round by round in round order: `g` as `top + bottom·c_i`, and, when
/// every challenge is 0 or invertible (every residue is, ℓ being prime), `h` as
/// `top + bottom·c_i⁻¹`, where `c_i` is round `i`'s challenge.
pub proof fn lemma_commits_generators_in_round_order(
    p: ProofModel,
    ops: Seq<TranscriptOp>,
    t: int,
    g: Seq<int>,
    h: Seq<int>,
)
    requires
        folding_verifier_commits_model(p, ops, t, g, h).0 is Ok,
        forall|i: int| 0 <= i < g.len() ==> 0 <= #[trigger] g[i] < group_order(),
        forall|i: int| 0 <= i < h.len() ==> 0 <= #[trigger] h[i] < group_order(),
    ensures
        ({
            let cs = rounds_challenges(ops, p.tm1s, p.t1s);
            let r = folding_verifier_commits_model(p, ops, t, g, h).0->Ok_0;
            &&& r.0 == fold_seq_commits(g, cs)[0]
            &&& (forall|i: int|
                0 <= i < cs.len() ==> #[trigger] md(cs[i]) == 0 || invertible(cs[i]))
                ==> r.1 == fold_seq_commits(h, inverses(cs))[0]
        }),
{
    let cs = rounds_challenges(ops, p.tm1s, p.t1s);
    lemma_rounds_challenges_index(ops, p.tm1s, p.t1s);
    let n = g.len();
    let sv = s_vec_commits(cs, n);
    lemma_fold_seq_commits_factors(g, cs);
    lemma_fold_seq_commits_reduced(g, cs);
    lemma_md(dot(g, sv));
    lemma_dot_comm(sv, g);
    lemma_cong_sym(md(dot(sv, g)), dot(sv, g));
    lemma_cong_trans(fold_seq_commits(g, cs)[0], dot(g, sv), md(dot(sv, g)));
    lemma_cong_reduced_eq(fold_seq_commits(g, cs)[0], md(dot(sv, g)));
    if forall|i: int| 0 <= i < cs.len() ==> #[trigger] md(cs[i]) == 0 || invertible(cs[i]) {
        let ics = inverses(cs);
        assert(ics.len() == cs.len());
        lemma_fold_seq_commits_inverse_factors(h, cs);
        lemma_fold_seq_commits_reduced(h, ics);
        let isv = inverses(sv);
        lemma_md(dot(isv, h));
        lemma_dot_comm(isv, h);
        lemma_cong_sym(md(dot(isv, h)), dot(isv, h));
        lemma_cong_trans(fold_seq_commits(h, ics)[0], dot(h, isv), md(dot(isv, h)));
        lemma_cong_reduced_eq(fold_seq_commits(h, ics)[0], md(dot(isv, h)));
    }
}

} // verus!
