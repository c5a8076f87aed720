//! Inner products of residue vectors: how they split, scale and fold.
use crate::field::{
    cong, dot, lemma_cong_add, lemma_cong_mul, lemma_cong_refl, lemma_cong_trans,
    lemma_md, lin, md, zeros,
};
use crate::model::{bot, commitment, pad, top};
use vstd::prelude::*;

verus! {

/// The inner product over concatenations is the sum of the inner products of the parts.
pub proof fn lemma_dot_concat(a: Seq<int>, b: Seq<int>, x: Seq<int>, y: Seq<int>)
    requires
        a.len() == x.len(),
        b.len() == y.len(),
    ensures
        dot(a + b, x + y) == dot(a, x) + dot(b, y),
    decreases b.len(),
{
    if b.len() == 0 {
        assert(a + b =~= a);
        assert(x + y =~= x);
    } else {
        lemma_dot_concat(a, b.drop_last(), x, y.drop_last());
        assert((a + b).drop_last() =~= a + b.drop_last());
        assert((x + y).drop_last() =~= x + y.drop_last());
    }
}

/// The inner product splits into the inner products of the halves.
pub proof fn lemma_dot_split(v: Seq<int>, h: Seq<int>)
    requires
        v.len() == h.len(),
    ensures
        dot(v, h) == dot(top(v), top(h)) + dot(bot(v), bot(h)),
{
    assert(v =~= top(v) + bot(v));
    assert(h =~= top(h) + bot(h));
    lemma_dot_concat(top(v), bot(v), top(h), bot(h));
}

/// The inner product is symmetric.
pub proof fn lemma_dot_comm(a: Seq<int>, b: Seq<int>)
    requires
        a.len() == b.len(),
    ensures
        dot(a, b) == dot(b, a),
    decreases a.len(),
{
    if a.len() > 0 {
        lemma_dot_comm(a.drop_last(), b.drop_last());
        assert(a.last() * b.last() == b.last() * a.last()) by (nonlinear_arith);
    }
}

/// Zeros contribute nothing to an inner product.
pub proof fn lemma_dot_zeros(x: Seq<int>, n: nat)
    requires
        x.len() == n,
    ensures
        dot(zeros(n), x) == 0,
        dot(x, zeros(n)) == 0,
    decreases n,
{
    if n > 0 {
        assert(zeros(n).drop_last() =~= zeros((n - 1) as nat));
        lemma_dot_zeros(x.drop_last(), (n - 1) as nat);
        assert(zeros(n).last() == 0);
        assert(dot(zeros(n), x) == dot(zeros((n - 1) as nat), x.drop_last()) + 0 * x.last());
        assert(dot(x, zeros(n)) == dot(x.drop_last(), zeros((n - 1) as nat)) + x.last() * 0);
    }
}

/// Padding both vectors with zeros does not change their inner product.
pub proof fn lemma_dot_pad(a: Seq<int>, b: Seq<int>, n: nat)
    requires
        a.len() == b.len(),
        a.len() <= n,
    ensures
        dot(pad(a, n), pad(b, n)) == dot(a, b),
{
    let m = (n - a.len()) as nat;
    lemma_dot_concat(a, zeros(m), b, zeros(m));
    lemma_dot_zeros(zeros(m), m);
}

/// Padding the vectors with zeros, and the generators with the identity, does not change
/// the commitment.
pub proof fn lemma_pad_keeps_commitment(
    v: Seq<int>,
    z: Seq<int>,
    rho: int,
    f: int,
    h: Seq<int>,
    u: int,
    n: nat,
)
    requires
        v.len() == h.len(),
        z.len() == h.len(),
        h.len() <= n,
    ensures
        commitment(pad(v, n), pad(z, n), rho, f, pad(h, n), u) == commitment(v, z, rho, f, h, u),
{
    lemma_dot_pad(v, h, n);
    lemma_dot_pad(v, z, n);
}

proof fn lemma_expand2(p: int, q: int, da: int, db: int, al: int, bl: int, wl: int)
    ensures
        p * da + q * db + (al * p + bl * q) * wl == p * (da + al * wl) + q * (db + bl * wl),
{
    assert((al * p + bl * q) * wl == p * (al * wl) + q * (bl * wl)) by (nonlinear_arith);
    assert(p * (da + al * wl) == p * da + p * (al * wl)) by (nonlinear_arith);
    assert(q * (db + bl * wl) == q * db + q * (bl * wl)) by (nonlinear_arith);
}

/// The inner product of a folded vector: `⟨p·a + q·b, w⟩ ≡ p·⟨a, w⟩ + q·⟨b, w⟩`.
pub proof fn lemma_dot_lin_left(a: Seq<int>, b: Seq<int>, p: int, q: int, w: Seq<int>)
    requires
        a.len() == b.len(),
        a.len() == w.len(),
    ensures
        cong(dot(lin(a, b, p, q), w), p * dot(a, w) + q * dot(b, w)),
    decreases a.len(),
{
    let l = lin(a, b, p, q);
    if a.len() == 0 {
        assert(dot(l, w) == 0);
        assert(p * dot(a, w) + q * dot(b, w) == 0) by (nonlinear_arith)
            requires
                dot(a, w) == 0,
                dot(b, w) == 0,
        ;
    } else {
        let a1 = a.drop_last();
        let b1 = b.drop_last();
        let w1 = w.drop_last();
        assert(l.drop_last() =~= lin(a1, b1, p, q));
        lemma_dot_lin_left(a1, b1, p, q, w1);
        let last = a.last() * p + b.last() * q;
        assert(l.last() == md(last));
        lemma_md(last);
        lemma_cong_refl(w.last());
        lemma_cong_mul(md(last), last, w.last(), w.last());
        lemma_cong_add(dot(lin(a1, b1, p, q), w1), p * dot(a1, w1) + q * dot(b1, w1), md(last) * w.last(), last * w.last());
        let da = dot(a1, w1);
        let db = dot(b1, w1);
        let al = a.last();
        let bl = b.last();
        let wl = w.last();
        lemma_expand2(p, q, da, db, al, bl, wl);
    }
}

/// The same on the right: `⟨w, p·a + q·b⟩ ≡ p·⟨w, a⟩ + q·⟨w, b⟩`.
pub proof fn lemma_dot_lin_right(w: Seq<int>, a: Seq<int>, b: Seq<int>, p: int, q: int)
    requires
        a.len() == b.len(),
        a.len() == w.len(),
    ensures
        cong(dot(w, lin(a, b, p, q)), p * dot(w, a) + q * dot(w, b)),
{
    lemma_dot_lin_left(a, b, p, q, w);
    lemma_dot_comm(w, lin(a, b, p, q));
    lemma_dot_comm(w, a);
    lemma_dot_comm(w, b);
}

/// The inner product of two folded vectors:
/// `⟨p·a + q·b, r·x + s·y⟩ ≡ pr⟨a,x⟩ + ps⟨a,y⟩ + qr⟨b,x⟩ + qs⟨b,y⟩`.
pub proof fn lemma_dot_bilinear(
    a: Seq<int>,
    b: Seq<int>,
    x: Seq<int>,
    y: Seq<int>,
    p: int,
    q: int,
    r: int,
    s: int,
)
    requires
        a.len() == b.len(),
        a.len() == x.len(),
        a.len() == y.len(),
    ensures
        cong(
            dot(lin(a, b, p, q), lin(x, y, r, s)),
            p * r * dot(a, x) + p * s * dot(a, y) + q * r * dot(b, x) + q * s * dot(b, y),
        ),
{
    let lx = lin(x, y, r, s);
    lemma_dot_lin_left(a, b, p, q, lx);
    lemma_dot_lin_right(a, x, y, r, s);
    lemma_dot_lin_right(b, x, y, r, s);
    lemma_cong_refl(p);
    lemma_cong_refl(q);
    lemma_cong_mul(p, p, dot(a, lx), r * dot(a, x) + s * dot(a, y));
    lemma_cong_mul(q, q, dot(b, lx), r * dot(b, x) + s * dot(b, y));
    lemma_cong_add(
        p * dot(a, lx),
        p * (r * dot(a, x) + s * dot(a, y)),
        q * dot(b, lx),
        q * (r * dot(b, x) + s * dot(b, y)),
    );
    lemma_cong_trans(
        dot(lin(a, b, p, q), lx),
        p * dot(a, lx) + q * dot(b, lx),
        p * (r * dot(a, x) + s * dot(a, y)) + q * (r * dot(b, x) + s * dot(b, y)),
    );
    let ax = dot(a, x);
    let ay = dot(a, y);
    let bx = dot(b, x);
    let by_ = dot(b, y);
    lemma_expand4(p, q, r, s, ax, ay, bx, by_);
}

proof fn lemma_expand4(p: int, q: int, r: int, s: int, ax: int, ay: int, bx: int, by_: int)
    ensures
        p * (r * ax + s * ay) + q * (r * bx + s * by_) == p * r * ax + p * s * ay + q * r * bx + q
            * s * by_,
{
    assert(p * (r * ax + s * ay) == p * r * ax + p * s * ay) by (nonlinear_arith);
    assert(q * (r * bx + s * by_) == q * r * bx + q * s * by_) by (nonlinear_arith);
}

proof fn lemma_expand_scaled(p: int, d1: int, al: int, wl: int)
    ensures
        p * d1 + al * (wl * p) == p * (d1 + al * wl),
{
    assert(p * d1 + al * (wl * p) == p * (d1 + al * wl)) by (nonlinear_arith);
}

/// Scaling every entry of one side scales the inner product: if `u[i] ≡ w[i]·p` for all
/// `i`, then `⟨a, u⟩ ≡ p·⟨a, w⟩`.
pub proof fn lemma_dot_scaled(a: Seq<int>, u: Seq<int>, w: Seq<int>, p: int)
    requires
        a.len() == u.len(),
        a.len() == w.len(),
        forall|i: int| 0 <= i < u.len() ==> cong(#[trigger] u[i], w[i] * p),
    ensures
        cong(dot(a, u), p * dot(a, w)),
    decreases a.len(),
{
    if a.len() == 0 {
        assert(p * dot(a, w) == 0) by (nonlinear_arith)
            requires
                dot(a, w) == 0,
        ;
    } else {
        let a1 = a.drop_last();
        let u1 = u.drop_last();
        let w1 = w.drop_last();
        assert forall|i: int| 0 <= i < u1.len() implies cong(#[trigger] u1[i], w1[i] * p) by {
            assert(u1[i] == u[i]);
        }
        lemma_dot_scaled(a1, u1, w1, p);
        assert(cong(u.last(), w.last() * p));
        lemma_cong_refl(a.last());
        lemma_cong_mul(a.last(), a.last(), u.last(), w.last() * p);
        lemma_cong_add(dot(a1, u1), p * dot(a1, w1), a.last() * u.last(), a.last() * (w.last() * p));
        lemma_expand_scaled(p, dot(a1, w1), a.last(), w.last());
    }
}

} // verus!
