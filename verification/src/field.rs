//! Arithmetic modulo the order of the Ristretto group, as the specifications use it.
//!
//! Scalars and the discrete logarithms of group elements are both residues modulo
//! `group_order()`; this module holds the definitions shared by the rest of the crate
//! and the lemmas that move `% group_order()` through sums and products.
use vstd::arithmetic::div_mod::{
    lemma_add_mod_noop, lemma_mod_bound, lemma_mod_twice, lemma_mul_mod_noop_general,
    lemma_small_mod, lemma_sub_mod_noop,
};
use vstd::prelude::*;

verus! {

/// The prime order ℓ = 2^252 + 27742317777372353535851937790883648493 of the Ristretto group.
pub open spec fn group_order() -> int {
    7237005577332262213973186563042994240857116359379907606001950938285454250989int
}

/// 2^255: scalars are built from the low 255 bits of their 32 bytes.
pub open spec fn two_pow_255() -> int {
    57896044618658097711785492504343953926634992332820282019728792003956564819968int
}

/// The integer that a little-endian byte string encodes.
pub open spec fn le_nat(s: Seq<u8>) -> nat
    decreases s.len(),
{
    if s.len() == 0 {
        0
    } else {
        s[0] as nat + 256 * le_nat(s.drop_first())
    }
}

/// `a` and `b` are the same residue modulo the group order.
pub open spec fn cong(a: int, b: int) -> bool {
    a % group_order() == b % group_order()
}

/// The residue of `x` in `[0, group_order())`.
pub open spec fn md(x: int) -> int {
    x % group_order()
}

/// The inner product of two integer vectors, taken over the shorter's length.
pub open spec fn dot(a: Seq<int>, b: Seq<int>) -> int
    decreases a.len(),
{
    if a.len() == 0 || b.len() == 0 {
        0
    } else {
        dot(a.drop_last(), b.drop_last()) + a.last() * b.last()
    }
}

/// The elementwise combination `x[i]·p + y[i]·q`, reduced, over the shorter length.
pub open spec fn lin(x: Seq<int>, y: Seq<int>, p: int, q: int) -> Seq<int> {
    Seq::new(
        if x.len() <= y.len() { x.len() } else { y.len() },
        |i: int| md(x[i] * p + y[i] * q),
    )
}

/// A vector of `n` zeros.
pub open spec fn zeros(n: nat) -> Seq<int> {
    Seq::new(n, |i: int| 0int)
}

/// The multiplicative inverse of `x` modulo the group order, and 0 for a multiple of it.
pub open spec fn inv(x: int) -> int {
    if x % group_order() == 0 {
        0
    } else {
        choose|y: int| #[trigger] is_inverse_of(x, y)
    }
}

/// `y` is a reduced residue whose product with `x` is 1 modulo the group order.
pub open spec fn is_inverse_of(x: int, y: int) -> bool {
    0 <= y < group_order() && (x * y) % group_order() == 1
}

/// Congruence is reflexive.
pub proof fn lemma_cong_refl(a: int)
    ensures
        cong(a, a),
{
}

/// `md(a)` is a reduced residue congruent to `a`.
pub proof fn lemma_md(a: int)
    ensures
        cong(md(a), a),
        0 <= md(a) < group_order(),
{
    lemma_mod_twice(a, group_order());
    lemma_mod_bound(a, group_order());
}

/// A reduced residue is its own residue.
pub proof fn lemma_md_small(a: int)
    requires
        0 <= a < group_order(),
    ensures
        md(a) == a,
{
    lemma_small_mod(a as nat, group_order() as nat);
}

/// Congruence is kept by sums.
pub proof fn lemma_cong_add(a: int, b: int, c: int, d: int)
    requires
        cong(a, b),
        cong(c, d),
    ensures
        cong(a + c, b + d),
{
    lemma_add_mod_noop(a, c, group_order());
    lemma_add_mod_noop(b, d, group_order());
}

/// Congruence is kept by products.
pub proof fn lemma_cong_mul(a: int, b: int, c: int, d: int)
    requires
        cong(a, b),
        cong(c, d),
    ensures
        cong(a * c, b * d),
{
    lemma_mul_mod_noop_general(a, c, group_order());
    lemma_mul_mod_noop_general(b, d, group_order());
}

/// Congruence is transitive.
pub proof fn lemma_cong_trans(a: int, b: int, c: int)
    requires
        cong(a, b),
        cong(b, c),
    ensures
        cong(a, c),
{
}

/// Congruence is symmetric.
pub proof fn lemma_cong_sym(a: int, b: int)
    requires
        cong(a, b),
    ensures
        cong(b, a),
{
}

/// Two reduced residues that are congruent are equal.
pub proof fn lemma_cong_reduced_eq(a: int, b: int)
    requires
        cong(a, b),
        0 <= a < group_order(),
        0 <= b < group_order(),
    ensures
        a == b,
{
    lemma_md_small(a);
    lemma_md_small(b);
}

/// The value `(x % ℓ)·(y % ℓ) % ℓ` computed by a reduced multiplication is `md(x·y)`.
pub proof fn lemma_md_mul(x: int, y: int)
    ensures
        md(md(x) * md(y)) == md(x * y),
        md(md(x) * y) == md(x * y),
        md(x * md(y)) == md(x * y),
{
    lemma_mul_mod_noop_general(x, y, group_order());
}

/// Reducing the operands of a sum does not change its residue.
pub proof fn lemma_md_add(x: int, y: int)
    ensures
        md(md(x) + md(y)) == md(x + y),
        md(md(x) + y) == md(x + y),
        md(x + md(y)) == md(x + y),
{
    lemma_add_mod_noop(x, y, group_order());
    lemma_add_mod_noop(x, y % group_order(), group_order());
    lemma_add_mod_noop(x % group_order(), y, group_order());
    lemma_mod_twice(x, group_order());
    lemma_mod_twice(y, group_order());
}

/// Reducing the operands of a difference does not change its residue.
pub proof fn lemma_md_sub(x: int, y: int)
    ensures
        md(md(x) - md(y)) == md(x - y),
        md(x - md(y)) == md(x - y),
{
    lemma_sub_mod_noop(x, y, group_order());
    vstd::arithmetic::div_mod::lemma_sub_mod_noop_right(x, y, group_order());
}

/// The inverse is the unique reduced residue whose product with `x` is 1.
pub proof fn lemma_inv_unique(x: int, r: int)
    requires
        0 <= r < group_order(),
        (x * r) % group_order() == 1,
    ensures
        inv(x) == r,
        cong(x * inv(x), 1),
{
    let l = group_order();
    if x % l == 0 {
        lemma_mul_mod_noop_general(x, r, l);
        assert((x % l) * r == 0) by (nonlinear_arith)
            requires
                x % l == 0,
        ;
        assert(false);
    } else {
        assert(is_inverse_of(x, r));
        let y = choose|y: int| #[trigger] is_inverse_of(x, y);
        assert(0 <= y < l && (x * y) % l == 1);
        // y ≡ y·(x·r) = r·(x·y) ≡ r
        lemma_mul_mod_noop_general(y, x * r, l);
        lemma_mul_mod_noop_general(r, x * y, l);
        assert(y * (x * r) == r * (x * y)) by (nonlinear_arith);
        assert(((y % l) * ((x * r) % l)) % l == (y * (x * r)) % l);
        assert(((r % l) * ((x * y) % l)) % l == (r * (x * y)) % l);
        lemma_small_mod(y as nat, l as nat);
        lemma_small_mod(r as nat, l as nat);
        assert(y * 1 == y);
        assert(r * 1 == r);
        assert(y == r);
    }
}

/// `x` has an inverse modulo the group order (as ℓ is prime: `x` is not a multiple of ℓ).
pub open spec fn invertible(x: int) -> bool {
    cong(x * inv(x), 1)
}

} // verus!
