//! Scalars modulo the Ristretto group order, held as their 32 little-endian bytes.
//!
//! The arithmetic itself is done by `sunscreen_curve25519::scalar::Scalar`; each
//! operation converts the bytes with `Scalar::from_bits`, which keeps the low 255 bits,
//! calls the outside operator, and takes the result's bytes back.
use crate::field::{
    group_order, inv, invertible, le_nat, lemma_inv_unique, lemma_md_small, md, two_pow_255,
};
use sunscreen_curve25519::scalar::Scalar as DalekScalar;
use vstd::arithmetic::div_mod::{lemma_mod_multiples_vanish, lemma_small_mod};
use vstd::arithmetic::power2::{lemma2_to64, lemma_pow2_adds, pow2};
use sunscreen_math::ScalarVec;
use vstd::prelude::*;

verus! {

/// A scalar, as the 32 little-endian bytes of a 255-bit integer.
///
/// Its value is that integer, without bit 255, modulo the group order: the value that
/// `sunscreen_curve25519::scalar::Scalar::from_bits` gives the same bytes.
#[derive(Clone, Copy, Debug)]
pub struct Scalar {
    pub bytes: [u8; 32],
}

impl Scalar {
    /// The residue modulo the group order that this scalar stands for.
    pub open spec fn val(&self) -> int {
        (le_nat(self.bytes@) as int % two_pow_255()) % group_order()
    }

    /// The bytes are the reduced representative of the value.
    pub open spec fn canonical(&self) -> bool {
        le_nat(self.bytes@) < group_order()
    }

    /// The scalar 0.
    pub fn zero() -> (r: Scalar)
        ensures
            r.val() == 0,
            r.canonical(),
    {
        let r = Scalar { bytes: [0u8; 32] };
        proof {
            lemma_le_nat_zeros(r.bytes@);
        }
        r
    }

    /// The scalar 1.
    pub fn one() -> (r: Scalar)
        ensures
            r.val() == 1,
            r.canonical(),
    {
        let mut bytes = [0u8; 32];
        bytes[0] = 1u8;
        let r = Scalar { bytes };
        proof {
            lemma_le_nat_zeros(r.bytes@.drop_first());
            assert(le_nat(r.bytes@) == 1);
        }
        r
    }

    /// The scalar made of the low 255 bits of `bytes`, as `Scalar::from_bits` makes it: the
    /// bytes with bit 255 cleared.
    pub fn from_bits(bytes: [u8; 32]) -> (r: Scalar)
        ensures
            r.bytes@ == bytes@.update(31, bytes@[31] & 0x7fu8),
            r.bytes@[31] < 128,
            r.val() == (le_nat(bytes@) as int % two_pow_255()) % group_order(),
            r.val() == le_nat(r.bytes@) as int % group_order(),
    {
        let mut b = bytes;
        let top = bytes[31] & 0x7fu8;
        b[31] = top;
        proof {
            assert(b@ =~= bytes@.update(31, top));
            lemma_clear_top_bit(bytes@, b@);
        }
        Scalar { bytes: b }
    }

    /// The scalar `x`.
    pub fn from_u64(x: u64) -> (r: Scalar)
        ensures
            r.val() == x as int,
            r.canonical(),
    {
        dalek_from_u64(x)
    }

    /// The scalar that a 512-bit little-endian integer is congruent to.
    pub fn from_bytes_mod_order_wide(input: &[u8; 64]) -> (r: Scalar)
        ensures
            r.val() == le_nat(input@) as int % group_order(),
            r.canonical(),
    {
        dalek_from_bytes_mod_order_wide(input)
    }

    /// `self + other` modulo the group order.
    pub fn plus(&self, other: &Scalar) -> (r: Scalar)
        ensures
            r.val() == md(self.val() + other.val()),
            r.canonical(),
    {
        dalek_add(self, other)
    }

    /// `self - other` modulo the group order.
    pub fn minus(&self, other: &Scalar) -> (r: Scalar)
        ensures
            r.val() == md(self.val() - other.val()),
            r.canonical(),
    {
        dalek_sub(self, other)
    }

    /// `self · other` modulo the group order.
    pub fn times(&self, other: &Scalar) -> (r: Scalar)
        ensures
            r.val() == md(self.val() * other.val()),
            r.canonical(),
    {
        dalek_mul(self, other)
    }

    /// The inverse of `self` modulo the group order, and 0 for the scalar 0.
    pub fn invert(&self) -> (r: Scalar)
        ensures
            r.val() == inv(self.val()),
            r.canonical(),
            self.val() != 0 ==> invertible(self.val()),
    {
        let r = dalek_invert(self);
        proof {
            lemma_scalar_val_range(*self);
            lemma_scalar_val_range(r);
            if self.val() != 0 {
                lemma_small_val(self.val());
                lemma_inv_unique(self.val(), r.val());
            } else {
                assert(self.val() % group_order() == 0);
            }
        }
        r
    }
}

impl Scalar {
    /// A scalar made of the low 255 bits of 32 random bytes: bit 255 is clear, and the
    /// value is the integer of the remaining bits modulo the group order.
    pub fn random() -> (r: Scalar)
        ensures
            r.bytes@[31] < 128,
            r.val() == le_nat(r.bytes@) as int % group_order(),
    {
        Scalar::from_bits(rand256())
    }
}

/// The last byte of a little-endian byte string is its most significant:
/// `le_nat(s) == le_nat(s without its last byte) + 2^(8(n-1))·s.last()`.
pub proof fn lemma_le_nat_last(s: Seq<u8>)
    requires
        s.len() >= 1,
    ensures
        le_nat(s) == le_nat(s.drop_last()) + pow2((8 * (s.len() - 1)) as nat) * s.last(),
    decreases s.len(),
{
    lemma2_to64();
    if s.len() == 1 {
        assert(le_nat(s.drop_first()) == 0);
        assert(le_nat(s.drop_last()) == 0);
        assert(s.last() == s[0]);
        assert(pow2(0) == 1);
        assert(le_nat(s) == s[0] as nat);
        assert(pow2((8 * (s.len() - 1)) as nat) == 1);
        assert(le_nat(s) == le_nat(s.drop_last()) + pow2((8 * (s.len() - 1)) as nat) * s.last());
    } else {
        let t = s.drop_first();
        lemma_le_nat_last(t);
        assert(s.drop_last().drop_first() =~= t.drop_last());
        assert(s.drop_last()[0] == s[0]);
        assert(t.last() == s.last());
        lemma_pow2_adds(8, (8 * (t.len() - 1)) as nat);
        assert((8 + 8 * (t.len() - 1)) as nat == (8 * (s.len() - 1)) as nat);
        let p = pow2((8 * (t.len() - 1)) as nat) as int;
        let l = s.last() as int;
        assert(256 * (le_nat(t.drop_last()) + p * l) == 256 * le_nat(t.drop_last()) + (256 * p) * l)
            by (nonlinear_arith);
        assert(pow2(8) == 256);
        assert(256 * p == pow2((8 * (s.len() - 1)) as nat));
        assert(le_nat(s) == s[0] + 256 * le_nat(t));
        assert(le_nat(s.drop_last()) == s[0] + 256 * le_nat(t.drop_last()));
        assert(le_nat(t) == le_nat(t.drop_last()) + p * l);
        assert(le_nat(s) == le_nat(s.drop_last()) + (256 * p) * l);
    }
}

/// `2^255`, as a power of two.
proof fn lemma_two_pow_255()
    ensures
        pow2(255) == two_pow_255(),
        pow2(248) * 128 == two_pow_255(),
{
    lemma2_to64();
    vstd::arithmetic::power2::lemma2_to64_rest();
    lemma_pow2_adds(64, 64);
    assert(pow2(128) == 340282366920938463463374607431768211456nat);
    lemma_pow2_adds(128, 64);
    assert(pow2(192) == 6277101735386680763835789423207666416102355444464034512896nat);
    lemma_pow2_adds(192, 63);
    lemma_pow2_adds(192, 56);
    assert(pow2(248) == 452312848583266388373324160190187140051835877600158453279131187530910662656nat);
    lemma_pow2_adds(248, 7);
}

/// Clearing bit 255 of 32 bytes keeps their integer modulo `2^255`, and leaves an integer
/// below `2^255`.
proof fn lemma_clear_top_bit(s: Seq<u8>, t: Seq<u8>)
    requires
        s.len() == 32,
        t == s.update(31, s[31] & 0x7fu8),
    ensures
        le_nat(t) as int % two_pow_255() == le_nat(s) as int % two_pow_255(),
        le_nat(t) < two_pow_255(),
        t[31] < 128,
        (le_nat(s) as int % two_pow_255()) % group_order() == le_nat(t) as int % group_order(),
{
    let x = s[31];
    let y: u8 = x & 0x7fu8;
    assert(y < 128 && (y == x || y + 128 == x)) by (bit_vector)
        requires
            y == x & 0x7fu8,
    ;
    lemma_le_nat_last(s);
    lemma_le_nat_last(t);
    assert(s.drop_last() =~= t.drop_last());
    lemma_two_pow_255();
    let a = le_nat(t.drop_last()) as int;
    let p = pow2(248) as int;
    assert(le_nat(t) == a + p * y);
    assert(le_nat(s) == a + p * x);
    // the lower 31 bytes are below 2^248
    lemma_le_nat_bound(t.drop_last());
    assert(a + p * y < two_pow_255()) by (nonlinear_arith)
        requires
            0 <= a < p,
            0 <= y < 128,
            p * 128 == two_pow_255(),
    ;
    if y as int + 128 == x as int {
        assert(p * x == p * y + two_pow_255()) by (nonlinear_arith)
            requires
                x == y + 128,
                p * 128 == two_pow_255(),
        ;
        lemma_mod_multiples_vanish(1, a + p * y, two_pow_255());
    }
    lemma_small_mod(le_nat(t), two_pow_255() as nat);
}

/// A byte string of length `n` encodes an integer below `2^(8n)`.
pub proof fn lemma_le_nat_bound(s: Seq<u8>)
    ensures
        le_nat(s) < pow2((8 * s.len()) as nat),
    decreases s.len(),
{
    lemma2_to64();
    if s.len() > 0 {
        lemma_le_nat_bound(s.drop_first());
        lemma_pow2_adds(8, (8 * (s.len() - 1)) as nat);
        assert((8 + 8 * (s.len() - 1)) as nat == (8 * s.len()) as nat);
        let p = pow2((8 * (s.len() - 1)) as nat) as int;
        let r = le_nat(s.drop_first()) as int;
        let b = s[0] as int;
        assert(b + 256 * r < 256 * p) by (nonlinear_arith)
            requires
                0 <= b < 256,
                0 <= r < p,
        ;
    }
}

/// The value of a scalar is a reduced residue.
pub proof fn lemma_scalar_val_range(s: Scalar)
    ensures
        0 <= s.val() < group_order(),
        s.canonical() ==> s.val() == le_nat(s.bytes@),
{
    vstd::arithmetic::div_mod::lemma_mod_bound(
        le_nat(s.bytes@) as int % two_pow_255(),
        group_order(),
    );
    if s.canonical() {
        vstd::arithmetic::div_mod::lemma_small_mod(le_nat(s.bytes@), two_pow_255() as nat);
        lemma_md_small(le_nat(s.bytes@) as int);
    }
}

proof fn lemma_small_val(x: int)
    requires
        0 <= x < group_order(),
    ensures
        x % group_order() == x,
{
    lemma_md_small(x);
}

/// A byte string of zeros encodes 0.
pub proof fn lemma_le_nat_zeros(s: Seq<u8>)
    requires
        forall|i: int| 0 <= i < s.len() ==> s[i] == 0,
    ensures
        le_nat(s) == 0,
    decreases s.len(),
{
    if s.len() > 0 {
        lemma_le_nat_zeros(s.drop_first());
    }
}

/// The values of a vector of scalars.
pub open spec fn vals(s: Seq<Scalar>) -> Seq<int> {
    Seq::new(s.len(), |i: int| s[i].val())
}

/// `ScalarVec::invert` of sunscreen_math (CPU backend): each scalar replaced by its
/// `Scalar::invert`, the inverse modulo ℓ of a nonzero scalar and 0 for the scalar 0.
#[verifier::external_body]
pub(crate) fn math_batch_invert(s: &[Scalar]) -> (r: Vec<Scalar>)
    ensures
        r@.len() == s@.len(),
        forall|i: int|
            0 <= i < r@.len() ==> (#[trigger] r@[i]).canonical() && (s@[i].val() != 0 ==> (
            s@[i].val() * r@[i].val()) % group_order() == 1) && (s@[i].val() == 0 ==> r@[i].val()
                == 0),
{
    let xs: Vec<DalekScalar> = s.iter().map(|x| DalekScalar::from_bits(x.bytes)).collect();
    ScalarVec::new(&xs).invert().into_iter().map(|x| Scalar { bytes: x.to_bytes() }).collect()
}

/// The inverses of a vector of scalars, modulo the group order (0 for 0).
pub fn batch_invert(s: &[Scalar]) -> (r: Vec<Scalar>)
    ensures
        r@.len() == s@.len(),
        forall|i: int| 0 <= i < r@.len() ==> (#[trigger] r@[i]).val() == inv(s@[i].val()),
{
    let r = math_batch_invert(s);
    proof {
        assert forall|i: int| 0 <= i < r@.len() implies (#[trigger] r@[i]).val() == inv(
            s@[i].val(),
        ) by {
            lemma_scalar_val_range(s@[i]);
            lemma_scalar_val_range(r@[i]);
            if s@[i].val() != 0 {
                lemma_inv_unique(s@[i].val(), r@[i].val());
            } else {
                assert(s@[i].val() % group_order() == 0);
            }
        }
    }
    r
}

/// `rand::random::<[u8; 32]>()` of rand: 32 bytes from the thread-local random generator;
/// nothing is stated about them.
#[verifier::external_body]
fn rand256() -> [u8; 32] {
    rand::random::<[u8; 32]>()
}

/// `Scalar::random(&mut rand::thread_rng())` of sunscreen_curve25519: 64 random bytes
/// reduced modulo ℓ; of the outcome only that it is reduced is stated.
#[verifier::external_body]
pub(crate) fn dalek_random() -> (r: Scalar)
    ensures
        r.canonical(),
{
    Scalar { bytes: DalekScalar::random(&mut rand::thread_rng()).to_bytes() }
}

/// `Scalar::from(u64)` of sunscreen_curve25519: the scalar whose value is `x`.
#[verifier::external_body]
fn dalek_from_u64(x: u64) -> (r: Scalar)
    ensures
        r.val() == x as int,
        r.canonical(),
{
    Scalar { bytes: DalekScalar::from(x).to_bytes() }
}

/// `Scalar::from_bytes_mod_order_wide` of sunscreen_curve25519: the reduced residue of the
/// 512-bit little-endian integer `input`.
#[verifier::external_body]
fn dalek_from_bytes_mod_order_wide(input: &[u8; 64]) -> (r: Scalar)
    ensures
        r.val() == le_nat(input@) as int % group_order(),
        r.canonical(),
{
    Scalar { bytes: DalekScalar::from_bytes_mod_order_wide(input).to_bytes() }
}

/// `&Scalar + &Scalar` of sunscreen_curve25519: the sum, reduced modulo ℓ (its source
/// reduces explicitly, also for operands made by `from_bits` that are not reduced).
#[verifier::external_body]
fn dalek_add(a: &Scalar, b: &Scalar) -> (r: Scalar)
    ensures
        r.val() == md(a.val() + b.val()),
        r.canonical(),
{
    Scalar { bytes: (&DalekScalar::from_bits(a.bytes) + &DalekScalar::from_bits(b.bytes)).to_bytes() }
}

/// `&Scalar - &Scalar` of sunscreen_curve25519: the difference, reduced modulo ℓ (its
/// source reduces both operands first).
#[verifier::external_body]
fn dalek_sub(a: &Scalar, b: &Scalar) -> (r: Scalar)
    ensures
        r.val() == md(a.val() - b.val()),
        r.canonical(),
{
    Scalar { bytes: (&DalekScalar::from_bits(a.bytes) - &DalekScalar::from_bits(b.bytes)).to_bytes() }
}

/// `&Scalar * &Scalar` of sunscreen_curve25519: the product, reduced modulo ℓ (Montgomery
/// multiplication, which also reduces operands below 2^255).
#[verifier::external_body]
fn dalek_mul(a: &Scalar, b: &Scalar) -> (r: Scalar)
    ensures
        r.val() == md(a.val() * b.val()),
        r.canonical(),
{
    Scalar { bytes: (&DalekScalar::from_bits(a.bytes) * &DalekScalar::from_bits(b.bytes)).to_bytes() }
}

/// `Scalar::invert` of sunscreen_curve25519: for a nonzero scalar, its inverse modulo ℓ;
/// the source computes `x^(ℓ-2)`, which is 0 for the scalar 0.
#[verifier::external_body]
fn dalek_invert(a: &Scalar) -> (r: Scalar)
    ensures
        r.canonical(),
        a.val() != 0 ==> (a.val() * r.val()) % group_order() == 1,
        a.val() == 0 ==> r.val() == 0,
{
    Scalar { bytes: DalekScalar::from_bits(a.bytes).invert().to_bytes() }
}

} // verus!
