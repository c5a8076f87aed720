//! Elements of the Ristretto group and their 32-byte encodings.
//!
//! The group has prime order ℓ and is generated by the Ristretto basepoint B, so each
//! element is `k·B` for exactly one residue `k`. A `RistrettoPoint` carries, besides the
//! outside `sunscreen_curve25519::ristretto::RistrettoPoint`, that residue as ghost state:
//! the specifications of the group operations are statements about these residues.
use crate::field::{dot, group_order, md};
use crate::scalar::{vals, Scalar};
use sunscreen_curve25519::constants::RISTRETTO_BASEPOINT_POINT;
use sunscreen_curve25519::ristretto::CompressedRistretto as DalekCompressed;
use sunscreen_curve25519::ristretto::RistrettoPoint as DalekPoint;
use sunscreen_curve25519::scalar::Scalar as DalekScalar;
use sunscreen_bulletproofs::PedersenGens;
use sunscreen_curve25519::traits::MultiscalarMul;
use sunscreen_math::RistrettoPointVec;
use vstd::prelude::*;

verus! {

#[verifier::external_type_specification]
#[verifier::external_body]
pub struct ExDalekPoint(DalekPoint);

/// The canonical 32-byte Ristretto encoding of the group element `k·B`: what
/// `RistrettoPoint::compress` returns for it.
pub uninterp spec fn ristretto_encoding(k: int) -> Seq<u8>;

/// `bytes` is the encoding of some group element.
pub open spec fn encodes_point(bytes: Seq<u8>) -> bool {
    exists|k: int| 0 <= k < group_order() && #[trigger] ristretto_encoding(k) == bytes
}

/// `bytes` is the encoding of at most one group element.
pub open spec fn encodes_at_most_one(bytes: Seq<u8>) -> bool {
    forall|a: int, b: int|
        0 <= a < group_order() && 0 <= b < group_order() && #[trigger] ristretto_encoding(a)
            == bytes && #[trigger] ristretto_encoding(b) == bytes ==> a == b
}

/// An element of the Ristretto group.
#[derive(Clone, Copy)]
pub struct RistrettoPoint {
    inner: DalekPoint,
    dlog: Ghost<int>,
}

/// The 32 bytes of a compressed Ristretto point; not every byte string encodes one.
#[derive(Clone, Copy, Debug, PartialEq, Eq)]
pub struct CompressedRistretto {
    pub bytes: [u8; 32],
}

impl RistrettoPoint {
    /// The residue `k` with `self == k·B`.
    pub closed spec fn log(&self) -> int {
        md(self.dlog@)
    }

    /// The identity element.
    pub fn identity() -> (r: RistrettoPoint)
        ensures
            r.log() == 0,
    {
        dalek_identity()
    }

    /// The basepoint B.
    pub fn basepoint() -> (r: RistrettoPoint)
        ensures
            r.log() == 1,
    {
        dalek_basepoint()
    }

    /// The group sum `self + other`.
    pub fn plus(&self, other: &RistrettoPoint) -> (r: RistrettoPoint)
        ensures
            r.log() == md(self.log() + other.log()),
    {
        dalek_add(self, other)
    }

    /// The scalar multiple `s·self`.
    pub fn times(&self, s: &Scalar) -> (r: RistrettoPoint)
        ensures
            r.log() == md(self.log() * s.val()),
    {
        dalek_mul(self, s)
    }

    /// The canonical encoding of `self`, which no other group element shares.
    pub fn compress(&self) -> (r: CompressedRistretto)
        ensures
            r.bytes@ == ristretto_encoding(self.log()),
            encodes_at_most_one(r.bytes@),
    {
        let r = dalek_compress(self);
        proof {
            lemma_log_range(*self);
        }
        r
    }

    /// Whether `self` and `other` are the same group element.
    pub fn equals(&self, other: &RistrettoPoint) -> (r: bool)
        ensures
            r == (self.log() == other.log()),
    {
        dalek_eq(self, other)
    }
}

impl CompressedRistretto {
    /// The group element that these bytes encode, if they encode one.
    pub fn decompress(&self) -> (r: Option<RistrettoPoint>)
        ensures
            r is Some <==> encodes_point(self.bytes@),
            r matches Some(p) ==> ristretto_encoding(p.log()) == self.bytes@,
            r matches Some(p) ==> forall|k: int|
                0 <= k < group_order() && #[trigger] ristretto_encoding(k) == self.bytes@
                    ==> p.log() == k,
    {
        dalek_decompress(self)
    }
}

/// The residue of a point is reduced.
pub broadcast proof fn lemma_log_range(p: RistrettoPoint)
    ensures
        0 <= #[trigger] p.log() < group_order(),
{
    vstd::arithmetic::div_mod::lemma_mod_bound(p.dlog@, group_order());
}

/// The residues of a vector of points.
pub open spec fn logs(s: Seq<RistrettoPoint>) -> Seq<int> {
    Seq::new(s.len(), |i: int| s[i].log())
}

/// `RistrettoPoint::identity` (as `Default`) of sunscreen_curve25519: the identity element.
#[verifier::external_body]
fn dalek_identity() -> (r: RistrettoPoint)
    ensures
        r.log() == 0,
{
    RistrettoPoint { inner: DalekPoint::default(), dlog: Ghost(0int) }
}

/// `RISTRETTO_BASEPOINT_POINT` of sunscreen_curve25519: the generator B.
#[verifier::external_body]
fn dalek_basepoint() -> (r: RistrettoPoint)
    ensures
        r.log() == 1,
{
    RistrettoPoint { inner: RISTRETTO_BASEPOINT_POINT, dlog: Ghost(1int) }
}

/// `&RistrettoPoint + &RistrettoPoint` of sunscreen_curve25519: the group operation.
#[verifier::external_body]
fn dalek_add(a: &RistrettoPoint, b: &RistrettoPoint) -> (r: RistrettoPoint)
    ensures
        r.log() == md(a.log() + b.log()),
{
    RistrettoPoint { inner: &a.inner + &b.inner, dlog: Ghost(a.dlog@ + b.dlog@) }
}

/// `&RistrettoPoint * &Scalar` of sunscreen_curve25519: scalar multiplication.
#[verifier::external_body]
fn dalek_mul(p: &RistrettoPoint, s: &Scalar) -> (r: RistrettoPoint)
    ensures
        r.log() == md(p.log() * s.val()),
{
    RistrettoPoint { inner: &p.inner * &DalekScalar::from_bits(s.bytes), dlog: Ghost(p.dlog@ * s.val()) }
}

/// `RistrettoPoint::compress` of sunscreen_curve25519: the canonical encoding, which
/// `CompressedRistretto::decompress` maps back to the same point, so that no other group
/// element has it.
#[verifier::external_body]
fn dalek_compress(p: &RistrettoPoint) -> (r: CompressedRistretto)
    ensures
        r.bytes@ == ristretto_encoding(p.log()),
        forall|k: int|
            0 <= k < group_order() && #[trigger] ristretto_encoding(k) == r.bytes@ ==> k == p.log(),
{
    CompressedRistretto { bytes: p.inner.compress().to_bytes() }
}

/// `CompressedRistretto::decompress` of sunscreen_curve25519: it succeeds exactly on the
/// canonical encodings of group elements, and gives back the element encoded (the encoding
/// is canonical: distinct elements have distinct encodings).
#[verifier::external_body]
fn dalek_decompress(c: &CompressedRistretto) -> (r: Option<RistrettoPoint>)
    ensures
        r is Some <==> encodes_point(c.bytes@),
        r matches Some(p) ==> ristretto_encoding(p.log()) == c.bytes@,
        r matches Some(p) ==> forall|k: int|
            0 <= k < group_order() && #[trigger] ristretto_encoding(k) == c.bytes@ ==> p.log()
                == k,
{
    match DalekCompressed(c.bytes).decompress() {
        Some(p) => Some(RistrettoPoint { inner: p, dlog: Ghost(arbitrary()) }),
        None => None,
    }
}

/// `RistrettoPoint == RistrettoPoint` of sunscreen_curve25519: equality of group elements.
#[verifier::external_body]
fn dalek_eq(a: &RistrettoPoint, b: &RistrettoPoint) -> (r: bool)
    ensures
        r == (a.log() == b.log()),
{
    a.inner == b.inner
}

/// `PedersenGens::default` of sunscreen_bulletproofs: the pair `(B, B_blinding)`, where `B`
/// is the Ristretto basepoint and `B_blinding` the SHA3-512 hash-to-group of the basepoint's
/// encoding. Nothing is stated of `B_blinding`: its discrete logarithm is unknown by design.
#[verifier::external_body]
pub(crate) fn bulletproofs_pedersen_gens() -> (r: (RistrettoPoint, RistrettoPoint))
    ensures
        r.0.log() == 1,
{
    let gens = PedersenGens::default();
    (
        RistrettoPoint { inner: gens.B, dlog: Ghost(1int) },
        RistrettoPoint { inner: gens.B_blinding, dlog: Ghost(arbitrary()) },
    )
}

/// `RistrettoPoint::multiscalar_mul` of sunscreen_curve25519: `Σ scalars[i]·points[i]`;
/// the source asserts that both have the same length.
#[verifier::external_body]
pub(crate) fn dalek_multiscalar_mul(scalars: &[Scalar], points: &[RistrettoPoint]) -> (r:
    RistrettoPoint)
    requires
        scalars@.len() == points@.len(),
    ensures
        r.log() == md(dot(vals(scalars@), logs(points@))),
{
    let ss: Vec<DalekScalar> = scalars.iter().map(|s| DalekScalar::from_bits(s.bytes)).collect();
    let ps: Vec<DalekPoint> = points.iter().map(|p| p.inner).collect();
    RistrettoPoint { inner: DalekPoint::multiscalar_mul(ss, ps), dlog: Ghost(arbitrary()) }
}

/// `&RistrettoPointVec * Scalar` of sunscreen_math: every point multiplied by `s`.
#[verifier::external_body]
pub(crate) fn math_vec_scale(points: &[RistrettoPoint], s: &Scalar) -> (r: Vec<RistrettoPoint>)
    ensures
        r@.len() == points@.len(),
        forall|i: int| 0 <= i < r@.len() ==> #[trigger] r@[i].log() == md(points@[i].log() * s.val()),
{
    let ps: Vec<DalekPoint> = points.iter().map(|p| p.inner).collect();
    let scaled = RistrettoPointVec::new(&ps) * DalekScalar::from_bits(s.bytes);
    scaled.into_iter().map(|q| RistrettoPoint { inner: q, dlog: Ghost(arbitrary()) }).collect()
}

/// `RistrettoPointVec + RistrettoPointVec` of sunscreen_math: the elementwise sums, over the
/// shorter of the two lengths (the source zips the two vectors).
#[verifier::external_body]
pub(crate) fn math_vec_add(a: &[RistrettoPoint], b: &[RistrettoPoint]) -> (r: Vec<RistrettoPoint>)
    ensures
        r@.len() == if a@.len() <= b@.len() { a@.len() } else { b@.len() },
        forall|i: int| 0 <= i < r@.len() ==> #[trigger] r@[i].log() == md(a@[i].log() + b@[i].log()),
{
    let xs: Vec<DalekPoint> = a.iter().map(|p| p.inner).collect();
    let ys: Vec<DalekPoint> = b.iter().map(|p| p.inner).collect();
    let sum = RistrettoPointVec::new(&xs) + RistrettoPointVec::new(&ys);
    sum.into_iter().map(|q| RistrettoPoint { inner: q, dlog: Ghost(arbitrary()) }).collect()
}

} // verus!
