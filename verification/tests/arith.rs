use a2f_ipsp::account::compute_ctx_gens_commitment;
use a2f_ipsp::point::{CompressedRistretto, RistrettoPoint};
use a2f_ipsp::scalar::{batch_invert, Scalar};
use a2f_ipsp::transcript::{append_point, challenge_scalar, inner_product_domain_separator};
use merlin::Transcript;
use sunscreen_curve25519::constants::{RISTRETTO_BASEPOINT_COMPRESSED, RISTRETTO_BASEPOINT_POINT};
use sunscreen_curve25519::scalar::Scalar as DalekScalar;

fn s(x: u64) -> Scalar {
    Scalar::from_u64(x)
}

/// ℓ - 1, little-endian.
const L_MINUS_1: [u8; 32] = [
    0xec, 0xd3, 0xf5, 0x5c, 0x1a, 0x63, 0x12, 0x58, 0xd6, 0x9c, 0xf7, 0xa2, 0xde, 0xf9, 0xde, 0x14,
    0, 0, 0, 0, 0, 0, 0, 0, 0, 0, 0, 0, 0, 0, 0, 0x10,
];

#[test]
fn scalar_constants() {
    assert_eq!(Scalar::zero().bytes, [0u8; 32]);
    let mut one = [0u8; 32];
    one[0] = 1;
    assert_eq!(Scalar::one().bytes, one);
    let mut b = [0u8; 32];
    b[0] = 0x39;
    b[1] = 0x30;
    assert_eq!(s(12345).bytes, b);
}

#[test]
fn scalar_arithmetic_is_modulo_the_group_order() {
    assert_eq!(s(2).plus(&s(3)).bytes, s(5).bytes);
    assert_eq!(s(6).times(&s(7)).bytes, s(42).bytes);
    assert_eq!(s(10).minus(&s(4)).bytes, s(6).bytes);
    // 0 - 1 wraps to ℓ - 1
    assert_eq!(s(0).minus(&s(1)).bytes, L_MINUS_1);
    // (ℓ - 1) + 1 = 0
    assert_eq!(Scalar { bytes: L_MINUS_1 }.plus(&s(1)).bytes, s(0).bytes);
    // (ℓ - 1)·(ℓ - 1) = 1
    assert_eq!(Scalar { bytes: L_MINUS_1 }.times(&Scalar { bytes: L_MINUS_1 }).bytes, s(1).bytes);
}

#[test]
fn scalar_inverse() {
    let x = s(1234567);
    let xi = x.invert();
    assert_eq!(x.times(&xi).bytes, s(1).bytes);
    assert_eq!(s(0).invert().bytes, s(0).bytes);
    let v = batch_invert(&[s(2), s(0), s(9)]);
    assert_eq!(v.len(), 3);
    assert_eq!(v[0].times(&s(2)).bytes, s(1).bytes);
    assert_eq!(v[1].bytes, s(0).bytes);
    assert_eq!(v[2].times(&s(9)).bytes, s(1).bytes);
}

#[test]
fn scalar_from_bits_clears_the_top_bit() {
    let mut b = [0u8; 32];
    b[0] = 3;
    b[31] = 0x80;
    let x = Scalar::from_bits(b);
    let mut expected = b;
    expected[31] = 0;
    assert_eq!(x.bytes, expected);
    let mut c = [0xffu8; 32];
    c[0] = 0x12;
    assert_eq!(Scalar::from_bits(c).bytes[31], 0x7f);
    assert_eq!(Scalar::from_bits(c).bytes[0], 0x12);
    // its value is 3: adding zero gives the reduced form
    assert_eq!(x.plus(&s(0)).bytes, s(3).bytes);
}

#[test]
fn wide_reduction() {
    let mut wide = [0u8; 64];
    wide[0] = 5;
    assert_eq!(Scalar::from_bytes_mod_order_wide(&wide).bytes, s(5).bytes);
    // ℓ itself reduces to 0
    let mut l = [0u8; 64];
    l[..32].copy_from_slice(&L_MINUS_1);
    l[0] += 1;
    assert_eq!(Scalar::from_bytes_mod_order_wide(&l).bytes, s(0).bytes);
    let expected = DalekScalar::from_bytes_mod_order_wide(&[0xab; 64]).to_bytes();
    assert_eq!(Scalar::from_bytes_mod_order_wide(&[0xab; 64]).bytes, expected);
}

#[test]
fn points_match_the_outside_crate() {
    let b = RistrettoPoint::basepoint();
    assert_eq!(b.compress().bytes, RISTRETTO_BASEPOINT_COMPRESSED.to_bytes());
    let three_b = b.times(&s(3));
    let expected = (RISTRETTO_BASEPOINT_POINT * DalekScalar::from(3u64)).compress().to_bytes();
    assert_eq!(three_b.compress().bytes, expected);
    assert_eq!(b.plus(&b).plus(&b).compress(), three_b.compress());
    assert!(b.plus(&b).plus(&b).equals(&three_b));
    assert!(!b.equals(&three_b));
    assert_eq!(RistrettoPoint::identity().compress().bytes, [0u8; 32]);
    assert!(b.times(&s(0)).equals(&RistrettoPoint::identity()));
}

#[test]
fn compression_round_trip() {
    let p = RistrettoPoint::basepoint().times(&s(99));
    let c = p.compress();
    let q = c.decompress().expect("a valid encoding");
    assert!(p.equals(&q));
    assert!(CompressedRistretto { bytes: [0xff; 32] }.decompress().is_none());
}

#[test]
fn pedersen_commitment_of_an_account_value() {
    let f = RistrettoPoint::basepoint().times(&s(5));
    let g = RistrettoPoint::basepoint().times(&s(7));
    let c = compute_ctx_gens_commitment(&f, &g, &s(1000), &s(3));
    // 1000·5 + 3·7 = 5021
    assert_eq!(c, RistrettoPoint::basepoint().times(&s(5021)).compress());
}

#[test]
fn transcript_challenges_are_deterministic() {
    let p = RistrettoPoint::basepoint().compress();
    let mut a = Transcript::new(b"t");
    let mut b = Transcript::new(b"t");
    inner_product_domain_separator(&mut a);
    inner_product_domain_separator(&mut b);
    append_point(&mut a, b"x", &p);
    append_point(&mut b, b"x", &p);
    let ca = challenge_scalar(&mut a, b"c");
    let cb = challenge_scalar(&mut b, b"c");
    assert_eq!(ca.bytes, cb.bytes);
    // a different message gives a different challenge
    let mut d = Transcript::new(b"t");
    inner_product_domain_separator(&mut d);
    append_point(&mut d, b"y", &p);
    assert_ne!(challenge_scalar(&mut d, b"c").bytes, ca.bytes);
    // drawing a challenge changes the transcript
    assert_ne!(challenge_scalar(&mut a, b"c").bytes, ca.bytes);
}

#[test]
fn random_scalars_have_bit_255_clear() {
    let mut seen_different = false;
    let first = Scalar::random();
    for _ in 0..64 {
        let x = Scalar::random();
        assert!(x.bytes[31] < 0x80);
        if x.bytes != first.bytes {
            seen_different = true;
        }
    }
    assert!(seen_different);
}
