use a2f_ipsp::account::{compute_ctx_gens_commitment, PedersenAccount};
use a2f_ipsp::point::{CompressedRistretto, RistrettoPoint};
use a2f_ipsp::scalar::Scalar;
use sunscreen_bulletproofs::PedersenGens;

/// The scalar's bytes are the reduced representative of its value.
fn is_reduced(x: &Scalar) -> bool {
    Scalar::zero().plus(x).bytes == x.bytes
}

#[test]
fn new_account_commits_to_its_value_with_the_default_generators() {
    let (acct, commitment) = PedersenAccount::new(1000);
    let gens = PedersenGens::default();
    assert_eq!(acct.value, 1000);
    assert_eq!(acct.f.compress().bytes, gens.B.compress().to_bytes());
    assert_eq!(acct.u.compress().bytes, gens.B_blinding.compress().to_bytes());
    assert!(acct.f.equals(&RistrettoPoint::basepoint()));
    assert!(is_reduced(&acct.blinding));
    let expected =
        compute_ctx_gens_commitment(&acct.f, &acct.u, &Scalar::from_u64(1000), &acct.blinding);
    assert_eq!(commitment, expected);
    // 1000·B + r·B_blinding, computed by the outside crate's own commitment
    let r = sunscreen_curve25519::scalar::Scalar::from_bits(acct.blinding.bytes);
    let outside = gens.commit(sunscreen_curve25519::scalar::Scalar::from(1000u64), r);
    assert_eq!(commitment, CompressedRistretto { bytes: outside.compress().to_bytes() });
}

#[test]
fn blindings_are_fresh() {
    let (a, _) = PedersenAccount::new(5);
    let (b, _) = PedersenAccount::new(5);
    assert_ne!(a.blinding.bytes, b.blinding.bytes);
}

#[test]
fn messages_are_committed_in_order() {
    let (acct, _) = PedersenAccount::new(500);
    let messages = vec![42u64, 0, 7];
    let (commitments, blindings) = acct.commit_messages(&messages);
    assert_eq!(commitments.len(), 3);
    assert_eq!(blindings.len(), 3);
    for i in 0..3 {
        assert!(is_reduced(&blindings[i]));
        let expected = compute_ctx_gens_commitment(
            &acct.f,
            &acct.u,
            &Scalar::from_u64(messages[i]),
            &blindings[i],
        );
        assert_eq!(commitments[i], expected);
    }
    let (none, no_blindings) = acct.commit_messages(&[]);
    assert!(none.is_empty() && no_blindings.is_empty());
}
