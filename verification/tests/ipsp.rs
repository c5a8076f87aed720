use a2f_ipsp::ipsp::{
    inner_product, mad_mad_scalar_point, mad_mad_scalar_scalar, mad_scalar_point,
    next_power_of_two, IPSPInnerProductProof, IPSPProverKnowledge, IPSPVerifierKnowledge,
};
use a2f_ipsp::model::ProofError;
use a2f_ipsp::point::{CompressedRistretto, RistrettoPoint};
use a2f_ipsp::scalar::Scalar;
use merlin::Transcript;

fn s(x: u64) -> Scalar {
    Scalar::from_u64(x)
}

fn point(k: u64) -> RistrettoPoint {
    RistrettoPoint::basepoint().times(&s(k))
}

fn generators(n: usize, offset: u64) -> Vec<RistrettoPoint> {
    (0..n).map(|i| point(offset + 7 * i as u64 + 3)).collect()
}

struct Setup {
    pk: IPSPProverKnowledge,
    vk: IPSPVerifierKnowledge,
    f: RistrettoPoint,
    u: RistrettoPoint,
    h: Vec<RistrettoPoint>,
}

fn setup(n: usize) -> Setup {
    let v_1: Vec<Scalar> = (0..n).map(|i| s(11 + 5 * i as u64)).collect();
    let z: Vec<Scalar> = (0..n).map(|i| s(2 + 3 * i as u64)).collect();
    let rho = s(987654321);
    let f = point(1001);
    let u = point(2002);
    let h = generators(n, 5000);
    let t = IPSPProverKnowledge::make_commitment(&v_1, &z, &rho, &f, &h, &u);
    let pk = IPSPProverKnowledge::new(&v_1, &z, &rho, &t);
    let vk = IPSPVerifierKnowledge { t, z };
    Setup { pk, vk, f, u, h }
}

fn prove(st: &Setup) -> IPSPInnerProductProof {
    let mut transcript = Transcript::new(b"ipsp-test");
    IPSPInnerProductProof::create(&mut transcript, &st.pk, &st.f, &st.h, &st.u)
}

fn check(st: &Setup, proof: &IPSPInnerProductProof) -> Result<(), ProofError> {
    let mut transcript = Transcript::new(b"ipsp-test");
    proof.verify(&mut transcript, &st.vk, &st.f, &st.h, &st.u)
}

#[test]
fn honest_proofs_verify_for_many_lengths() {
    for n in [1usize, 2, 3, 4, 5, 7, 8] {
        let st = setup(n);
        let proof = prove(&st);
        assert_eq!(proof.t_1.len(), proof.t_minus1.len());
        assert_eq!(1usize << proof.t_1.len(), next_power_of_two(n));
        assert_eq!(check(&st, &proof), Ok(()), "length {}", n);
    }
}

#[test]
fn honest_proof_with_given_randomness_verifies() {
    let st = setup(4);
    let sigmas = vec![(s(3), s(4)), (s(5), s(6))];
    let mut transcript = Transcript::new(b"ipsp-test");
    let proof = IPSPInnerProductProof::create_with_randomness(
        &mut transcript,
        &st.pk,
        &st.f,
        &st.h,
        &st.u,
        &sigmas,
        &s(77),
        &s(88),
    );
    assert_eq!(check(&st, &proof), Ok(()));
    // the same randomness on the same transcript gives the same proof
    let mut transcript2 = Transcript::new(b"ipsp-test");
    let proof2 = IPSPInnerProductProof::create_with_randomness(
        &mut transcript2,
        &st.pk,
        &st.f,
        &st.h,
        &st.u,
        &sigmas,
        &s(77),
        &s(88),
    );
    assert_eq!(proof.w, proof2.w);
    assert_eq!(proof.e_1.bytes, proof2.e_1.bytes);
    assert_eq!(proof.t_1, proof2.t_1);
}

#[test]
fn tampered_response_fails_the_final_check() {
    let st = setup(4);
    let mut proof = prove(&st);
    proof.e_1 = proof.e_1.plus(&s(1));
    assert_eq!(check(&st, &proof), Err(ProofError::VerificationError));
    let mut proof = prove(&st);
    proof.e_2 = proof.e_2.plus(&s(1));
    assert_eq!(check(&st, &proof), Err(ProofError::VerificationError));
}

#[test]
fn wrong_public_vector_fails_the_final_check() {
    let st = setup(3);
    let proof = prove(&st);
    let mut vk = st.vk.clone();
    vk.z[1] = vk.z[1].plus(&s(1));
    let mut transcript = Transcript::new(b"ipsp-test");
    assert_eq!(
        proof.verify(&mut transcript, &vk, &st.f, &st.h, &st.u),
        Err(ProofError::VerificationError)
    );
}

#[test]
fn different_transcript_fails_the_final_check() {
    let st = setup(4);
    let proof = prove(&st);
    let mut transcript = Transcript::new(b"another label");
    assert_eq!(
        proof.verify(&mut transcript, &st.vk, &st.f, &st.h, &st.u),
        Err(ProofError::VerificationError)
    );
}

#[test]
fn wrong_number_of_rounds_is_malformed() {
    let st = setup(4);
    let mut proof = prove(&st);
    proof.t_1.pop();
    assert_eq!(check(&st, &proof), Err(ProofError::MalformedProof));
    let mut proof = prove(&st);
    proof.t_1.pop();
    proof.t_minus1.pop();
    assert_eq!(check(&st, &proof), Err(ProofError::MalformedProof));
}

#[test]
fn undecodable_points_are_malformed() {
    let st = setup(4);
    let bad = CompressedRistretto { bytes: [0xff; 32] };
    assert!(bad.decompress().is_none());
    let mut proof = prove(&st);
    proof.w = bad;
    assert_eq!(check(&st, &proof), Err(ProofError::MalformedProof));
    let mut proof = prove(&st);
    proof.t_minus1[1] = bad;
    assert_eq!(check(&st, &proof), Err(ProofError::MalformedProof));
    let mut proof = prove(&st);
    proof.t_1[0] = bad;
    assert_eq!(check(&st, &proof), Err(ProofError::MalformedProof));
}

#[test]
fn folding_verifier_agrees_with_the_prover() {
    // a power-of-two length, so nothing is padded
    let st = setup(4);
    let sigmas = vec![(s(9), s(10)), (s(11), s(12))];
    let mut pt = Transcript::new(b"fold");
    let mut t_1 = Vec::new();
    let mut t_minus1 = Vec::new();
    let (h0, t_pp, _v0, z0, _rho) = IPSPInnerProductProof::folding_prover_with_randomness(
        &mut pt,
        &st.pk,
        &mut t_1,
        &mut t_minus1,
        &st.f,
        &st.h,
        &st.u,
        &sigmas,
    );
    let proof = IPSPInnerProductProof {
        t_1,
        t_minus1,
        w: RistrettoPoint::identity().compress(),
        e_1: s(0),
        e_2: s(0),
    };
    let mut vt = Transcript::new(b"fold");
    let (z, h, t) = proof
        .folding_verifier(&mut vt, &st.vk, &st.f, &st.h, &st.vk.z)
        .expect("well formed");
    assert_eq!(z.bytes, z0.bytes);
    assert_eq!(h.compress(), h0.compress());
    assert_eq!(t.compress(), t_pp.compress());
}

#[test]
fn folding_verifier_for_commits_rejects_bad_shapes() {
    let st = setup(4);
    let proof = prove(&st);
    let g = generators(4, 100);
    let mut tr = Transcript::new(b"commits");
    assert!(proof
        .folding_verifier_for_commits(&mut tr, &st.vk, &st.f, &g, &st.h)
        .is_ok());
    let mut tr = Transcript::new(b"commits");
    let g3 = generators(3, 100);
    let h3 = generators(3, 200);
    assert_eq!(
        proof
            .folding_verifier_for_commits(&mut tr, &st.vk, &st.f, &g3, &h3)
            .err(),
        Some(ProofError::MalformedProof)
    );
}

#[test]
fn folding_verifier_for_commits_single_round_values() {
    // one round: g' = g_0 + c·g_1, h' = h_0 + c⁻¹·h_1, t' = t_{-1}·c⁻¹ + t + t_1·c
    let st = setup(2);
    let proof = prove(&st);
    let g = generators(2, 300);
    let h = generators(2, 400);
    let mut tr = Transcript::new(b"one");
    let (gg, hh, tt) = proof
        .folding_verifier_for_commits(&mut tr, &st.vk, &st.f, &g, &h)
        .expect("well formed");
    let mut tr2 = Transcript::new(b"one");
    a2f_ipsp::transcript::append_point(&mut tr2, &a2f_ipsp::model::T_MINUS1_LABEL, &proof.t_minus1[0]);
    a2f_ipsp::transcript::append_point(&mut tr2, &a2f_ipsp::model::T1_LABEL, &proof.t_1[0]);
    let c = a2f_ipsp::transcript::challenge_scalar(&mut tr2, &a2f_ipsp::model::C_LABEL);
    let ci = c.invert();
    assert_eq!(gg.compress(), g[0].plus(&g[1].times(&c)).compress());
    assert_eq!(hh.compress(), h[0].plus(&h[1].times(&ci)).compress());
    let tm1 = proof.t_minus1[0].decompress().unwrap();
    let t1 = proof.t_1[0].decompress().unwrap();
    let expected_t = tm1.times(&ci).plus(&st.vk.t).plus(&t1.times(&c));
    assert_eq!(tt.compress(), expected_t.compress());
}

#[test]
fn make_commitment_is_the_pedersen_vector_commitment() {
    let v_1 = vec![s(2), s(3)];
    let z = vec![s(5), s(7)];
    let rho = s(11);
    let f = point(13);
    let u = point(17);
    let h = vec![point(19), point(23)];
    let t = IPSPProverKnowledge::make_commitment(&v_1, &z, &rho, &f, &h, &u);
    // 2·19 + 3·23 + (2·5 + 3·7)·13 + 11·17 = 38 + 69 + 403 + 187 = 697
    assert_eq!(t.compress(), point(697).compress());
}

#[test]
fn inner_product_values() {
    let a = vec![s(1), s(2), s(3)];
    let b = vec![s(4), s(5), s(6)];
    assert_eq!(inner_product(&a, &b).bytes, s(32).bytes);
    assert_eq!(inner_product(&[], &[]).bytes, s(0).bytes);
}

#[test]
fn mad_mad_scalar_scalar_values() {
    let a = vec![s(1), s(2)];
    let b = vec![s(3), s(4)];
    let r = mad_mad_scalar_scalar(&a, &b, s(10), s(100));
    assert_eq!(r.len(), 2);
    assert_eq!(r[0].bytes, s(310).bytes);
    assert_eq!(r[1].bytes, s(420).bytes);
}

#[test]
fn mad_scalar_point_values() {
    let a = vec![point(1), point(2)];
    let b = vec![point(3), point(4)];
    let r = mad_mad_scalar_point(&a, &b, s(10), s(100));
    assert_eq!(r[0].compress(), point(310).compress());
    assert_eq!(r[1].compress(), point(420).compress());
    let r = mad_scalar_point(&a, &b, s(10));
    assert_eq!(r[0].compress(), point(31).compress());
    assert_eq!(r[1].compress(), point(42).compress());
    // the shorter length wins
    let r = mad_scalar_point(&a, &b[..1], s(10));
    assert_eq!(r.len(), 1);
}

#[test]
fn next_power_of_two_values() {
    assert_eq!(next_power_of_two(0), 1);
    assert_eq!(next_power_of_two(1), 1);
    assert_eq!(next_power_of_two(3), 4);
    assert_eq!(next_power_of_two(4), 4);
    assert_eq!(next_power_of_two(5), 8);
    assert_eq!(next_power_of_two(1000), 1024);
}

#[test]
fn fold_verifier_single_round() {
    let t = point(5);
    let t_1 = point(6);
    let t_minus1 = point(7);
    let h_t = vec![point(8)];
    let h_b = vec![point(9)];
    let z_t = vec![s(2)];
    let z_b = vec![s(3)];
    let mut tr = Transcript::new(b"fold-one");
    let (h, z, t_new, c, c_inv) = a2f_ipsp::ipsp::fold_verifier(
        &mut tr, &t, &t_1, &t_minus1, &h_t, &h_b, &z_t, &z_b,
    );
    assert_eq!(c.times(&c_inv).bytes, s(1).bytes);
    assert_eq!(h[0].compress(), point(8).times(&c_inv).plus(&point(9).times(&c)).compress());
    assert_eq!(z[0].bytes, s(2).times(&c_inv).plus(&s(3).times(&c)).bytes);
    let expected = t_minus1
        .times(&c_inv)
        .times(&c_inv)
        .plus(&t)
        .plus(&t_1.times(&c).times(&c));
    assert_eq!(t_new.compress(), expected.compress());
}

#[test]
fn prover_knowledge_rejects_nothing_it_accepts() {
    let st = setup(2);
    let proof = prove(&st);
    assert_eq!(proof.t_1.len(), 1);
    assert_eq!(proof.t_minus1.len(), 1);
}

#[test]
fn folding_keeps_the_commitment_relation() {
    let st = setup(8);
    let sigmas = vec![(s(21), s(22)), (s(23), s(24)), (s(25), s(26))];
    let mut pt = Transcript::new(b"relation");
    let mut t_1 = Vec::new();
    let mut t_minus1 = Vec::new();
    let (h0, t_pp, v0, z0, rho) = IPSPInnerProductProof::folding_prover_with_randomness(
        &mut pt,
        &st.pk,
        &mut t_1,
        &mut t_minus1,
        &st.f,
        &st.h,
        &st.u,
        &sigmas,
    );
    assert_eq!(t_1.len(), 3);
    let expected = h0.times(&v0).plus(&st.f.times(&v0.times(&z0))).plus(&st.u.times(&rho));
    assert_eq!(t_pp.compress(), expected.compress());
}

#[test]
fn padding_keeps_the_commitment() {
    let v_1 = vec![s(2), s(3), s(4)];
    let z = vec![s(5), s(7), s(9)];
    let rho = s(11);
    let f = point(13);
    let u = point(17);
    let h = vec![point(19), point(23), point(29)];
    let t = IPSPProverKnowledge::make_commitment(&v_1, &z, &rho, &f, &h, &u);
    let mut vp = v_1.clone();
    vp.push(s(0));
    let mut zp = z.clone();
    zp.push(s(0));
    let mut hp = h.clone();
    hp.push(RistrettoPoint::identity());
    let tp = IPSPProverKnowledge::make_commitment(&vp, &zp, &rho, &f, &hp, &u);
    assert_eq!(t.compress(), tp.compress());
}

#[test]
fn folding_verifier_for_commits_agrees_with_round_by_round_folding() {
    // two rounds: fold g with top + bottom·c and h with top + bottom·c⁻¹, round by round
    let st = setup(4);
    let proof = prove(&st);
    let g = generators(4, 600);
    let h = generators(4, 700);
    let mut tr = Transcript::new(b"two");
    let (gg, hh, _tt) = proof
        .folding_verifier_for_commits(&mut tr, &st.vk, &st.f, &g, &h)
        .expect("well formed");
    let mut tr2 = Transcript::new(b"two");
    let mut g_r = g.clone();
    let mut h_r = h.clone();
    for i in 0..2 {
        a2f_ipsp::transcript::append_point(&mut tr2, &a2f_ipsp::model::T_MINUS1_LABEL, &proof.t_minus1[i]);
        a2f_ipsp::transcript::append_point(&mut tr2, &a2f_ipsp::model::T1_LABEL, &proof.t_1[i]);
        let c = a2f_ipsp::transcript::challenge_scalar(&mut tr2, &a2f_ipsp::model::C_LABEL);
        let half = g_r.len() / 2;
        g_r = mad_scalar_point(&g_r[..half], &g_r[half..], c);
        h_r = mad_scalar_point(&h_r[..half], &h_r[half..], c.invert());
    }
    assert_eq!(g_r.len(), 1);
    assert_eq!(gg.compress(), g_r[0].compress());
    assert_eq!(hh.compress(), h_r[0].compress());
}

#[test]
fn proofs_with_too_many_rounds_are_malformed() {
    let st = setup(4);
    let mut proof = prove(&st);
    let filler = proof.t_1[0];
    while proof.t_1.len() < 70 {
        proof.t_1.push(filler);
        proof.t_minus1.push(filler);
    }
    assert_eq!(check(&st, &proof), Err(ProofError::MalformedProof));
    proof.t_1.truncate(64);
    proof.t_minus1.truncate(64);
    assert_eq!(check(&st, &proof), Err(ProofError::MalformedProof));
    let g = generators(4, 100);
    let mut tr = Transcript::new(b"many");
    assert_eq!(
        proof.folding_verifier_for_commits(&mut tr, &st.vk, &st.f, &g, &st.h).err(),
        Some(ProofError::MalformedProof)
    );
    let mut tr = Transcript::new(b"many");
    assert_eq!(
        proof.folding_verifier(&mut tr, &st.vk, &st.f, &st.h, &st.vk.z).err(),
        Some(ProofError::MalformedProof)
    );
}

#[test]
fn folding_verifiers_answer_mismatched_lengths_with_malformed() {
    let st = setup(4);
    let proof = prove(&st);
    // a public vector that does not pad to the generators' length
    let long_z: Vec<Scalar> = (0..5u64).map(s).collect();
    let mut tr = Transcript::new(b"len");
    assert_eq!(
        proof.folding_verifier(&mut tr, &st.vk, &st.f, &st.h, &long_z).err(),
        Some(ProofError::MalformedProof)
    );
    let short_z: Vec<Scalar> = (0..2u64).map(s).collect();
    let mut tr = Transcript::new(b"len");
    assert_eq!(
        proof.folding_verifier(&mut tr, &st.vk, &st.f, &st.h, &short_z).err(),
        Some(ProofError::MalformedProof)
    );
    // three entries pad to four: accepted
    let z3: Vec<Scalar> = (0..3u64).map(s).collect();
    let mut tr = Transcript::new(b"len");
    assert!(proof.folding_verifier(&mut tr, &st.vk, &st.f, &st.h, &z3).is_ok());
    // a bad point is malformed whatever the length of the public vector
    let mut bad = prove(&st);
    bad.t_1[1] = CompressedRistretto { bytes: [0xff; 32] };
    let mut tr = Transcript::new(b"len");
    assert_eq!(
        bad.folding_verifier(&mut tr, &st.vk, &st.f, &st.h, &long_z).err(),
        Some(ProofError::MalformedProof)
    );
    // generators h of another length than g
    let g = generators(4, 100);
    let h3 = generators(3, 200);
    let mut tr = Transcript::new(b"len");
    assert_eq!(
        proof.folding_verifier_for_commits(&mut tr, &st.vk, &st.f, &g, &h3).err(),
        Some(ProofError::MalformedProof)
    );
    let mut tr = Transcript::new(b"len");
    assert_eq!(
        bad.folding_verifier_for_commits(&mut tr, &st.vk, &st.f, &g, &h3).err(),
        Some(ProofError::MalformedProof)
    );
}

#[test]
fn prover_knowledge_shares_the_verifier_knowledge() {
    let st = setup(3);
    let vk = st.pk.verifier_knowledge();
    assert_eq!(vk.t.compress(), st.vk.t.compress());
    assert_eq!(vk.z.len(), 3);
    for i in 0..3 {
        assert_eq!(vk.z[i].bytes, st.vk.z[i].bytes);
    }
}
