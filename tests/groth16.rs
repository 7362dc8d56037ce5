use bellman::groth16::{generate_random_parameters, Parameters as BellmanParams};
use bellman::{Circuit as BellmanCircuit, ConstraintSystem, SynthesisError as BellmanError};
use bls12_381::{Bls12, G1Affine, G1Projective, G2Affine, G2Projective, Scalar};
use ff::{Field, PrimeField};
use pairing::group::Group;
use groth16::analyzer::{
    extract_assignments, extract_circuit, AnalyzeCircuit, Circuit, LinearCombination, Variable,
};
use groth16::curve::{G1, G2};
use groth16::field::Fr;
use groth16::prover::create_proof;
use groth16::verification::verify_proof;
use groth16::{
    Parameters, Proof, ProvingError, SynthesisError, VerificationError, VerificationKey, QAP,
};
use rand::thread_rng;

fn to_fr(x: &Scalar) -> Fr {
    Fr::from_bytes(x.to_bytes()).unwrap()
}

fn to_bls(x: &Fr) -> Scalar {
    Scalar::from_bytes(&x.to_bytes()).unwrap()
}

fn g1(p: &G1Affine) -> G1 {
    G1::from_uncompressed(p.to_uncompressed()).unwrap()
}

fn g2(p: &G2Affine) -> G2 {
    G2::from_uncompressed(p.to_uncompressed()).unwrap()
}

fn g1_affine(p: &G1) -> G1Affine {
    G1Affine::from_uncompressed(&p.to_uncompressed()).unwrap()
}

fn g2_affine(p: &G2) -> G2Affine {
    G2Affine::from_uncompressed(&p.to_uncompressed()).unwrap()
}

/// Proves knowledge of x with x^3 + x + 5 == out.
#[derive(Clone, Copy)]
struct Cube {
    x: Option<Scalar>,
}

impl Circuit for Cube {
    fn synthesize(self, cs: &mut AnalyzeCircuit) -> Result<(), SynthesisError> {
        let x_val = self.x;
        let x = cs.allocate_private(x_val.map(|v| to_fr(&v)))?;
        let tmp_val = x_val.map(|v| v.square());
        let tmp = cs.allocate_private(tmp_val.map(|v| to_fr(&v)))?;
        cs.enforce(
            &LinearCombination::zero().add_term(x, to_fr(&Scalar::ONE)),
            &LinearCombination::zero().add_term(x, to_fr(&Scalar::ONE)),
            &LinearCombination::zero().add_term(tmp, to_fr(&Scalar::ONE)),
        );
        let cubed_val = tmp_val.and_then(|t| x_val.map(|v| t * v));
        let cubed = cs.allocate_private(cubed_val.map(|v| to_fr(&v)))?;
        cs.enforce(
            &LinearCombination::zero().add_term(tmp, to_fr(&Scalar::ONE)),
            &LinearCombination::zero().add_term(x, to_fr(&Scalar::ONE)),
            &LinearCombination::zero().add_term(cubed, to_fr(&Scalar::ONE)),
        );
        let out_val = cubed_val.and_then(|c| x_val.map(|v| c + v + Scalar::from(5u64)));
        let out = cs.allocate_public(out_val.map(|v| to_fr(&v)))?;
        cs.enforce(
            &LinearCombination::zero()
                .add_term(cubed, to_fr(&Scalar::ONE))
                .add_term(x, to_fr(&Scalar::ONE))
                .add_term(Variable::Public(0), to_fr(&Scalar::from(5u64))),
            &LinearCombination::zero().add_term(Variable::Public(0), to_fr(&Scalar::ONE)),
            &LinearCombination::zero().add_term(out, to_fr(&Scalar::ONE)),
        );
        Ok(())
    }
}

/// The same circuit for the parameter generator.
struct BellmanCube;

impl BellmanCircuit<Scalar> for BellmanCube {
    fn synthesize<CS: ConstraintSystem<Scalar>>(self, cs: &mut CS) -> Result<(), BellmanError> {
        let x = cs.alloc(|| "x", || Err(BellmanError::AssignmentMissing))?;
        let tmp = cs.alloc(|| "tmp", || Err(BellmanError::AssignmentMissing))?;
        cs.enforce(|| "tmp", |lc| lc + x, |lc| lc + x, |lc| lc + tmp);
        let cubed = cs.alloc(|| "cubed", || Err(BellmanError::AssignmentMissing))?;
        cs.enforce(|| "cubed", |lc| lc + tmp, |lc| lc + x, |lc| lc + cubed);
        let out = cs.alloc_input(|| "out", || Err(BellmanError::AssignmentMissing))?;
        cs.enforce(
            || "out",
            |lc| lc + cubed + x + (Scalar::from(5u64), CS::one()),
            |lc| lc + CS::one(),
            |lc| lc + out,
        );
        Ok(())
    }
}

fn parameters() -> Parameters {
    let mut rng = thread_rng();
    let p: BellmanParams<Bls12> = generate_random_parameters(BellmanCube, &mut rng).unwrap();
    Parameters {
        vk: VerificationKey {
            alpha_g1: g1(&p.vk.alpha_g1),
            beta_g1: g1(&p.vk.beta_g1),
            beta_g2: g2(&p.vk.beta_g2),
            gamma_g2: g2(&p.vk.gamma_g2),
            delta_g1: g1(&p.vk.delta_g1),
            delta_g2: g2(&p.vk.delta_g2),
            ic: p.vk.ic.iter().map(g1).collect(),
        },
        h: p.h.iter().map(g1).collect(),
        l: p.l.iter().map(g1).collect(),
        a_g1: p.a.iter().map(g1).collect(),
        b_g1: p.b_g1.iter().map(g1).collect(),
        b_g2: p.b_g2.iter().map(g2).collect(),
    }
}

struct Session {
    inputs: Vec<Fr>,
    aux: Vec<Fr>,
    qap: QAP,
    num_constraints: usize,
}

fn session(x: u64) -> Session {
    let c = Cube { x: Some(Scalar::from(x)) };
    let cs = extract_assignments(c).ok().unwrap();
    let (inputs, aux) = cs.get_assignments();
    let num_constraints = cs.num_constraints();
    let qap = cs.qap();
    Session { inputs, aux, qap, num_constraints }
}

fn prove(params: &Parameters, s: &Session, r: Scalar, t: Scalar) -> Proof {
    create_proof(
        params.clone(),
        &s.inputs,
        &s.aux,
        to_fr(&r),
        to_fr(&t),
        s.qap.clone(),
        s.num_constraints,
    )
    .ok()
    .unwrap()
}

fn row_value(col: &[Vec<(Fr, usize)>], w: &[Scalar], j: usize) -> Scalar {
    let mut sum = Scalar::ZERO;
    for (g, entries) in col.iter().enumerate() {
        for (c, u) in entries {
            if *u == j {
                sum += to_bls(c) * w[g];
            }
        }
    }
    sum
}

#[test]
fn cube_witness_satisfies_every_constraint() {
    let s = session(3);
    let w: Vec<Scalar> = s.inputs.iter().chain(s.aux.iter()).map(to_bls).collect();
    assert_eq!(w, vec![Scalar::ONE, Scalar::from(35u64), Scalar::from(3u64), Scalar::from(9u64), Scalar::from(27u64)]);
    // Three constraints of the circuit and one per public variable.
    assert_eq!(s.num_constraints, 5);
    for j in 0..s.num_constraints {
        let a = row_value(&s.qap.a, &w, j);
        let b = row_value(&s.qap.b, &w, j);
        let c = row_value(&s.qap.c, &w, j);
        assert_eq!(a * b, c, "constraint {}", j);
    }
}

#[test]
fn qap_columns_and_nonzero_lists() {
    let qap = extract_circuit(Cube { x: None }).ok().unwrap();
    assert_eq!(qap.a.len(), 5);
    assert_eq!(qap.b.len(), 5);
    assert_eq!(qap.c.len(), 5);
    // A side: one (constraint 2 and its own), out (its own), x, tmp, cubed.
    assert_eq!(qap.a_constraints, vec![0, 1, 2, 3, 4]);
    // B side: one (constraint 2) and x (constraints 0 and 1).
    assert_eq!(qap.b_constraints, vec![0, 2]);
    let x_b: Vec<usize> = qap.b[2].iter().map(|e| e.1).collect();
    assert_eq!(x_b, vec![0, 1]);
    let one_a: Vec<(Scalar, usize)> = qap.a[0].iter().map(|e| (to_bls(&e.0), e.1)).collect();
    assert_eq!(one_a, vec![(Scalar::from(5u64), 2), (Scalar::ONE, 3)]);
    let out_a: Vec<usize> = qap.a[1].iter().map(|e| e.1).collect();
    assert_eq!(out_a, vec![4]);
    let out_c: Vec<usize> = qap.c[1].iter().map(|e| e.1).collect();
    assert_eq!(out_c, vec![2]);
}

#[test]
fn missing_assignment_stops_analysis() {
    let r = extract_assignments(Cube { x: None });
    assert!(matches!(r, Err(SynthesisError::AssignmentMissing)));
    let mut cs = AnalyzeCircuit::new(true);
    assert!(matches!(cs.allocate_private(None), Err(SynthesisError::AssignmentMissing)));
    assert_eq!(cs.get_num_states(), (0, 0));
}

#[test]
fn zero_terms_are_not_recorded() {
    let mut cs = AnalyzeCircuit::new(false);
    let v = cs.allocate_public(None).ok().unwrap();
    let w = cs.allocate_private(None).ok().unwrap();
    cs.enforce(
        &LinearCombination::zero().add_term(v, to_fr(&Scalar::ZERO)).add_term(w, to_fr(&Scalar::ONE)),
        &LinearCombination::zero(),
        &LinearCombination::zero(),
    );
    let qap = cs.qap();
    assert_eq!(qap.a_constraints, vec![1]);
    assert!(qap.a[0].is_empty());
}

#[test]
fn proof_of_cube_verifies() {
    let params = parameters();
    let s = session(3);
    let mut rng = thread_rng();
    let proof = prove(&params, &s, Scalar::random(&mut rng), Scalar::random(&mut rng));
    let public = [to_fr(&Scalar::from(35u64))];
    assert!(verify_proof(&proof, &public, params.vk.clone()).is_ok());

    let wrong = [to_fr(&Scalar::from(34u64))];
    assert_eq!(verify_proof(&proof, &wrong, params.vk.clone()), Err(VerificationError::InvalidProof));

    let shift1 = G1Affine::from(G1Projective::from(g1_affine(&proof.a)) + G1Projective::generator());
    let bad_a = Proof { a: g1(&shift1), ..proof };
    assert_eq!(verify_proof(&bad_a, &public, params.vk.clone()), Err(VerificationError::InvalidProof));

    let shift2 = G2Affine::from(G2Projective::from(g2_affine(&proof.b)) + G2Projective::generator());
    let bad_b = Proof { b: g2(&shift2), ..proof };
    assert_eq!(verify_proof(&bad_b, &public, params.vk.clone()), Err(VerificationError::InvalidProof));

    let shift3 = G1Affine::from(G1Projective::from(g1_affine(&proof.c)) + G1Projective::generator());
    let bad_c = Proof { c: g1(&shift3), ..proof };
    assert_eq!(verify_proof(&bad_c, &public, params.vk), Err(VerificationError::InvalidProof));
}

#[test]
fn verifier_rejects_input_count_mismatch() {
    let params = parameters();
    let s = session(3);
    let proof = prove(&params, &s, Scalar::from(11u64), Scalar::from(13u64));
    let none: [Fr; 0] = [];
    assert_eq!(verify_proof(&proof, &none, params.vk.clone()), Err(VerificationError::InvalidVerifyingKey));
    let two = [to_fr(&Scalar::from(35u64)), to_fr(&Scalar::from(35u64))];
    assert_eq!(verify_proof(&proof, &two, params.vk), Err(VerificationError::InvalidVerifyingKey));
}

#[test]
fn proving_is_deterministic_in_the_blinding() {
    let params = parameters();
    let s = session(3);
    let first = prove(&params, &s, Scalar::from(7u64), Scalar::from(9u64));
    let second = prove(&params, &s, Scalar::from(7u64), Scalar::from(9u64));
    assert_eq!(first.a.to_uncompressed(), second.a.to_uncompressed());
    assert_eq!(first.b.to_uncompressed(), second.b.to_uncompressed());
    assert_eq!(first.c.to_uncompressed(), second.c.to_uncompressed());
    let other = prove(&params, &s, Scalar::from(8u64), Scalar::from(10u64));
    assert_ne!(first.a.to_uncompressed(), other.a.to_uncompressed());
    assert_ne!(first.c.to_uncompressed(), other.c.to_uncompressed());
    let public = [to_fr(&Scalar::from(35u64))];
    assert!(verify_proof(&first, &public, params.vk.clone()).is_ok());
    assert!(verify_proof(&other, &public, params.vk).is_ok());
}

#[test]
fn shape_mismatch_is_reported() {
    let mut params = parameters();
    let s = session(3);
    params.l.pop();
    let r = create_proof(
        params,
        &s.inputs,
        &s.aux,
        to_fr(&Scalar::ONE),
        to_fr(&Scalar::ONE),
        s.qap.clone(),
        s.num_constraints,
    );
    assert!(matches!(r, Err(ProvingError::ShapeMismatch)));
}

#[test]
fn points_off_the_group_are_rejected() {
    let mut bytes = G1Affine::generator().to_uncompressed();
    assert!(G1::from_uncompressed(bytes).is_some());
    bytes[95] ^= 1;
    assert!(G1::from_uncompressed(bytes).is_none());
    let mut bytes2 = G2Affine::generator().to_uncompressed();
    assert!(G2::from_uncompressed(bytes2).is_some());
    bytes2[191] ^= 1;
    assert!(G2::from_uncompressed(bytes2).is_none());
}

#[test]
fn verifier_rejects_empty_key_before_pairing() {
    let params = parameters();
    let s = session(3);
    let proof = prove(&params, &s, Scalar::from(2u64), Scalar::from(5u64));
    let mut vk = params.vk.clone();
    vk.ic.clear();
    let none: [Fr; 0] = [];
    assert_eq!(verify_proof(&proof, &none, vk), Err(VerificationError::InvalidVerifyingKey));
}

#[test]
fn analysis_appends_input_constraints() {
    let cs = extract_assignments(Cube { x: Some(Scalar::from(3u64)) }).ok().unwrap();
    let (inputs, aux) = cs.get_assignments();
    assert_eq!(cs.get_num_states(), (inputs.len(), aux.len()));
    assert_eq!(to_bls(&inputs[0]), Scalar::ONE);
    let qap = extract_circuit(Cube { x: None }).ok().unwrap();
    // The last A entries of public variables 0 and 1 are their own
    // constraints 3 and 4, with coefficient one.
    for (g, j) in [(0usize, 3usize), (1, 4)] {
        let last = qap.a[g].last().unwrap();
        assert_eq!((to_bls(&last.0), last.1), (Scalar::ONE, j));
    }
}

/// Replaces the value-keeping recorder with one that keeps none.
struct Swapper;

impl Circuit for Swapper {
    fn synthesize(self, cs: &mut AnalyzeCircuit) -> Result<(), SynthesisError> {
        *cs = AnalyzeCircuit::new(false);
        cs.allocate_public(None)?;
        Ok(())
    }
}

#[test]
fn recorder_without_values_is_refused() {
    assert!(matches!(extract_assignments(Swapper), Err(SynthesisError::AssignmentMissing)));
    assert!(extract_circuit(Swapper).is_ok());
}
