use bellman::domain::{EvaluationDomain, Scalar};
use bellman::multicore::Worker;
use bls12_381::Scalar as BlsScalar;
use ff::{Field, PrimeField};
use groth16::fft::{
    add_coefficient_domain, coset_fft, fft, fft_params, icoset_fft, ifft,
    multiply_coefficient_domain,
};
use groth16::field::Fr;
use rand::thread_rng;

fn to_fr(x: &BlsScalar) -> Fr {
    Fr::from_bytes(x.to_bytes()).unwrap()
}

fn to_bls(x: &Fr) -> BlsScalar {
    BlsScalar::from_bytes(&x.to_bytes()).unwrap()
}

fn to_frs(v: &[BlsScalar]) -> Vec<Fr> {
    v.iter().map(to_fr).collect()
}

fn to_bls_vec(v: &[Fr]) -> Vec<BlsScalar> {
    v.iter().map(to_bls).collect()
}

fn random_vec(n: usize) -> Vec<BlsScalar> {
    let mut rng = thread_rng();
    (0..n).map(|_| BlsScalar::random(&mut rng)).collect()
}

#[test]
fn inverse_correctness() {
    let a: Vec<Scalar<BlsScalar>> = random_vec(32).into_iter().map(Scalar).collect();
    let avals: Vec<BlsScalar> = a.iter().map(|t| t.0).collect();
    let mut a2: Vec<Fr> = to_frs(&avals);

    let mut domain = EvaluationDomain::from_coeffs(a.clone()).unwrap();
    let worker = Worker::new();
    domain.fft(&worker);
    let mut x: Vec<BlsScalar> = domain.as_ref().iter().map(|t| t.0).collect();

    let (omega, _m, exp) = fft_params(a.len());
    fft(a2.as_mut_slice(), &omega, exp);

    assert_eq!(x, to_bls_vec(&a2));

    domain.ifft(&worker);
    ifft(a2.as_mut_slice(), &omega, exp);
    x = domain.as_ref().iter().map(|t| t.0).collect();

    assert_eq!(x, to_bls_vec(&a2));

    assert_eq!(avals, to_bls_vec(&a2));
}

#[test]
fn polynomial_arithmetic() {
    let a_vals = random_vec(32);
    let b_vals = random_vec(32);

    let mut naive = vec![BlsScalar::ZERO; 64];
    for (i, x) in a_vals.iter().enumerate() {
        for (j, y) in b_vals.iter().enumerate() {
            naive[i + j] += x * y;
        }
    }

    let mut a = to_frs(&a_vals);
    let mut b = to_frs(&b_vals);
    multiply_coefficient_domain(&mut a, &mut b);
    let (omega, _m, exp) = fft_params(a.len());
    ifft(a.as_mut_slice(), &omega, exp);

    assert_eq!(naive, to_bls_vec(&a));
}

#[test]
fn fft_matches_direct_evaluation() {
    let coeffs = random_vec(8);
    let mut a = to_frs(&coeffs);
    let (omega, m, exp) = fft_params(8);
    assert_eq!(m, 8);
    assert_eq!(exp, 3);
    fft(a.as_mut_slice(), &omega, exp);
    let w = to_bls(&omega);
    assert_eq!(w.pow_vartime(&[8u64, 0, 0, 0]), BlsScalar::ONE);
    assert_ne!(w.pow_vartime(&[4u64, 0, 0, 0]), BlsScalar::ONE);
    let out = to_bls_vec(&a);
    for i in 0..8u64 {
        let point = w.pow_vartime(&[i, 0, 0, 0]);
        let mut sum = BlsScalar::ZERO;
        let mut power = BlsScalar::ONE;
        for c in &coeffs {
            sum += c * power;
            power *= point;
        }
        assert_eq!(out[i as usize], sum);
    }
}

#[test]
fn ifft_undoes_fft_on_every_small_size() {
    for exp in 0..6u32 {
        let n = 1usize << exp;
        let vals = random_vec(n);
        let mut a = to_frs(&vals);
        let (omega, m, e) = fft_params(n);
        assert_eq!((m, e), (n, exp));
        fft(a.as_mut_slice(), &omega, e);
        ifft(a.as_mut_slice(), &omega, e);
        assert_eq!(to_bls_vec(&a), vals);
    }
}

#[test]
fn small_degree_products_match_convolution() {
    // (1 + 2x)(3 + x + x^2) = 3 + 7x + 3x^2 + 2x^3
    let a_vals = vec![BlsScalar::from(1u64), BlsScalar::from(2u64)];
    let b_vals = vec![BlsScalar::from(3u64), BlsScalar::from(1u64), BlsScalar::from(1u64)];
    let mut a = to_frs(&a_vals);
    let mut b = to_frs(&b_vals);
    multiply_coefficient_domain(&mut a, &mut b);
    assert_eq!(a.len(), 8);
    assert_eq!(b.len(), 8);
    let (omega, _m, exp) = fft_params(a.len());
    ifft(a.as_mut_slice(), &omega, exp);
    let expected: Vec<BlsScalar> = [3u64, 7, 3, 2, 0, 0, 0, 0]
        .iter()
        .map(|v| BlsScalar::from(*v))
        .collect();
    assert_eq!(to_bls_vec(&a), expected);
}

#[test]
fn fft_params_picks_least_power_of_two() {
    let cases = [(0usize, 1usize, 0u32), (1, 1, 0), (2, 2, 1), (3, 4, 2), (5, 8, 3), (8, 8, 3), (9, 16, 4)];
    for (l, m, exp) in cases {
        let (omega, got_m, got_exp) = fft_params(l);
        assert_eq!((got_m, got_exp), (m, exp));
        let w = to_bls(&omega);
        assert_eq!(w.pow_vartime(&[m as u64, 0, 0, 0]), BlsScalar::ONE);
    }
    let (omega, _, _) = fft_params(1 << 20);
    assert_eq!(to_bls(&omega), BlsScalar::ROOT_OF_UNITY.pow_vartime(&[1u64 << 12, 0, 0, 0]));
}

#[test]
fn coset_round_trip_and_values() {
    let vals = random_vec(4);
    let mut a = to_frs(&vals);
    let (omega, _m, exp) = fft_params(4);
    coset_fft(a.as_mut_slice(), &omega, exp);
    let g = BlsScalar::MULTIPLICATIVE_GENERATOR;
    let w = to_bls(&omega);
    let out = to_bls_vec(&a);
    for i in 0..4u64 {
        let point = g * w.pow_vartime(&[i, 0, 0, 0]);
        let mut sum = BlsScalar::ZERO;
        let mut power = BlsScalar::ONE;
        for c in &vals {
            sum += c * power;
            power *= point;
        }
        assert_eq!(out[i as usize], sum);
    }
    icoset_fft(a.as_mut_slice(), &omega, exp);
    assert_eq!(to_bls_vec(&a), vals);
}

#[test]
fn add_coefficient_domain_adds_entrywise() {
    let x = random_vec(5);
    let y = random_vec(5);
    let mut a = to_frs(&x);
    let b = to_frs(&y);
    add_coefficient_domain(&mut a, &b);
    let expected: Vec<BlsScalar> = x.iter().zip(y.iter()).map(|(p, q)| p + q).collect();
    assert_eq!(to_bls_vec(&a), expected);
}

#[test]
fn field_encoding_round_trip_and_rejects_modulus() {
    let x = BlsScalar::from(12345u64);
    let fr = to_fr(&x);
    assert_eq!(fr.to_bytes(), x.to_bytes());
    assert!(!fr.is_zero());
    assert!(to_fr(&BlsScalar::ZERO).is_zero());
    let modulus = (BlsScalar::ZERO - BlsScalar::ONE).to_bytes();
    let mut q = modulus;
    q[0] += 1;
    assert!(Fr::from_bytes(q).is_none());
    assert!(Fr::from_bytes(modulus).is_some());
}

#[test]
fn root_of_unity_has_full_order() {
    let mut x = BlsScalar::ROOT_OF_UNITY;
    for _ in 0..31 {
        x = x.square();
    }
    assert_eq!(x, -BlsScalar::ONE);
    assert_eq!(x.square(), BlsScalar::ONE);
    assert_eq!(
        BlsScalar::ROOT_OF_UNITY,
        BlsScalar::from(7u64).pow_vartime(&[
            0xfffe_5bfe_ffff_ffff,
            0x09a1_d805_53bd_a402,
            0x299d_7d48_3339_d808,
            0x0000_0000_73ed_a753,
        ])
    );
}
