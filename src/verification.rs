//! Checking a proof against a verification key and public inputs.
use crate::curve::{
    g1_add, g1_mul, g1_scaled, g1_sum, g2_mul, g2_scaled, gt_eq, gt_mul, gt_product, pairing,
    pairing_of, G1,
};
use crate::field::{fr_one, fr_sub, fr_zero, modulus, Fr};
use crate::{Proof, VerificationError, VerificationKey};
use vstd::arithmetic::div_mod::lemma_fundamental_div_mod_converse;
use vstd::prelude::*;

verus! {

/// `ic[0] + inputs[0]·ic[1] + ... + inputs[n-1]·ic[n]`, summed from the left.
pub open spec fn input_accumulator(ic: Seq<G1>, inputs: Seq<Fr>, n: nat) -> Seq<u8>
    decreases n,
{
    if n == 0 {
        ic[0]@
    } else {
        g1_sum(
            input_accumulator(ic, inputs, (n - 1) as nat),
            g1_scaled(ic[n as int]@, inputs[n - 1].val()),
        )
    }
}

/// `e(A, B) · e(acc, -gamma) · e(C, -delta) == e(alpha, beta)`.
pub open spec fn pairing_identity(proof: Proof, vk: VerificationKey, inputs: Seq<Fr>) -> bool {
    let acc = input_accumulator(vk.ic@, inputs, inputs.len());
    let minus_one = (modulus() - 1) as nat;
    let lhs = gt_product(
        gt_product(
            pairing_of(proof.a@, proof.b@),
            pairing_of(acc, g2_scaled(vk.gamma_g2@, minus_one)),
        ),
        pairing_of(proof.c@, g2_scaled(vk.delta_g2@, minus_one)),
    );
    lhs == pairing_of(vk.alpha_g1@, vk.beta_g2@)
}

/// Verifies `proof` for the given public inputs (the constant one not
/// included).
pub fn verify_proof(proof: &Proof, public_inputs: &[Fr], vk: VerificationKey) -> (r: Result<
    (),
    VerificationError,
>)
    ensures
        r == Err::<(), _>(VerificationError::InvalidVerifyingKey) <==> public_inputs@.len() + 1
            != vk.ic@.len(),
        r is Ok <==> public_inputs@.len() + 1 == vk.ic@.len() && pairing_identity(
            *proof,
            vk,
            public_inputs@,
        ),
        r == Err::<(), _>(VerificationError::InvalidProof) <==> public_inputs@.len() + 1
            == vk.ic@.len() && !pairing_identity(*proof, vk, public_inputs@),
{
    if public_inputs.len() >= vk.ic.len() || public_inputs.len() + 1 != vk.ic.len() {
        return Err(VerificationError::InvalidVerifyingKey);
    }
    let mut acc = vk.ic[0];
    let mut i: usize = 0;
    while i < public_inputs.len()
        invariant
            i <= public_inputs@.len(),
            public_inputs@.len() + 1 == vk.ic@.len(),
            acc@ == input_accumulator(vk.ic@, public_inputs@, i as nat),
        decreases public_inputs@.len() - i,
    {
        let t = g1_mul(&vk.ic[i + 1], &public_inputs[i]);
        acc = g1_add(&acc, &t);
        i = i + 1;
    }
    let minus_one = fr_sub(&fr_zero(), &fr_one());
    proof {
        let m = modulus() as int;
        lemma_fundamental_div_mod_converse(0 - 1, m, -1, m - 1);
    }
    let neg_gamma = g2_mul(&vk.gamma_g2, &minus_one);
    let neg_delta = g2_mul(&vk.delta_g2, &minus_one);
    let mut lhs = pairing(&proof.a, &proof.b);
    lhs = gt_mul(&lhs, &pairing(&acc, &neg_gamma));
    lhs = gt_mul(&lhs, &pairing(&proof.c, &neg_delta));
    if gt_eq(&pairing(&vk.alpha_g1, &vk.beta_g2), &lhs) {
        Ok(())
    } else {
        Err(VerificationError::InvalidProof)
    }
}

} // verus!
