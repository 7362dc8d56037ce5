//! Points of the BLS12-381 groups G1 and G2, held as their uncompressed
//! encodings, and the pairing into Gt. The group law, scalar
//! multiplication and the pairing are performed by `bls12_381`; the
//! contracts name their results over the encodings.
use crate::field::Fr;
use bls12_381::{G1Affine, G1Projective, G2Affine, G2Projective, Gt, Scalar};
use vstd::prelude::*;

verus! {

#[verifier::external_type_specification]
#[verifier::external_body]
pub struct ExGt(Gt);

/// Whether the bytes are the uncompressed encoding of a point of G1.
pub uninterp spec fn g1_decodes(b: Seq<u8>) -> bool;

/// Encoding of the sum of the two encoded G1 points.
pub uninterp spec fn g1_sum(p: Seq<u8>, q: Seq<u8>) -> Seq<u8>;

/// Encoding of the difference of the two encoded G1 points.
pub uninterp spec fn g1_diff(p: Seq<u8>, q: Seq<u8>) -> Seq<u8>;

/// Encoding of the encoded G1 point multiplied by the scalar `k`.
pub uninterp spec fn g1_scaled(p: Seq<u8>, k: nat) -> Seq<u8>;

/// Whether the bytes are the uncompressed encoding of a point of G2.
pub uninterp spec fn g2_decodes(b: Seq<u8>) -> bool;

/// Encoding of the sum of the two encoded G2 points.
pub uninterp spec fn g2_sum(p: Seq<u8>, q: Seq<u8>) -> Seq<u8>;

/// Encoding of the encoded G2 point multiplied by the scalar `k`.
pub uninterp spec fn g2_scaled(p: Seq<u8>, k: nat) -> Seq<u8>;

/// The pairing of an encoded G1 point with an encoded G2 point.
pub uninterp spec fn pairing_of(p: Seq<u8>, q: Seq<u8>) -> Gt;

/// The group operation of Gt (written additively by `bls12_381`).
pub uninterp spec fn gt_product(x: Gt, y: Gt) -> Gt;

/// Uncompressed encoding of the point at infinity of G1: the infinity flag
/// and zero coordinates.
pub open spec fn g1_identity_enc() -> Seq<u8> {
    Seq::new(96, |i: int| if i == 0 { 0x40u8 } else { 0u8 })
}

/// Uncompressed encoding of the point at infinity of G2.
pub open spec fn g2_identity_enc() -> Seq<u8> {
    Seq::new(192, |i: int| if i == 0 { 0x40u8 } else { 0u8 })
}

/// A point of G1.
#[derive(Clone, Copy, Debug)]
pub struct G1 {
    bytes: [u8; 96],
}

/// A point of G2.
#[derive(Clone, Copy, Debug)]
pub struct G2 {
    bytes: [u8; 192],
}

impl View for G1 {
    type V = Seq<u8>;

    closed spec fn view(&self) -> Seq<u8> {
        self.bytes@
    }
}

impl View for G2 {
    type V = Seq<u8>;

    closed spec fn view(&self) -> Seq<u8> {
        self.bytes@
    }
}

impl G1 {
    #[verifier::type_invariant]
    spec fn on_curve(self) -> bool {
        g1_decodes(self.bytes@)
    }

    /// The point with this uncompressed encoding, if it is one of G1.
    pub fn from_uncompressed(bytes: [u8; 96]) -> (r: Option<G1>)
        ensures
            r is Some <==> g1_decodes(bytes@),
            r is Some ==> r.unwrap()@ == bytes@,
    {
        if g1_check(&bytes) {
            Some(G1 { bytes })
        } else {
            None
        }
    }

    /// The uncompressed encoding.
    pub fn to_uncompressed(&self) -> (r: [u8; 96])
        ensures
            r@ == self@,
    {
        self.bytes
    }
}

impl G2 {
    #[verifier::type_invariant]
    spec fn on_curve(self) -> bool {
        g2_decodes(self.bytes@)
    }

    /// The point with this uncompressed encoding, if it is one of G2.
    pub fn from_uncompressed(bytes: [u8; 192]) -> (r: Option<G2>)
        ensures
            r is Some <==> g2_decodes(bytes@),
            r is Some ==> r.unwrap()@ == bytes@,
    {
        if g2_check(&bytes) {
            Some(G2 { bytes })
        } else {
            None
        }
    }

    /// The uncompressed encoding.
    pub fn to_uncompressed(&self) -> (r: [u8; 192])
        ensures
            r@ == self@,
    {
        self.bytes
    }
}

/// Relies on `G1Affine::from_uncompressed`: it succeeds exactly on encodings
/// of points of the prime-order subgroup.
#[verifier::external_body]
fn g1_check(b: &[u8; 96]) -> (r: bool)
    ensures
        r == g1_decodes(b@),
{
    bool::from(G1Affine::from_uncompressed(b).is_some())
}

/// Relies on `G2Affine::from_uncompressed`, as `g1_check` does for G1.
#[verifier::external_body]
fn g2_check(b: &[u8; 192]) -> (r: bool)
    ensures
        r == g2_decodes(b@),
{
    bool::from(G2Affine::from_uncompressed(b).is_some())
}

/// Relies on `G1Affine::identity` and its encoding.
#[verifier::external_body]
pub(crate) fn g1_identity() -> (r: G1)
    ensures
        r@ == g1_identity_enc(),
{
    G1 { bytes: G1Affine::identity().to_uncompressed() }
}

/// Relies on `G2Affine::identity` and its encoding.
#[verifier::external_body]
pub(crate) fn g2_identity() -> (r: G2)
    ensures
        r@ == g2_identity_enc(),
{
    G2 { bytes: G2Affine::identity().to_uncompressed() }
}

/// Relies on `G1Projective + G1Affine`: the group law of G1.
#[verifier::external_body]
pub(crate) fn g1_add(p: &G1, q: &G1) -> (r: G1)
    ensures
        r@ == g1_sum(p@, q@),
{
    let x = G1Projective::from(G1Affine::from_uncompressed_unchecked(&p.bytes).unwrap());
    let y = G1Affine::from_uncompressed_unchecked(&q.bytes).unwrap();
    G1 { bytes: G1Affine::from(x + y).to_uncompressed() }
}

/// Relies on `G1Projective - G1Affine`: the group law of G1.
#[verifier::external_body]
pub(crate) fn g1_sub(p: &G1, q: &G1) -> (r: G1)
    ensures
        r@ == g1_diff(p@, q@),
{
    let x = G1Projective::from(G1Affine::from_uncompressed_unchecked(&p.bytes).unwrap());
    let y = G1Affine::from_uncompressed_unchecked(&q.bytes).unwrap();
    G1 { bytes: G1Affine::from(x - y).to_uncompressed() }
}

/// Relies on `G1Affine * Scalar`: scalar multiplication in G1.
#[verifier::external_body]
pub(crate) fn g1_mul(p: &G1, k: &Fr) -> (r: G1)
    ensures
        r@ == g1_scaled(p@, k.val()),
{
    let x = G1Affine::from_uncompressed_unchecked(&p.bytes).unwrap();
    let y = Scalar::from_bytes(&k.to_bytes()).unwrap();
    G1 { bytes: G1Affine::from(x * y).to_uncompressed() }
}

/// Relies on `G2Projective + G2Affine`: the group law of G2.
#[verifier::external_body]
pub(crate) fn g2_add(p: &G2, q: &G2) -> (r: G2)
    ensures
        r@ == g2_sum(p@, q@),
{
    let x = G2Projective::from(G2Affine::from_uncompressed_unchecked(&p.bytes).unwrap());
    let y = G2Affine::from_uncompressed_unchecked(&q.bytes).unwrap();
    G2 { bytes: G2Affine::from(x + y).to_uncompressed() }
}

/// Relies on `G2Affine * Scalar`: scalar multiplication in G2.
#[verifier::external_body]
pub(crate) fn g2_mul(p: &G2, k: &Fr) -> (r: G2)
    ensures
        r@ == g2_scaled(p@, k.val()),
{
    let x = G2Affine::from_uncompressed_unchecked(&p.bytes).unwrap();
    let y = Scalar::from_bytes(&k.to_bytes()).unwrap();
    G2 { bytes: G2Affine::from(x * y).to_uncompressed() }
}

/// Relies on `pairing::Engine::pairing` for `Bls12`.
#[verifier::external_body]
pub(crate) fn pairing(p: &G1, q: &G2) -> (r: Gt)
    ensures
        r == pairing_of(p@, q@),
{
    let x = G1Affine::from_uncompressed_unchecked(&p.bytes).unwrap();
    let y = G2Affine::from_uncompressed_unchecked(&q.bytes).unwrap();
    <bls12_381::Bls12 as pairing::Engine>::pairing(&x, &y)
}

/// Relies on `Gt + Gt`: the group operation of the target group.
#[verifier::external_body]
pub(crate) fn gt_mul(x: &Gt, y: &Gt) -> (r: Gt)
    ensures
        r == gt_product(*x, *y),
{
    x + y
}

/// Relies on `PartialEq for Gt`, which compares the canonical coordinates.
#[verifier::external_body]
pub(crate) fn gt_eq(x: &Gt, y: &Gt) -> (r: bool)
    ensures
        r == (*x == *y),
{
    x == y
}

} // verus!
