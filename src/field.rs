//! Elements of the BLS12-381 scalar field, held as their canonical
//! little-endian encoding. All arithmetic is performed by `bls12_381`.
use bls12_381::Scalar;
use vstd::arithmetic::power2::pow2;
use vstd::prelude::*;

verus! {

/// The order of the BLS12-381 scalar field.
pub open spec fn modulus() -> nat {
    0x73eda753299d7d483339d80809a1d805 * 0x1_0000_0000_0000_0000 * 0x1_0000_0000_0000_0000
        + 0x53bda402fffe5bfeffffffff00000001
}

/// Value of a little-endian byte string.
pub open spec fn le_value(s: Seq<u8>) -> nat
    decreases s.len(),
{
    if s.len() == 0 {
        0
    } else {
        s[0] as nat + 256 * le_value(s.subrange(1, s.len() as int))
    }
}

pub open spec fn add_mod(a: int, b: int) -> int {
    (a + b) % (modulus() as int)
}

pub open spec fn sub_mod(a: int, b: int) -> int {
    (a - b) % (modulus() as int)
}

pub open spec fn mul_mod(a: int, b: int) -> int {
    (a * b) % (modulus() as int)
}

/// `x` raised to `e` in the field.
pub open spec fn pow_mod(x: int, e: nat) -> int
    decreases e,
{
    if e == 0 {
        1
    } else {
        mul_mod(pow_mod(x, (e - 1) as nat), x)
    }
}

/// The multiplicative inverse of `x`, for `x` with one (every nonzero `x`:
/// the modulus is prime).
pub open spec fn inv_mod(x: int) -> int {
    choose|y: int| 0 <= y < modulus() && mul_mod(x, y) == 1
}

/// Base-2 logarithm of the largest power of two dividing `modulus() - 1`.
pub open spec fn two_adicity() -> nat {
    32
}

/// The canonical root of unity of order `2^two_adicity()`: the generator 7
/// raised to the odd part of `modulus() - 1`.
pub open spec fn root_of_unity() -> int {
    pow_mod(7, ((modulus() - 1) as nat / pow2(two_adicity())) as nat)
}

/// An element of the scalar field, kept in canonical form.
#[derive(Clone, Copy, Debug)]
pub struct Fr {
    bytes: [u8; 32],
}

impl Fr {
    #[verifier::type_invariant]
    spec fn canonical(self) -> bool {
        le_value(self.bytes@) < modulus()
    }

    /// The integer in `0..modulus()` that this element stands for (its
    /// encoding is canonical, so the reduction changes nothing).
    pub closed spec fn val(self) -> nat {
        le_value(self.bytes@) % modulus()
    }

    pub proof fn lemma_val_range(self)
        ensures
            self.val() < modulus(),
    {
    }

    /// The element with the given canonical encoding, if it is canonical.
    pub fn from_bytes(bytes: [u8; 32]) -> (r: Option<Fr>)
        ensures
            r is Some <==> le_value(bytes@) < modulus(),
            r is Some ==> r.unwrap().val() == le_value(bytes@),
    {
        if is_canonical(&bytes) {
            proof {
                vstd::arithmetic::div_mod::lemma_small_mod(le_value(bytes@), modulus());
            }
            Some(Fr { bytes })
        } else {
            None
        }
    }

    /// The canonical little-endian encoding.
    pub fn to_bytes(&self) -> (r: [u8; 32])
        ensures
            le_value(r@) == self.val(),
    {
        proof {
            use_type_invariant(self);
            vstd::arithmetic::div_mod::lemma_small_mod(le_value(self.bytes@), modulus());
        }
        self.bytes
    }

    /// Whether this is the zero element.
    pub fn is_zero(&self) -> (r: bool)
        ensures
            r == (self.val() == 0),
    {
        proof {
            use_type_invariant(self);
            vstd::arithmetic::div_mod::lemma_small_mod(le_value(self.bytes@), modulus());
        }
        let mut i: usize = 0;
        while i < 32
            invariant
                i <= 32,
                forall|j: int| 0 <= j < i ==> self.bytes@[j] == 0,
            decreases 32 - i,
        {
            if self.bytes[i] != 0 {
                proof {
                    lemma_le_value_nonzero(self.bytes@, i as int);
                    use_type_invariant(self);
                    vstd::arithmetic::div_mod::lemma_small_mod(le_value(self.bytes@), modulus());
                }
                return false;
            }
            i = i + 1;
        }
        proof {
            lemma_le_value_zero(self.bytes@);
        }
        true
    }
}

proof fn lemma_le_value_nonzero(s: Seq<u8>, i: int)
    requires
        0 <= i < s.len(),
        s[i] != 0,
    ensures
        le_value(s) > 0,
    decreases s.len(),
{
    if i > 0 {
        lemma_le_value_nonzero(s.subrange(1, s.len() as int), i - 1);
    }
}

proof fn lemma_le_value_zero(s: Seq<u8>)
    requires
        forall|j: int| 0 <= j < s.len() ==> s[j] == 0,
    ensures
        le_value(s) == 0,
    decreases s.len(),
{
    if s.len() > 0 {
        lemma_le_value_zero(s.subrange(1, s.len() as int));
    }
}

/// Relies on `Scalar::from_bytes`: it succeeds exactly on canonical encodings.
#[verifier::external_body]
fn is_canonical(b: &[u8; 32]) -> (r: bool)
    ensures
        r == (le_value(b@) < modulus()),
{
    bool::from(Scalar::from_bytes(b).is_some())
}

/// Relies on `Scalar::zero`.
#[verifier::external_body]
pub(crate) fn fr_zero() -> (r: Fr)
    ensures
        r.val() == 0,
{
    Fr { bytes: Scalar::zero().to_bytes() }
}

/// Relies on `Scalar::one`.
#[verifier::external_body]
pub(crate) fn fr_one() -> (r: Fr)
    ensures
        r.val() == 1,
{
    Fr { bytes: Scalar::one().to_bytes() }
}

/// Relies on `From<u64> for Scalar`: the integer taken modulo the field order.
#[verifier::external_body]
pub(crate) fn fr_from_u64(n: u64) -> (r: Fr)
    ensures
        r.val() == n as int % modulus() as int,
{
    Fr { bytes: Scalar::from(n).to_bytes() }
}

/// Relies on `Scalar::add`: addition modulo the field order.
#[verifier::external_body]
pub(crate) fn fr_add(a: &Fr, b: &Fr) -> (r: Fr)
    ensures
        r.val() == add_mod(a.val() as int, b.val() as int),
{
    let x = Scalar::from_bytes(&a.bytes).unwrap();
    let y = Scalar::from_bytes(&b.bytes).unwrap();
    Fr { bytes: x.add(&y).to_bytes() }
}

/// Relies on `Scalar::sub`: subtraction modulo the field order.
#[verifier::external_body]
pub(crate) fn fr_sub(a: &Fr, b: &Fr) -> (r: Fr)
    ensures
        r.val() == sub_mod(a.val() as int, b.val() as int),
{
    let x = Scalar::from_bytes(&a.bytes).unwrap();
    let y = Scalar::from_bytes(&b.bytes).unwrap();
    Fr { bytes: x.sub(&y).to_bytes() }
}

/// Relies on `Scalar::mul`: multiplication modulo the field order.
#[verifier::external_body]
pub(crate) fn fr_mul(a: &Fr, b: &Fr) -> (r: Fr)
    ensures
        r.val() == mul_mod(a.val() as int, b.val() as int),
{
    let x = Scalar::from_bytes(&a.bytes).unwrap();
    let y = Scalar::from_bytes(&b.bytes).unwrap();
    Fr { bytes: x.mul(&y).to_bytes() }
}

/// Relies on `Scalar::square`.
#[verifier::external_body]
pub(crate) fn fr_square(a: &Fr) -> (r: Fr)
    ensures
        r.val() == mul_mod(a.val() as int, a.val() as int),
{
    let x = Scalar::from_bytes(&a.bytes).unwrap();
    Fr { bytes: x.square().to_bytes() }
}

/// Relies on `Scalar::pow_vartime`, here with a 64-bit exponent.
#[verifier::external_body]
pub(crate) fn fr_pow(a: &Fr, e: u64) -> (r: Fr)
    ensures
        r.val() == pow_mod(a.val() as int, e as nat),
{
    let x = Scalar::from_bytes(&a.bytes).unwrap();
    Fr { bytes: x.pow_vartime(&[e, 0, 0, 0]).to_bytes() }
}

/// Relies on `ff::Field::invert`: the inverse, or nothing for zero.
#[verifier::external_body]
pub(crate) fn fr_invert(a: &Fr) -> (r: Option<Fr>)
    ensures
        r is Some <==> a.val() != 0,
        r is Some ==> mul_mod(a.val() as int, r.unwrap().val() as int) == 1,
        r is Some ==> r.unwrap().val() == inv_mod(a.val() as int),
{
    let x = Scalar::from_bytes(&a.bytes).unwrap();
    Option::<Scalar>::from(ff::Field::invert(&x)).map(|y| Fr { bytes: y.to_bytes() })
}

/// Relies on `ff::PrimeField::ROOT_OF_UNITY`, documented in `bls12_381` as
/// `GENERATOR^t` with `t * 2^S + 1 = q`, `t` odd, and 7 as a generator of
/// the whole multiplicative group: the root has order exactly `2^S`, so its
/// power `2^(S-1)` is the element of order two, `-1`.
#[verifier::external_body]
pub(crate) fn fr_root_of_unity() -> (r: Fr)
    ensures
        r.val() == root_of_unity(),
        pow_mod(r.val() as int, pow2((two_adicity() - 1) as nat)) == modulus() - 1,
{
    Fr { bytes: <Scalar as ff::PrimeField>::ROOT_OF_UNITY.to_bytes() }
}

/// Relies on `ff::PrimeField::S`: the two-adicity of the field.
#[verifier::external_body]
pub(crate) fn fr_two_adicity() -> (r: u32)
    ensures
        r == two_adicity(),
{
    <Scalar as ff::PrimeField>::S
}

/// Relies on `ff::PrimeField::MULTIPLICATIVE_GENERATOR`, which is 7 for this field.
#[verifier::external_body]
pub(crate) fn fr_generator() -> (r: Fr)
    ensures
        r.val() == 7,
{
    Fr { bytes: <Scalar as ff::PrimeField>::MULTIPLICATIVE_GENERATOR.to_bytes() }
}

} // verus!
