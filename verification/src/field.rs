//! Elements of the BN254 scalar field, held by their canonical value below the
//! modulus; the field arithmetic itself is done by `ark_bn254`.
use crate::u256::{
    b4, field_inv, lemma_value_injective, modulus, modulus_u256, wrapping_sub_value, U256,
};
use ark_ff::BigInteger;
use ark_ff::PrimeField;
use vstd::arithmetic::power2::pow2;
use vstd::prelude::*;

verus! {

/// An element of the BN254 scalar field.
#[derive(Clone, Copy, Debug, PartialEq, Eq, Structural)]
pub struct Fr {
    value: U256,
}

impl View for Fr {
    type V = nat;

    /// The canonical value, below the modulus.
    closed spec fn view(&self) -> nat {
        self.value@
    }
}

/// `ark_bn254::Fr::new`, read back with `into_bigint`: the field element of any
/// integer below 2^256, which is that integer reduced by the modulus.
#[verifier::external_body]
fn ark_new(c: U256) -> (r: U256)
    ensures
        r@ == c@ % modulus(),
{
    let x = ark_bn254::Fr::new(ark_ff::BigInt::new(c.limbs()));
    U256::from_limbs(x.into_bigint().0)
}

/// `*` on `ark_bn254::Fr`: the product modulo the modulus.
#[verifier::external_body]
fn ark_mul(a: U256, b: U256) -> (r: U256)
    requires
        a@ < modulus(),
        b@ < modulus(),
    ensures
        r@ == (a@ * b@) % modulus(),
{
    let x = ark_bn254::Fr::new(ark_ff::BigInt::new(a.limbs()));
    let y = ark_bn254::Fr::new(ark_ff::BigInt::new(b.limbs()));
    U256::from_limbs((x * y).into_bigint().0)
}

/// `+` on `ark_bn254::Fr`: the sum modulo the modulus.
#[verifier::external_body]
fn ark_add(a: U256, b: U256) -> (r: U256)
    requires
        a@ < modulus(),
        b@ < modulus(),
    ensures
        r@ == (a@ + b@) % modulus(),
{
    let x = ark_bn254::Fr::new(ark_ff::BigInt::new(a.limbs()));
    let y = ark_bn254::Fr::new(ark_ff::BigInt::new(b.limbs()));
    U256::from_limbs((x + y).into_bigint().0)
}

/// `-` on `ark_bn254::Fr`: the difference modulo the modulus.
#[verifier::external_body]
fn ark_sub(a: U256, b: U256) -> (r: U256)
    requires
        a@ < modulus(),
        b@ < modulus(),
    ensures
        r@ == ((a@ as int - b@ as int) % (modulus() as int)) as nat,
{
    let x = ark_bn254::Fr::new(ark_ff::BigInt::new(a.limbs()));
    let y = ark_bn254::Fr::new(ark_ff::BigInt::new(b.limbs()));
    U256::from_limbs((x - y).into_bigint().0)
}

/// `/` on `ark_bn254::Fr` by a non-zero element: the product with the inverse,
/// which exists as the modulus is prime.
#[verifier::external_body]
fn ark_div(a: U256, b: U256) -> (r: U256)
    requires
        a@ < modulus(),
        0 < b@ < modulus(),
    ensures
        r@ == (a@ * field_inv(b@)) % modulus(),
{
    let x = ark_bn254::Fr::new(ark_ff::BigInt::new(a.limbs()));
    let y = ark_bn254::Fr::new(ark_ff::BigInt::new(b.limbs()));
    U256::from_limbs((x / y).into_bigint().0)
}

/// `ark_ff::BigInt::muln`: shift left by `n` bits, dropping what leaves the
/// 256 bits.
#[verifier::external_body]
pub(crate) fn ark_muln(a: U256, n: u32) -> (r: U256)
    ensures
        r@ == (a@ * pow2(n as nat)) % b4(),
{
    let mut x = ark_ff::BigInt::new(a.limbs());
    x.muln(n);
    U256::from_limbs(x.0)
}

/// `ark_ff::BigInt::sub_with_borrow`, keeping the difference: `(a - b) mod 2^256`.
#[verifier::external_body]
pub(crate) fn ark_sub_with_borrow(a: U256, b: U256) -> (r: U256)
    ensures
        r@ == wrapping_sub_value(a@, b@),
{
    let mut x = ark_ff::BigInt::new(a.limbs());
    x.sub_with_borrow(&ark_ff::BigInt::new(b.limbs()));
    U256::from_limbs(x.0)
}

impl Fr {
    #[verifier::type_invariant]
    spec fn below_modulus(self) -> bool {
        self.value@ < modulus()
    }

    /// The field element of an integer: the integer reduced by the modulus.
    pub fn new(c: U256) -> (r: Fr)
        ensures
            r@ == c@ % modulus(),
    {
        Fr { value: ark_new(c) }
    }

    /// The field element whose canonical value is `c`, where `c` is below the modulus.
    pub fn from_bigint(c: U256) -> (r: Option<Fr>)
        ensures
            r is Some <==> c@ < modulus(),
            r matches Some(f) ==> f@ == c@,
    {
        if c.lt(&modulus_u256()) {
            Some(Fr { value: c })
        } else {
            None
        }
    }

    /// The canonical value.
    pub fn into_bigint(&self) -> (r: U256)
        ensures
            r@ == self@,
            r@ < modulus(),
    {
        proof {
            use_type_invariant(self);
        }
        self.value
    }

    pub fn zero() -> (r: Fr)
        ensures
            r@ == 0,
    {
        Fr { value: U256::zero() }
    }

    pub fn one() -> (r: Fr)
        ensures
            r@ == 1,
    {
        Fr { value: U256::from_u64(1) }
    }

    pub fn from_u64(v: u64) -> (r: Fr)
        ensures
            r@ == v,
    {
        Fr { value: U256::from_u64(v) }
    }

    pub fn is_zero(&self) -> (b: bool)
        ensures
            b == (self@ == 0),
    {
        self.value.is_zero()
    }

    /// Whether the canonical values are equal.
    pub fn equals(&self, other: &Fr) -> (b: bool)
        ensures
            b == (self@ == other@),
    {
        proof {
            if self@ == other@ {
                lemma_value_injective(self.value, other.value);
            }
        }
        self.value == other.value
    }

    /// Whether the canonical value of `self` is below that of `other`.
    pub fn lt(&self, other: &Fr) -> (b: bool)
        ensures
            b == (self@ < other@),
    {
        self.value.lt(&other.value)
    }

    pub fn mul(&self, other: &Fr) -> (r: Fr)
        ensures
            r@ == (self@ * other@) % modulus(),
    {
        proof {
            use_type_invariant(self);
            use_type_invariant(other);
        }
        Fr { value: ark_mul(self.value, other.value) }
    }

    pub fn add(&self, other: &Fr) -> (r: Fr)
        ensures
            r@ == (self@ + other@) % modulus(),
    {
        proof {
            use_type_invariant(self);
            use_type_invariant(other);
        }
        Fr { value: ark_add(self.value, other.value) }
    }

    pub fn sub(&self, other: &Fr) -> (r: Fr)
        ensures
            r@ == ((self@ as int - other@ as int) % (modulus() as int)) as nat,
    {
        proof {
            use_type_invariant(self);
            use_type_invariant(other);
        }
        Fr { value: ark_sub(self.value, other.value) }
    }

    /// Division by a non-zero element.
    pub fn div(&self, other: &Fr) -> (r: Fr)
        requires
            other@ != 0,
        ensures
            r@ == (self@ * field_inv(other@)) % modulus(),
    {
        proof {
            use_type_invariant(self);
            use_type_invariant(other);
        }
        Fr { value: ark_div(self.value, other.value) }
    }
}

} // verus!
