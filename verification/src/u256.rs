//! Unsigned 256-bit integers held as four little-endian 64-bit limbs.
use vstd::arithmetic::power::pow;
use vstd::arithmetic::power2::pow2;
use vstd::prelude::*;

verus! {

/// 2^64
pub open spec fn b1() -> nat {
    0x1_0000_0000_0000_0000nat
}

/// 2^128
pub open spec fn b2() -> nat {
    0x1_0000_0000_0000_0000_0000_0000_0000_0000nat
}

/// 2^192
pub open spec fn b3() -> nat {
    0x1_0000_0000_0000_0000_0000_0000_0000_0000_0000_0000_0000_0000nat
}

/// 2^256
pub open spec fn b4() -> nat {
    0x1_0000_0000_0000_0000_0000_0000_0000_0000_0000_0000_0000_0000_0000_0000_0000_0000nat
}

/// The number that four little-endian limbs stand for.
pub open spec fn limbs_value(l: [u64; 4]) -> nat {
    l[0] as nat + l[1] as nat * b1() + l[2] as nat * b2() + l[3] as nat * b3()
}

/// An unsigned 256-bit integer.
#[derive(Clone, Copy, Debug, PartialEq, Eq, Structural)]
pub struct U256 {
    pub l0: u64,
    pub l1: u64,
    pub l2: u64,
    pub l3: u64,
}

impl View for U256 {
    type V = nat;

    open spec fn view(&self) -> nat {
        limbs_value(self.spec_limbs())
    }
}

pub proof fn lemma_value_bound(l: [u64; 4])
    ensures
        limbs_value(l) < b4(),
{
}

impl U256 {
    pub open spec fn spec_limbs(&self) -> [u64; 4] {
        [self.l0, self.l1, self.l2, self.l3]
    }

    pub fn from_limbs(limbs: [u64; 4]) -> (r: U256)
        ensures
            r.spec_limbs() == limbs,
            r@ == limbs_value(limbs),
    {
        U256 { l0: limbs[0], l1: limbs[1], l2: limbs[2], l3: limbs[3] }
    }

    #[verifier::when_used_as_spec(spec_limbs)]
    pub fn limbs(&self) -> (r: [u64; 4])
        ensures
            r == self.spec_limbs(),
    {
        [self.l0, self.l1, self.l2, self.l3]
    }

    pub fn from_u64(v: u64) -> (r: U256)
        ensures
            r@ == v,
    {
        U256 { l0: v, l1: 0, l2: 0, l3: 0 }
    }

    pub fn zero() -> (r: U256)
        ensures
            r@ == 0,
    {
        U256 { l0: 0, l1: 0, l2: 0, l3: 0 }
    }

    pub fn is_zero(&self) -> (b: bool)
        ensures
            b == (self@ == 0),
    {
        self.l0 == 0 && self.l1 == 0 && self.l2 == 0 && self.l3 == 0
    }

    /// Whether `self < other`, compared limb by limb from the top.
    pub fn lt(&self, other: &U256) -> (b: bool)
        ensures
            b == (self@ < other@),
    {
        if self.l3 != other.l3 {
            self.l3 < other.l3
        } else if self.l2 != other.l2 {
            self.l2 < other.l2
        } else if self.l1 != other.l1 {
            self.l1 < other.l1
        } else {
            self.l0 < other.l0
        }
    }
}


/// The integer below 2^256 whose limbs are `n`'s base-2^64 digits.
pub open spec fn u256_of(n: nat) -> U256 {
    U256 {
        l0: (n % b1()) as u64,
        l1: ((n / b1()) % b1()) as u64,
        l2: ((n / b2()) % b1()) as u64,
        l3: ((n / b3()) % b1()) as u64,
    }
}

/// The limbs of a `U256` are the base-2^64 digits of its value.
pub proof fn lemma_limbs_of_value(x: U256)
    ensures
        u256_of(x@) == x,
{
    let n = x@;
    let q1 = x.l1 + x.l2 * b1() + x.l3 * b2();
    let q2 = x.l2 + x.l3 * b1();
    vstd::arithmetic::div_mod::lemma_fundamental_div_mod_converse(n as int, b1() as int, q1 as int, x.l0 as int);
    vstd::arithmetic::div_mod::lemma_fundamental_div_mod_converse(q1 as int, b1() as int, q2 as int, x.l1 as int);
    vstd::arithmetic::div_mod::lemma_fundamental_div_mod_converse(q2 as int, b1() as int, x.l3 as int, x.l2 as int);
    vstd::arithmetic::div_mod::lemma_div_denominator(n as int, b1() as int, b1() as int);
    vstd::arithmetic::div_mod::lemma_div_denominator(n as int, b2() as int, b1() as int);
    vstd::arithmetic::div_mod::lemma_small_mod(x.l3 as nat, b1());
}

/// The digits of an integer below 2^256 stand for it.
pub proof fn lemma_u256_of_value(n: nat)
    requires
        n < b4(),
    ensures
        u256_of(n)@ == n,
{
    let x = u256_of(n);
    vstd::arithmetic::div_mod::lemma_fundamental_div_mod(n as int, b1() as int);
    vstd::arithmetic::div_mod::lemma_fundamental_div_mod((n / b1()) as int, b1() as int);
    vstd::arithmetic::div_mod::lemma_fundamental_div_mod((n / b2()) as int, b1() as int);
    vstd::arithmetic::div_mod::lemma_div_denominator(n as int, b1() as int, b1() as int);
    vstd::arithmetic::div_mod::lemma_div_denominator(n as int, b2() as int, b1() as int);
    vstd::arithmetic::div_mod::lemma_div_by_multiple_is_strongly_ordered(n as int, b4() as int, b1() as int, b3() as int);
    vstd::arithmetic::div_mod::lemma_small_mod((n / b3()) as nat, b1());
}

/// Bitwise and keeps a value at most the first operand.
pub proof fn lemma_bitand_le(a: nat, b: nat)
    requires
        a < b4(),
    ensures
        bitand_value(a, b) <= a,
{
    let x = u256_of(a);
    let y = u256_of(b);
    lemma_u256_of_value(a);
    lemma_and_le(x.l0, y.l0);
    lemma_and_le(x.l1, y.l1);
    lemma_and_le(x.l2, y.l2);
    lemma_and_le(x.l3, y.l3);
}

proof fn lemma_and_le(p: u64, q: u64)
    by (bit_vector)
    ensures
        p & q <= p,
{
}

proof fn lemma_limb_bits(p: u64, q: u64)
    by (bit_vector)
    ensures
        (p | q) + (p & q) == p + q,
        (p ^ q) + 2 * (p & q) == p + q,
        p & q <= p,
        p & q <= q,
        p | q >= p,
        p | q >= q,
        p & p == p,
{
}

/// Bitwise and, or and exclusive or of integers below 2^256: or and and add
/// up to the sum of the operands, exclusive or and twice and too; and is at
/// most either operand, or at least either, and the and of a value with
/// itself is the value.
pub proof fn lemma_bitwise_meaning(a: nat, b: nat)
    requires
        a < b4(),
        b < b4(),
    ensures
        bitor_value(a, b) + bitand_value(a, b) == a + b,
        bitxor_value(a, b) + 2 * bitand_value(a, b) == a + b,
        bitand_value(a, b) <= a,
        bitand_value(a, b) <= b,
        a <= bitor_value(a, b) < b4(),
        b <= bitor_value(a, b),
        bitand_value(a, a) == a,
{
    let x = u256_of(a);
    let y = u256_of(b);
    lemma_u256_of_value(a);
    lemma_u256_of_value(b);
    lemma_limb_bits(x.l0, y.l0);
    lemma_limb_bits(x.l1, y.l1);
    lemma_limb_bits(x.l2, y.l2);
    lemma_limb_bits(x.l3, y.l3);
    lemma_value_bound([x.l0 | y.l0, x.l1 | y.l1, x.l2 | y.l2, x.l3 | y.l3]);
}

/// Two `U256` with the same value are the same.
pub proof fn lemma_value_injective(x: U256, y: U256)
    requires
        x@ == y@,
    ensures
        x == y,
{
    lemma_limbs_of_value(x);
    lemma_limbs_of_value(y);
}

/// Bitwise or of two integers below 2^256, digit by digit.
pub open spec fn bitor_value(a: nat, b: nat) -> nat {
    let x = u256_of(a);
    let y = u256_of(b);
    limbs_value([x.l0 | y.l0, x.l1 | y.l1, x.l2 | y.l2, x.l3 | y.l3])
}

/// Bitwise and of two integers below 2^256, digit by digit.
pub open spec fn bitand_value(a: nat, b: nat) -> nat {
    let x = u256_of(a);
    let y = u256_of(b);
    limbs_value([x.l0 & y.l0, x.l1 & y.l1, x.l2 & y.l2, x.l3 & y.l3])
}

/// Bitwise exclusive or of two integers below 2^256, digit by digit.
pub open spec fn bitxor_value(a: nat, b: nat) -> nat {
    let x = u256_of(a);
    let y = u256_of(b);
    limbs_value([x.l0 ^ y.l0, x.l1 ^ y.l1, x.l2 ^ y.l2, x.l3 ^ y.l3])
}

/// The BN254 scalar field modulus, a prime.
pub open spec fn modulus() -> nat {
    21888242871839275222246405745257275088548364400416034343698204186575808495617nat
}

/// The largest value that the signed comparisons read as non-negative: `modulus() / 2`.
pub open spec fn half_modulus() -> nat {
    10944121435919637611123202872628637544274182200208017171849102093287904247808nat
}

/// The modulus as a `U256`.
pub fn modulus_u256() -> (r: U256)
    ensures
        r@ == modulus(),
{
    U256 { l0: 0x43e1f593f0000001, l1: 0x2833e84879b97091, l2: 0xb85045b68181585d, l3: 0x30644e72e131a029 }
}

/// Half the modulus, rounded down, as a `U256`.
pub fn half_modulus_u256() -> (r: U256)
    ensures
        r@ == half_modulus(),
{
    U256 { l0: 0xa1f0fac9f8000000, l1: 0x9419f4243cdcb848, l2: 0xdc2822db40c0ac2e, l3: 0x183227397098d014 }
}

/// `x` is an inverse of `a` modulo the field modulus, below it.
pub open spec fn is_field_inv(a: nat, x: nat) -> bool {
    x < modulus() && (a * x) % modulus() == 1
}

/// The multiplicative inverse of `a` modulo the field modulus, where there is one.
pub open spec fn field_inv(a: nat) -> nat {
    choose|x: nat| #[trigger] is_field_inv(a, x)
}

/// `(a - b) mod 2^256`
pub open spec fn wrapping_sub_value(a: nat, b: nat) -> nat {
    ((a as int - b as int) % (b4() as int)) as nat
}

impl U256 {
    pub fn from_bool(b: bool) -> (r: U256)
        ensures
            r@ == (if b { 1nat } else { 0nat }),
    {
        if b {
            U256 { l0: 1, l1: 0, l2: 0, l3: 0 }
        } else {
            U256 { l0: 0, l1: 0, l2: 0, l3: 0 }
        }
    }

    /// Limb-wise bitwise or.
    pub fn bitor(&self, other: &U256) -> (r: U256)
        ensures
            r.spec_limbs() == [self.l0 | other.l0, self.l1 | other.l1, self.l2 | other.l2, self.l3 | other.l3],
            r@ == bitor_value(self@, other@),
    {
        proof {
            lemma_limbs_of_value(*self);
            lemma_limbs_of_value(*other);
        }
        U256 { l0: self.l0 | other.l0, l1: self.l1 | other.l1, l2: self.l2 | other.l2, l3: self.l3 | other.l3 }
    }

    /// Limb-wise bitwise and.
    pub fn bitand(&self, other: &U256) -> (r: U256)
        ensures
            r.spec_limbs() == [self.l0 & other.l0, self.l1 & other.l1, self.l2 & other.l2, self.l3 & other.l3],
            r@ == bitand_value(self@, other@),
    {
        proof {
            lemma_limbs_of_value(*self);
            lemma_limbs_of_value(*other);
        }
        U256 { l0: self.l0 & other.l0, l1: self.l1 & other.l1, l2: self.l2 & other.l2, l3: self.l3 & other.l3 }
    }

    /// Limb-wise bitwise exclusive or.
    pub fn bitxor(&self, other: &U256) -> (r: U256)
        ensures
            r.spec_limbs() == [self.l0 ^ other.l0, self.l1 ^ other.l1, self.l2 ^ other.l2, self.l3 ^ other.l3],
            r@ == bitxor_value(self@, other@),
    {
        proof {
            lemma_limbs_of_value(*self);
            lemma_limbs_of_value(*other);
        }
        U256 { l0: self.l0 ^ other.l0, l1: self.l1 ^ other.l1, l2: self.l2 ^ other.l2, l3: self.l3 ^ other.l3 }
    }
}

/// `ruint::Uint::mul_mod`: the product reduced by `m`, and zero where `m` is zero.
#[verifier::external_body]
pub fn mul_mod(a: U256, b: U256, m: U256) -> (r: U256)
    ensures
        m@ == 0 ==> r@ == 0,
        m@ != 0 ==> r@ == (a@ * b@) % m@,
{
    let x = ruint::aliases::U256::from_limbs(a.limbs());
    let y = ruint::aliases::U256::from_limbs(b.limbs());
    let z = ruint::aliases::U256::from_limbs(m.limbs());
    U256::from_limbs(*x.mul_mod(y, z).as_limbs())
}

/// `ruint::Uint::add_mod`: the sum reduced by `m`, and zero where `m` is zero.
#[verifier::external_body]
pub fn add_mod(a: U256, b: U256, m: U256) -> (r: U256)
    ensures
        m@ == 0 ==> r@ == 0,
        m@ != 0 ==> r@ == (a@ + b@) % m@,
{
    let x = ruint::aliases::U256::from_limbs(a.limbs());
    let y = ruint::aliases::U256::from_limbs(b.limbs());
    let z = ruint::aliases::U256::from_limbs(m.limbs());
    U256::from_limbs(*x.add_mod(y, z).as_limbs())
}

/// `ruint::Uint::pow_mod`: `a` to the power `e`, reduced by `m`; zero where `m <= 1`.
#[verifier::external_body]
pub fn pow_mod(a: U256, e: U256, m: U256) -> (r: U256)
    ensures
        m@ <= 1 ==> r@ == 0,
        m@ > 1 ==> r@ == pow(a@ as int, e@) % (m@ as int),
{
    let x = ruint::aliases::U256::from_limbs(a.limbs());
    let y = ruint::aliases::U256::from_limbs(e.limbs());
    let z = ruint::aliases::U256::from_limbs(m.limbs());
    U256::from_limbs(*x.pow_mod(y, z).as_limbs())
}

/// `ruint::Uint::inv_mod`, here with the field modulus `m`: `None` where `a`
/// is a multiple of `m`, and otherwise (the modulus being prime) the inverse
/// of `a` modulo `m`, below `m`.
#[verifier::external_body]
pub fn inv_mod(a: U256, m: U256) -> (r: Option<U256>)
    requires
        m@ == modulus(),
    ensures
        a@ % m@ == 0 <==> r is None,
        r matches Some(x) ==> x@ < m@ && (a@ * x@) % m@ == 1,
{
    let x = ruint::aliases::U256::from_limbs(a.limbs());
    let z = ruint::aliases::U256::from_limbs(m.limbs());
    match x.inv_mod(z) {
        Some(v) => Some(U256::from_limbs(*v.as_limbs())),
        None => None,
    }
}

/// `ruint::Uint::div_rem`: quotient and remainder of `a` by a non-zero `b`.
#[verifier::external_body]
pub fn div_rem(a: U256, b: U256) -> (r: (U256, U256))
    requires
        b@ != 0,
    ensures
        r.0@ == a@ / b@,
        r.1@ == a@ % b@,
{
    let x = ruint::aliases::U256::from_limbs(a.limbs());
    let y = ruint::aliases::U256::from_limbs(b.limbs());
    let (q, m) = x.div_rem(y);
    (U256::from_limbs(*q.as_limbs()), U256::from_limbs(*m.as_limbs()))
}

/// `/` on `ruint::Uint`: the quotient of `a` by a non-zero `b`, rounded down.
#[verifier::external_body]
pub fn div(a: U256, b: U256) -> (r: U256)
    requires
        b@ != 0,
    ensures
        r@ == a@ / b@,
{
    let x = ruint::aliases::U256::from_limbs(a.limbs());
    let y = ruint::aliases::U256::from_limbs(b.limbs());
    U256::from_limbs(*(x / y).as_limbs())
}

/// `%` on `ruint::Uint`: the remainder of `a` by a non-zero `b`.
#[verifier::external_body]
pub fn rem(a: U256, b: U256) -> (r: U256)
    requires
        b@ != 0,
    ensures
        r@ == a@ % b@,
{
    let x = ruint::aliases::U256::from_limbs(a.limbs());
    let y = ruint::aliases::U256::from_limbs(b.limbs());
    U256::from_limbs(*(x % y).as_limbs())
}

/// `-` on `ruint::Uint`, which wraps: `(a - b) mod 2^256`.
#[verifier::external_body]
pub fn wrapping_sub(a: U256, b: U256) -> (r: U256)
    ensures
        r@ == wrapping_sub_value(a@, b@),
{
    let x = ruint::aliases::U256::from_limbs(a.limbs());
    let y = ruint::aliases::U256::from_limbs(b.limbs());
    U256::from_limbs(*(x - y).as_limbs())
}

/// `<<` by a `usize` on `ruint::Uint`: `(a * 2^n) mod 2^256`, zero from 256 bits on.
#[verifier::external_body]
pub fn shl(a: U256, n: usize) -> (r: U256)
    ensures
        r@ == (a@ * pow2(n as nat)) % b4(),
{
    let x = ruint::aliases::U256::from_limbs(a.limbs());
    U256::from_limbs(*(x << n).as_limbs())
}

/// `>>` by a `usize` on `ruint::Uint`: `a / 2^n`, rounded down.
#[verifier::external_body]
pub fn shr(a: U256, n: usize) -> (r: U256)
    ensures
        r@ == a@ / pow2(n as nat),
{
    let x = ruint::aliases::U256::from_limbs(a.limbs());
    U256::from_limbs(*(x >> n).as_limbs())
}

/// An inverse modulo the field modulus, where there is one, is unique below it.
pub proof fn lemma_field_inv_unique(a: nat, x: nat, y: nat)
    requires
        is_field_inv(a, x),
        is_field_inv(a, y),
    ensures
        x == y,
{
    let m = modulus() as int;
    vstd::arithmetic::div_mod::lemma_mul_mod_noop_right(x as int, (a * y) as int, m);
    vstd::arithmetic::div_mod::lemma_mul_mod_noop_left((x * a) as int, y as int, m);
    vstd::arithmetic::mul::lemma_mul_is_associative(x as int, a as int, y as int);
    vstd::arithmetic::mul::lemma_mul_is_commutative(x as int, a as int);
    vstd::arithmetic::div_mod::lemma_small_mod(x, modulus());
    vstd::arithmetic::div_mod::lemma_small_mod(y, modulus());
}

/// Where `x` is an inverse of `a`, it is the one that `field_inv` names.
pub proof fn lemma_field_inv_is(a: nat, x: nat)
    requires
        is_field_inv(a, x),
    ensures
        field_inv(a) == x,
{
    lemma_field_inv_unique(a, x, field_inv(a));
}

} // verus!
