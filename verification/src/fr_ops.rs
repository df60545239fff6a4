//! The operations of graph nodes evaluated on field elements, as the graph
//! evaluates them once it is in Montgomery form.
use crate::field::{ark_sub_with_borrow, Fr};
use crate::ops::{bool_value, signed, op_defined, op_value, signed_lt, tres_value, uno_value, u_gt, u_gte, u_lt, u_lte, Operation, TresOperation, UnoOperation};
use crate::u256::{
    b1, b2, b3, b4, bitand_value, bitor_value, bitxor_value, div, field_inv, is_field_inv, lemma_bitand_le, limbs_value, modulus,
    modulus_u256, rem, U256,
};
use vstd::arithmetic::power2::pow2;
use vstd::prelude::*;

verus! {

/// A limb split at bit `n`: high part times `2^n` plus the low part.
proof fn lemma_limb_split(x: u64, n: u64)
    by (bit_vector)
    requires
        0 < n < 64,
    ensures
        x == (x >> n) * (1u64 << n) + (x & (((1u64 << n) - 1) as u64)),
        (x & (((1u64 << n) - 1) as u64)) < (1u64 << n),
{
}

/// Joining the high part of one limb with the low part of the next.
proof fn lemma_limb_join(x: u64, y: u64, n: u64)
    by (bit_vector)
    requires
        0 < n < 64,
    ensures
        ((x >> n) | ((y & (((1u64 << n) - 1) as u64)) << ((64 - n) as u64))) == (x >> n) + (y & (((1u64
            << n) - 1) as u64)) * (1u64 << ((64 - n) as u64)),
        (1u64 << n) * (1u64 << ((64 - n) as u64)) == 0x1_0000_0000_0000_0000int,
        (x >> n) < (1u64 << ((64 - n) as u64)),
{
}

/// Shifting four limbs right by `0 < n < 64` bits, each limb taking the low
/// bits of the next one into its top, divides the value by `2^n`.
proof fn lemma_shift_limbs_right(o: [u64; 4], r: [u64; 4], n: u64)
    requires
        0 < n < 64,
        r[3] == o[3] >> n,
        forall|j: int|
            0 <= j < 3 ==> #[trigger] r[j] == (o[j] >> n) | ((o[j + 1] & (((1u64 << n) - 1) as u64))
                << ((64 - n) as u64)),
    ensures
        limbs_value(r) == limbs_value(o) / pow2(n as nat),
{
    let mask = ((1u64 << n) - 1) as u64;
    lemma_limb_split(o[0], n);
    lemma_limb_split(o[1], n);
    lemma_limb_split(o[2], n);
    lemma_limb_split(o[3], n);
    lemma_limb_join(o[0], o[1], n);
    lemma_limb_join(o[1], o[2], n);
    lemma_limb_join(o[2], o[3], n);
    assert(r[0] == (o[0] >> n) | ((o[1] & mask) << ((64 - n) as u64)));
    assert(r[1] == (o[1] >> n) | ((o[2] & mask) << ((64 - n) as u64)));
    assert(r[2] == (o[2] >> n) | ((o[3] & mask) << ((64 - n) as u64)));
    let p: int = (1u64 << n) as int;
    let q: int = (1u64 << ((64 - n) as u64)) as int;
    let h0: int = (o[0] >> n) as int;
    let h1: int = (o[1] >> n) as int;
    let h2: int = (o[2] >> n) as int;
    let h3: int = (o[3] >> n) as int;
    let l0: int = (o[0] & mask) as int;
    let l1: int = (o[1] & mask) as int;
    let l2: int = (o[2] & mask) as int;
    let l3: int = (o[3] & mask) as int;
    let vr = limbs_value(r) as int;
    let vo = limbs_value(o) as int;
    assert(vr == (h0 + l1 * q) + (h1 + l2 * q) * b1() + (h2 + l3 * q) * b2() + h3 * b3());
    assert(vo == (h0 * p + l0) + (h1 * p + l1) * b1() + (h2 * p + l2) * b2() + (h3 * p + l3) * b3());
    let t1 = l1 * q;
    let t2 = l2 * q;
    let t3 = l3 * q;
    assert(t1 * p == l1 * b1() && t2 * p == l2 * b1() && t3 * p == l3 * b1()) by {
        vstd::arithmetic::mul::lemma_mul_is_associative(l1, q, p);
        vstd::arithmetic::mul::lemma_mul_is_associative(l2, q, p);
        vstd::arithmetic::mul::lemma_mul_is_associative(l3, q, p);
        vstd::arithmetic::mul::lemma_mul_is_commutative(q, p);
    }
    let s0 = h0 + t1;
    let s1 = h1 + t2;
    let s2 = h2 + t3;
    assert(s0 * p == h0 * p + l1 * b1()) by {
        vstd::arithmetic::mul::lemma_mul_is_distributive_add_other_way(p, h0, t1);
    }
    assert(s1 * p == h1 * p + l2 * b1()) by {
        vstd::arithmetic::mul::lemma_mul_is_distributive_add_other_way(p, h1, t2);
    }
    assert(s2 * p == h2 * p + l3 * b1()) by {
        vstd::arithmetic::mul::lemma_mul_is_distributive_add_other_way(p, h2, t3);
    }
    assert(vr == s0 + s1 * b1() + s2 * b2() + h3 * b3());
    assert(vr * p == s0 * p + (s1 * p) * b1() + (s2 * p) * b2() + (h3 * p) * b3()) by (nonlinear_arith)
        requires
            vr == s0 + s1 * b1() + s2 * b2() + h3 * b3(),
    ;
    vstd::arithmetic::div_mod::lemma_fundamental_div_mod_converse(vo, p, vr, l0);
    vstd::bits::lemma_u64_pow2_no_overflow(n as nat);
    vstd::bits::lemma_u64_shl_is_mul(1u64, n);
}

/// The bit size of the modulus.
pub const MODULUS_BIT_SIZE: u64 = 254;

/// Where `fr_shl` is defined: a shift of at least one and below
/// `MODULUS_BIT_SIZE` bits must leave a value below the modulus.
pub open spec fn fr_shl_defined(a: nat, b: nat) -> bool {
    b == 0 || b >= 254 || (a * pow2(b)) % b4() < modulus()
}

/// What `shl` computes on field elements: `a` for a zero shift, zero from
/// `MODULUS_BIT_SIZE` bits on, and else `a * 2^b` cut to 256 bits.
pub open spec fn fr_shl_value(a: nat, b: nat) -> nat {
    if b == 0 {
        a
    } else if b >= 254 {
        0
    } else {
        (a * pow2(b)) % b4()
    }
}

/// What `shr` computes on field elements: zero from `MODULUS_BIT_SIZE` bits
/// on, and else `a / 2^b`.
pub open spec fn fr_shr_value(a: nat, b: nat) -> nat {
    if b >= 254 {
        0
    } else {
        a / pow2(b)
    }
}

/// A bitwise result above the modulus has the modulus taken off once.
pub open spec fn reduce_once(d: nat) -> nat {
    if d > modulus() {
        (d - modulus()) as nat
    } else {
        d
    }
}

/// The inputs on which `Operation::eval_fr` is defined: `Pow` has no
/// field-element evaluation, a left shift must stay below the modulus, and a
/// bitwise or / exclusive or, reduced once, must be below the modulus.
pub open spec fn fr_op_defined(op: Operation, a: nat, b: nat) -> bool {
    match op {
        Operation::Pow => false,
        Operation::Shl => fr_shl_defined(a, b),
        Operation::Bor => reduce_once(bitor_value(a, b)) < modulus(),
        Operation::Bxor => reduce_once(bitxor_value(a, b)) < modulus(),
        _ => true,
    }
}

/// What `Operation::eval_fr` computes on canonical values below the modulus.
pub open spec fn fr_op_value(op: Operation, a: nat, b: nat) -> nat {
    let m = modulus();
    match op {
        Operation::Mul => (a * b) % m,
        Operation::Div => if b == 0 {
            0
        } else {
            (a * field_inv(b)) % m
        },
        Operation::Add => (a + b) % m,
        Operation::Sub => ((a as int - b as int) % (m as int)) as nat,
        Operation::Pow => 0,
        Operation::Idiv => if b == 0 {
            0
        } else {
            a / b
        },
        Operation::Mod => if b == 0 {
            0
        } else {
            a % b
        },
        Operation::Eq => bool_value(a == b),
        Operation::Neq => bool_value(a != b),
        Operation::Lt => bool_value(signed_lt(a, b)),
        Operation::Gt => bool_value(signed_lt(b, a)),
        Operation::Leq => bool_value(!signed_lt(b, a)),
        Operation::Geq => bool_value(!signed_lt(a, b)),
        Operation::Land => bool_value(a != 0 && b != 0),
        Operation::Lor => bool_value(a != 0 || b != 0),
        Operation::Shl => fr_shl_value(a, b),
        Operation::Shr => fr_shr_value(a, b),
        Operation::Bor => reduce_once(bitor_value(a, b)),
        Operation::Band => reduce_once(bitand_value(a, b)),
        Operation::Bxor => reduce_once(bitxor_value(a, b)),
    }
}

/// What `UnoOperation::eval_fr` computes: the field negation, or the identity.
pub open spec fn fr_uno_value(op: UnoOperation, a: nat) -> nat {
    match op {
        UnoOperation::Neg => if a == 0 {
            0
        } else {
            (modulus() - a) as nat
        },
        UnoOperation::Id => a,
    }
}

/// What `TresOperation::eval_fr` computes.
pub open spec fn fr_tres_value(op: TresOperation, a: nat, b: nat, c: nat) -> nat {
    match op {
        TresOperation::TernCond => if a == 0 {
            c
        } else {
            b
        },
    }
}

/// A value below 256 is its lowest limb.
proof fn lemma_small_is_low_limb(x: U256)
    requires
        x@ < 256,
    ensures
        x.l0 == x@,
{
}

/// Left shift of a field element by another, as an integer; see `fr_shl_value`.
pub fn shl(a: Fr, b: Fr) -> (r: Fr)
    requires
        fr_shl_defined(a@, b@),
    ensures
        r@ == fr_shl_value(a@, b@),
{
    if b.is_zero() {
        return a;
    }
    if !b.lt(&Fr::from_u64(MODULUS_BIT_SIZE)) {
        return Fr::zero();
    }
    let bb = b.into_bigint();
    proof {
        lemma_small_is_low_limb(bb);
    }
    let n = bb.l0 as u32;
    let shifted = crate::field::ark_muln(a.into_bigint(), n);
    Fr::from_bigint(shifted).unwrap()
}

/// Dropping the lowest limb divides the value by 2^64.
proof fn lemma_drop_low_limb(o: [u64; 4], c: [u64; 4])
    requires
        c[0] == o[1],
        c[1] == o[2],
        c[2] == o[3],
        c[3] == 0,
    ensures
        limbs_value(c) == limbs_value(o) / pow2(64),
{
    vstd::arithmetic::power2::lemma2_to64();
    vstd::arithmetic::div_mod::lemma_fundamental_div_mod_converse(
        limbs_value(o) as int,
        b1() as int,
        limbs_value(c) as int,
        o[0] as int,
    );
}

/// `x / 2^s / 2^64 == x / 2^(s + 64)`
proof fn lemma_div_pow2_step(x: nat, s: nat)
    ensures
        x / pow2(s) / pow2(64) == x / pow2(s + 64),
{
    vstd::arithmetic::power2::lemma_pow2_pos(s);
    vstd::arithmetic::power2::lemma_pow2_pos(64);
    vstd::arithmetic::power2::lemma_pow2_adds(s, 64);
    vstd::arithmetic::div_mod::lemma_div_denominator(x as int, pow2(s) as int, pow2(64) as int);
}

/// Right shift of a field element by another, as an integer; see `fr_shr_value`.
pub fn shr(a: Fr, b: Fr) -> (r: Fr)
    ensures
        r@ == fr_shr_value(a@, b@),
{
    proof {
        vstd::arithmetic::power2::lemma2_to64();
    }
    if b.is_zero() {
        proof {
            vstd::arithmetic::div_mod::lemma_div_basics(a@ as int);
        }
        return a;
    }
    if !b.lt(&Fr::from_u64(MODULUS_BIT_SIZE)) {
        return Fr::zero();
    }
    let bb = b.into_bigint();
    let low = bb.l0;
    proof {
        lemma_small_is_low_limb(bb);
        assert((low as u8) == low) by (bit_vector)
            requires
                low < 256,
        ;
    }
    let mut n: u8 = low as u8;
    let av = a.into_bigint();
    proof {
        vstd::arithmetic::div_mod::lemma_div_basics(av@ as int);
    }
    let mut c: [u64; 4] = av.limbs();
    while n >= 64
        invariant
            n <= b@ < 254,
            limbs_value(c) == av@ / pow2((b@ - n) as nat),
        decreases n,
    {
        let ghost before = c;
        for i in 0..3
            invariant
                forall|j: int| 0 <= j < i ==> c[j] == before[j + 1],
                forall|j: int| i <= j < 4 ==> c[j] == before[j],
        {
            c[i] = c[i + 1];
        }
        c[3] = 0;
        proof {
            lemma_drop_low_limb(before, c);
            lemma_div_pow2_step(av@, (b@ - n) as nat);
        }
        n -= 64;
    }
    proof {
        vstd::arithmetic::power2::lemma_pow2_pos((b@ - n) as nat);
        vstd::arithmetic::div_mod::lemma_div_nonincreasing(av@ as int, pow2((b@ - n) as nat) as int);
    }
    if n == 0 {
        return Fr::from_bigint(U256::from_limbs(c)).unwrap();
    }
    let ghost o = c;
    proof {
        assert(1u64 << n >= 1) by (bit_vector)
            requires
                n < 64,
        ;
    }
    let mask: u64 = (1u64 << n) - 1;
    let mut carrier: u64 = c[3] & mask;
    c[3] = c[3] >> n;
    let mut i: usize = 3;
    while i > 0
        invariant
            0 < n < 64,
            mask == ((1u64 << n) - 1) as u64,
            i <= 3,
            c[3] == o[3] >> n,
            forall|j: int|
                i <= j < 3 ==> #[trigger] c[j] == (o[j] >> n) | ((o[j + 1] & (((1u64 << n) - 1) as u64))
                    << ((64 - n) as u64)),
            forall|j: int| 0 <= j < i ==> c[j] == o[j],
            carrier == o[i as int] & mask,
        decreases i,
    {
        i -= 1;
        let new_carrier = c[i] & mask;
        c[i] = (c[i] >> n) | (carrier << (64 - n));
        carrier = new_carrier;
    }
    proof {
        lemma_shift_limbs_right(o, c, n as u64);
        vstd::arithmetic::power2::lemma_pow2_adds((b@ - n) as nat, n as nat);
        vstd::arithmetic::power2::lemma_pow2_pos(n as nat);
        vstd::arithmetic::div_mod::lemma_div_denominator(
            av@ as int,
            pow2((b@ - n) as nat) as int,
            pow2(n as nat) as int,
        );
        vstd::arithmetic::div_mod::lemma_div_nonincreasing(limbs_value(o) as int, pow2(n as nat) as int);
    }
    Fr::from_bigint(U256::from_limbs(c)).unwrap()
}

/// A bitwise result below `2^256`, with the modulus taken off where it is
/// above it, as a field element.
fn reduce_bits(d: U256) -> (r: Fr)
    requires
        reduce_once(d@) < modulus(),
    ensures
        r@ == reduce_once(d@),
{
    let m = modulus_u256();
    let mut e = d;
    if m.lt(&d) {
        e = ark_sub_with_borrow(d, m);
        proof {
            crate::u256::lemma_value_bound(d.spec_limbs());
            vstd::arithmetic::div_mod::lemma_small_mod((d@ - modulus()) as nat, b4());
        }
    }
    Fr::from_bigint(e).unwrap()
}

/// Bitwise and of the canonical values, with the modulus taken off once
/// where the result is above it.
pub fn bit_and(a: Fr, b: Fr) -> (r: Fr)
    ensures
        r@ == reduce_once(bitand_value(a@, b@)),
{
    let x = a.into_bigint();
    let y = b.into_bigint();
    let d = x.bitand(&y);
    proof {
        lemma_bitand_le(x@, y@);
    }
    reduce_bits(d)
}

/// Bitwise or of the canonical values, with the modulus taken off once
/// where the result is above it; the result must then be below the modulus.
pub fn bit_or(a: Fr, b: Fr) -> (r: Fr)
    requires
        reduce_once(bitor_value(a@, b@)) < modulus(),
    ensures
        r@ == reduce_once(bitor_value(a@, b@)),
{
    let x = a.into_bigint();
    let y = b.into_bigint();
    reduce_bits(x.bitor(&y))
}

/// Bitwise exclusive or of the canonical values, with the modulus taken off
/// once where the result is above it; the result must then be below the modulus.
pub fn bit_xor(a: Fr, b: Fr) -> (r: Fr)
    requires
        reduce_once(bitxor_value(a@, b@)) < modulus(),
    ensures
        r@ == reduce_once(bitxor_value(a@, b@)),
{
    let x = a.into_bigint();
    let y = b.into_bigint();
    reduce_bits(x.bitxor(&y))
}

impl Operation {
    /// Applies the operation to two field elements: field arithmetic for
    /// `Mul`, `Div`, `Add` and `Sub`, where division by zero gives zero;
    /// integer division and remainder of the canonical values, zero where the
    /// divisor is zero; signed comparisons, logic, shifts and bitwise
    /// operations of the canonical values. `Pow` is not supported.
    pub fn eval_fr(&self, a: Fr, b: Fr) -> (r: Fr)
        requires
            fr_op_defined(*self, a@, b@),
        ensures
            r@ == fr_op_value(*self, a@, b@),
    {
        match self {
            Operation::Mul => a.mul(&b),
            // We always should return something on the circuit execution.
            // So in case of division by 0 we would return 0. And the proof
            // should be invalid in the end.
            Operation::Div => {
                if b.is_zero() {
                    Fr::zero()
                } else {
                    a.div(&b)
                }
            },
            Operation::Add => a.add(&b),
            Operation::Sub => a.sub(&b),
            Operation::Idiv => {
                if b.is_zero() {
                    Fr::zero()
                } else {
                    let x = a.into_bigint();
                    let y = b.into_bigint();
                    proof {
                        vstd::arithmetic::div_mod::lemma_div_nonincreasing(x@ as int, y@ as int);
                        vstd::arithmetic::div_mod::lemma_small_mod(x@ / y@, modulus());
                    }
                    Fr::new(div(x, y))
                }
            },
            Operation::Mod => {
                if b.is_zero() {
                    Fr::zero()
                } else {
                    let x = a.into_bigint();
                    let y = b.into_bigint();
                    proof {
                        vstd::arithmetic::div_mod::lemma_mod_decreases(x@, y@);
                        vstd::arithmetic::div_mod::lemma_small_mod(x@ % y@, modulus());
                    }
                    Fr::new(rem(x, y))
                }
            },
            Operation::Eq => {
                if a.equals(&b) {
                    Fr::one()
                } else {
                    Fr::zero()
                }
            },
            Operation::Neq => {
                if a.equals(&b) {
                    Fr::zero()
                } else {
                    Fr::one()
                }
            },
            Operation::Lt => Fr::new(u_lt(&a.into_bigint(), &b.into_bigint())),
            Operation::Gt => Fr::new(u_gt(&a.into_bigint(), &b.into_bigint())),
            Operation::Leq => Fr::new(u_lte(&a.into_bigint(), &b.into_bigint())),
            Operation::Geq => Fr::new(u_gte(&a.into_bigint(), &b.into_bigint())),
            Operation::Land => {
                if a.is_zero() || b.is_zero() {
                    Fr::zero()
                } else {
                    Fr::one()
                }
            },
            Operation::Lor => {
                if a.is_zero() && b.is_zero() {
                    Fr::zero()
                } else {
                    Fr::one()
                }
            },
            Operation::Shl => shl(a, b),
            Operation::Shr => shr(a, b),
            Operation::Bor => bit_or(a, b),
            Operation::Band => bit_and(a, b),
            Operation::Bxor => bit_xor(a, b),
            Operation::Pow => {
                proof {
                    assert(false);
                }
                Fr::zero()
            },
        }
    }
}

impl Operation {
    /// Whether `eval_fr` is defined on these operands (see `fr_op_defined`).
    pub fn is_defined_fr(&self, a: &Fr, b: &Fr) -> (r: bool)
        ensures
            r == fr_op_defined(*self, a@, b@),
    {
        match self {
            Operation::Pow => false,
            Operation::Shl => {
                if b.is_zero() || !b.lt(&Fr::from_u64(MODULUS_BIT_SIZE)) {
                    true
                } else {
                    let bb = b.into_bigint();
                    proof {
                        lemma_small_is_low_limb(bb);
                    }
                    let shifted = crate::field::ark_muln(a.into_bigint(), bb.l0 as u32);
                    shifted.lt(&modulus_u256())
                }
            },
            Operation::Bor => below_after_reduce(a.into_bigint().bitor(&b.into_bigint())),
            Operation::Bxor => below_after_reduce(a.into_bigint().bitxor(&b.into_bigint())),
            _ => true,
        }
    }
}

/// Whether `reduce_once(d@)` is below the modulus.
fn below_after_reduce(d: U256) -> (r: bool)
    ensures
        r == (reduce_once(d@) < modulus()),
{
    let m = modulus_u256();
    if m.lt(&d) {
        let e = ark_sub_with_borrow(d, m);
        proof {
            crate::u256::lemma_value_bound(d.spec_limbs());
            vstd::arithmetic::div_mod::lemma_small_mod((d@ - modulus()) as nat, b4());
        }
        e.lt(&m)
    } else {
        d.lt(&m)
    }
}

impl UnoOperation {
    /// Applies the operation to a field element: negation (`0` stays `0`,
    /// otherwise `modulus - a`) or the identity.
    pub fn eval_fr(&self, a: Fr) -> (r: Fr)
        ensures
            r@ == fr_uno_value(*self, a@),
    {
        match self {
            UnoOperation::Neg => {
                if a.is_zero() {
                    Fr::zero()
                } else {
                    let x = a.into_bigint();
                    let d = ark_sub_with_borrow(modulus_u256(), x);
                    proof {
                        vstd::arithmetic::div_mod::lemma_small_mod((modulus() - x@) as nat, b4());
                    }
                    Fr::from_bigint(d).unwrap()
                }
            },
            UnoOperation::Id => a,
        }
    }
}

impl TresOperation {
    /// Applies the operation to three field elements: `c` where `a` is zero, else `b`.
    pub fn eval_fr(&self, a: Fr, b: Fr, c: Fr) -> (r: Fr)
        ensures
            r@ == fr_tres_value(*self, a@, b@, c@),
    {
        match self {
            TresOperation::TernCond => {
                if a.is_zero() {
                    c
                } else {
                    b
                }
            },
        }
    }
}

/// On field values, the field-element evaluation of an operation agrees with
/// its evaluation on 256-bit integers, reduced by the modulus, wherever both
/// are defined; `Pow` has no field-element evaluation, and left shifts by
/// `MODULUS_BIT_SIZE` bits or more are left out, as the field-element
/// evaluation takes them to zero.
pub proof fn lemma_eval_fr_agrees(op: Operation, a: nat, b: nat)
    requires
        a < modulus(),
        b < modulus(),
        op_defined(op, a, b),
        fr_op_defined(op, a, b),
        !(op == Operation::Shl && b >= 254),
    ensures
        fr_op_value(op, a, b) == op_value(op, a, b) % modulus(),
{
    let m = modulus();
    match op {
        Operation::Mul | Operation::Add | Operation::Div => {
            vstd::arithmetic::div_mod::lemma_mod_twice(op_value(op, a, b) as int, m as int);
        },
        Operation::Sub => {
            vstd::arithmetic::div_mod::lemma_small_mod((m - b) as nat, b4());
            vstd::arithmetic::div_mod::lemma_mod_twice((a + (m - b)) as int, m as int);
            vstd::arithmetic::div_mod::lemma_mod_add_multiples_vanish(a - b, m as int);
        },
        Operation::Idiv => {
            vstd::arithmetic::div_mod::lemma_div_nonincreasing(a as int, b as int);
            vstd::arithmetic::div_mod::lemma_small_mod(a / b, m);
        },
        Operation::Mod => {
            vstd::arithmetic::div_mod::lemma_mod_decreases(a, b);
            vstd::arithmetic::div_mod::lemma_small_mod(a % b, m);
        },
        Operation::Shl => {
            if b == 0 {
                vstd::arithmetic::power2::lemma2_to64();
                vstd::arithmetic::div_mod::lemma_small_mod(a, b4());
            }
            vstd::arithmetic::div_mod::lemma_small_mod(fr_shl_value(a, b), m);
        },
        Operation::Shr => {
            vstd::arithmetic::power2::lemma_pow2_pos(b);
            vstd::arithmetic::div_mod::lemma_div_nonincreasing(a as int, pow2(b) as int);
            vstd::arithmetic::div_mod::lemma_small_mod(a / pow2(b), m);
            if b >= 254 {
                lemma_below_pow2_254(a, b);
            }
        },
        Operation::Band => {
            lemma_bitand_le(a, b);
            vstd::arithmetic::div_mod::lemma_small_mod(bitand_value(a, b), m);
        },
        Operation::Bor => {
            lemma_reduce_once_mod(bitor_value(a, b));
        },
        Operation::Bxor => {
            lemma_reduce_once_mod(bitxor_value(a, b));
        },
        _ => {},
    }
}

/// `2^254`, which is above the modulus.
proof fn lemma_pow2_254()
    ensures
        pow2(254) == 0x4000000000000000000000000000000000000000000000000000000000000000nat,
        pow2(254) > modulus(),
{
    vstd::arithmetic::power2::lemma2_to64_rest();
    vstd::arithmetic::power2::lemma_pow2_adds(64, 64);
    vstd::arithmetic::power2::lemma_pow2_adds(128, 64);
    vstd::arithmetic::power2::lemma_pow2_adds(192, 62);
    vstd::arithmetic::power2::lemma2_to64();
    assert(pow2(62) == 0x4000000000000000) by {
        vstd::arithmetic::power2::lemma_pow2_adds(32, 30);
    }
}

/// A left shift by 254 or 255 bits, cut to 256 bits, is zero or at least
/// `2^254`, as it keeps only the top two bits.
proof fn lemma_shl_high(a: nat, b: nat)
    requires
        254 <= b < 256,
    ensures
        (a * pow2(b)) % b4() == 0 || (a * pow2(b)) % b4() >= pow2(254),
{
    let k = (b - 254) as nat;
    let p = pow2(254);
    lemma_pow2_254();
    vstd::arithmetic::power2::lemma_pow2_adds(254, k);
    vstd::arithmetic::power2::lemma_pow2_adds(254, 2);
    vstd::arithmetic::power2::lemma2_to64();
    vstd::arithmetic::power2::lemma_pow2_pos(k);
    let x = a * pow2(k);
    assert(a * pow2(b) == p * x) by {
        vstd::arithmetic::mul::lemma_mul_is_associative(a as int, p as int, pow2(k) as int);
        vstd::arithmetic::mul::lemma_mul_is_associative(p as int, a as int, pow2(k) as int);
        vstd::arithmetic::mul::lemma_mul_is_commutative(a as int, p as int);
    }
    assert(p * 4 == b4());
    vstd::arithmetic::div_mod::lemma_truncate_middle(x as int, p as int, 4);
    if x % 4 != 0 {
        vstd::arithmetic::mul::lemma_mul_inequality(1, (x % 4) as int, p as int);
        vstd::arithmetic::mul::lemma_mul_is_commutative(p as int, (x % 4) as int);
    }
}

/// On field values, wherever the evaluation of an operation on 256-bit
/// integers gives a field value and the field-element evaluation is defined,
/// the two agree exactly.
pub proof fn lemma_eval_fr_agrees_below(op: Operation, a: nat, b: nat)
    requires
        a < modulus(),
        b < modulus(),
        op_defined(op, a, b),
        fr_op_defined(op, a, b),
        op_value(op, a, b) < modulus(),
    ensures
        fr_op_value(op, a, b) == op_value(op, a, b),
{
    if op == Operation::Shl && b >= 254 {
        lemma_shl_high(a, b);
        lemma_pow2_254();
    } else {
        lemma_eval_fr_agrees(op, a, b);
        vstd::arithmetic::div_mod::lemma_small_mod(op_value(op, a, b), modulus());
    }
}

/// The field operations on field elements: product, sum and difference
/// reduced by the modulus; division by zero gives zero.
pub proof fn lemma_fr_arith_meaning(a: nat, b: nat)
    ensures
        fr_op_value(Operation::Mul, a, b) == (a * b) % modulus(),
        fr_op_value(Operation::Add, a, b) == (a + b) % modulus(),
        fr_op_value(Operation::Sub, a, b) == ((a - b) % (modulus() as int)) as nat,
        fr_op_value(Operation::Div, a, 0) == 0,
{
}

/// Division by a field element that has an inverse gives a field element
/// which, multiplied back by the divisor, is the dividend.
pub proof fn lemma_fr_div_meaning(a: nat, b: nat, x: nat)
    requires
        a < modulus(),
        b != 0,
        is_field_inv(b, x),
    ensures
        fr_op_value(Operation::Div, a, b) < modulus(),
        (fr_op_value(Operation::Div, a, b) * b) % modulus() == a,
{
    let m = modulus() as int;
    crate::u256::lemma_field_inv_is(b, x);
    vstd::arithmetic::div_mod::lemma_mod_bound((a * x) as int, m);
    vstd::arithmetic::div_mod::lemma_mul_mod_noop_left((a * x) as int, b as int, m);
    vstd::arithmetic::mul::lemma_mul_is_associative(a as int, x as int, b as int);
    vstd::arithmetic::mul::lemma_mul_is_commutative(x as int, b as int);
    vstd::arithmetic::div_mod::lemma_mul_mod_noop_right(a as int, (b * x) as int, m);
    vstd::arithmetic::mul::lemma_mul_basics(a as int);
    vstd::arithmetic::div_mod::lemma_small_mod(a, modulus());
}

/// Integer division and remainder of field elements: zero for a zero
/// divisor; otherwise the quotient times the divisor plus the remainder is
/// the dividend, with the remainder below the divisor.
pub proof fn lemma_fr_idiv_mod_meaning(a: nat, b: nat)
    ensures
        b == 0 ==> fr_op_value(Operation::Idiv, a, b) == 0 && fr_op_value(Operation::Mod, a, b) == 0,
        b != 0 ==> fr_op_value(Operation::Idiv, a, b) * b + fr_op_value(Operation::Mod, a, b) == a,
        b != 0 ==> fr_op_value(Operation::Mod, a, b) < b,
{
    if b != 0 {
        vstd::arithmetic::div_mod::lemma_fundamental_div_mod(a as int, b as int);
        vstd::arithmetic::mul::lemma_mul_is_commutative(b as int, (a / b) as int);
    }
}

/// The logical operations on field elements give 1 or 0: equality,
/// inequality, and (both non-zero) and or (some non-zero).
pub proof fn lemma_fr_logic_meaning(a: nat, b: nat)
    ensures
        fr_op_value(Operation::Eq, a, b) == (if a == b { 1nat } else { 0nat }),
        fr_op_value(Operation::Neq, a, b) == (if a != b { 1nat } else { 0nat }),
        fr_op_value(Operation::Land, a, b) == (if a != 0 && b != 0 { 1nat } else { 0nat }),
        fr_op_value(Operation::Lor, a, b) == (if a != 0 || b != 0 { 1nat } else { 0nat }),
{
}

/// The comparisons of field elements are those of their signed readings.
pub proof fn lemma_fr_compare_meaning(a: nat, b: nat)
    requires
        a < modulus(),
        b < modulus(),
    ensures
        fr_op_value(Operation::Lt, a, b) == (if signed(a) < signed(b) { 1nat } else { 0nat }),
        fr_op_value(Operation::Gt, a, b) == (if signed(a) > signed(b) { 1nat } else { 0nat }),
        fr_op_value(Operation::Leq, a, b) == (if signed(a) <= signed(b) { 1nat } else { 0nat }),
        fr_op_value(Operation::Geq, a, b) == (if signed(a) >= signed(b) { 1nat } else { 0nat }),
{
    crate::ops::lemma_signed_lt(a, b);
    crate::ops::lemma_signed_lt(b, a);
}

/// Shifts of field elements: a zero shift gives the operand, a shift by
/// `MODULUS_BIT_SIZE` bits or more gives zero, and otherwise left is
/// multiplication by `2^b` cut to 256 bits and right is division by `2^b`.
pub proof fn lemma_fr_shift_meaning(a: nat, b: nat)
    ensures
        fr_op_value(Operation::Shl, a, 0) == a,
        b >= 254 ==> fr_op_value(Operation::Shl, a, b) == 0 && fr_op_value(Operation::Shr, a, b) == 0,
        0 < b < 254 ==> fr_op_value(Operation::Shl, a, b) == (a * pow2(b)) % b4(),
        b < 254 ==> fr_op_value(Operation::Shr, a, b) == a / pow2(b),
{
}

/// Negation of a field element is its additive inverse; the identity gives
/// its operand back; the ternary condition picks its second operand where the
/// first is non-zero and its third otherwise.
pub proof fn lemma_fr_uno_tres_meaning(a: nat, b: nat, c: nat)
    ensures
        a < modulus() ==> fr_uno_value(UnoOperation::Neg, a) < modulus(),
        a < modulus() ==> (fr_uno_value(UnoOperation::Neg, a) + a) % modulus() == 0,
        fr_uno_value(UnoOperation::Id, a) == a,
        fr_tres_value(TresOperation::TernCond, a, b, c) == (if a != 0 { b } else { c }),
{
    let m = modulus();
    if a < m && a != 0 {
        vstd::arithmetic::div_mod::lemma_mod_self_0(m as int);
    }
    if a == 0 {
        vstd::arithmetic::div_mod::lemma_small_mod(0, m);
    }
}

/// A value below the modulus shifted right by 254 bits or more is zero.
proof fn lemma_below_pow2_254(a: nat, b: nat)
    requires
        a < modulus(),
        b >= 254,
    ensures
        a / pow2(b) == 0,
{
    lemma_pow2_254();
    if b > 254 {
        vstd::arithmetic::power2::lemma_pow2_strictly_increases(254, b);
    }
    vstd::arithmetic::div_mod::lemma_basic_div(a as int, pow2(b) as int);
}

/// Where a bitwise result reduced once is below the modulus, that is its
/// remainder by the modulus.
proof fn lemma_reduce_once_mod(d: nat)
    requires
        reduce_once(d) < modulus(),
    ensures
        reduce_once(d) == d % modulus(),
{
    let m = modulus();
    if d > m {
        vstd::arithmetic::div_mod::lemma_fundamental_div_mod_converse(d as int, m as int, 1, (d - m) as int);
    } else {
        vstd::arithmetic::div_mod::lemma_small_mod(d, m);
    }
}

/// On a field value, the field-element evaluation of a unary operation agrees
/// with its evaluation on 256-bit integers, reduced by the modulus.
pub proof fn lemma_eval_fr_uno_agrees(op: UnoOperation, a: nat)
    requires
        a < modulus(),
    ensures
        fr_uno_value(op, a) == uno_value(op, a) % modulus(),
{
    if op == UnoOperation::Neg && a != 0 {
        vstd::arithmetic::div_mod::lemma_small_mod((modulus() - a) as nat, b4());
        vstd::arithmetic::div_mod::lemma_small_mod((modulus() - a) as nat, modulus());
    }
    if op == UnoOperation::Id {
        vstd::arithmetic::div_mod::lemma_small_mod(a, modulus());
    }
}

/// On field values, the field-element evaluation of the ternary condition
/// agrees with its evaluation on 256-bit integers.
pub proof fn lemma_eval_fr_tres_agrees(op: TresOperation, a: nat, b: nat, c: nat)
    requires
        a < modulus(),
        b < modulus(),
        c < modulus(),
    ensures
        fr_tres_value(op, a, b, c) == tres_value(op, a, b, c) % modulus(),
{
    vstd::arithmetic::div_mod::lemma_small_mod(b, modulus());
    vstd::arithmetic::div_mod::lemma_small_mod(c, modulus());
}

} // verus!
