//! The operations that graph nodes apply, evaluated on plain 256-bit integers.
use crate::u256::{
    add_mod, b4, bitand_value, bitor_value, bitxor_value, div, div_rem, field_inv, half_modulus, half_modulus_u256, inv_mod, is_field_inv,
    lemma_field_inv_is, modulus, modulus_u256, mul_mod, pow_mod, shl, shr,
    wrapping_sub, wrapping_sub_value, U256,
};
use vstd::arithmetic::power::pow;
use vstd::arithmetic::power2::pow2;
use vstd::prelude::*;

verus! {

/// A binary operation of a graph node.
#[derive(Hash, PartialEq, Eq, Debug, Clone, Copy, Structural)]
pub enum Operation {
    Mul,
    Div,
    Add,
    Sub,
    Pow,
    Idiv,
    Mod,
    Eq,
    Neq,
    Lt,
    Gt,
    Leq,
    Geq,
    Land,
    Lor,
    Shl,
    Shr,
    Bor,
    Band,
    Bxor,
}

/// A unary operation of a graph node.
#[derive(Hash, PartialEq, Eq, Debug, Clone, Copy, Structural)]
pub enum UnoOperation {
    Neg,
    /// Identity: the operand itself.
    Id,
}

/// A ternary operation of a graph node.
#[derive(Hash, PartialEq, Eq, Debug, Clone, Copy, Structural)]
pub enum TresOperation {
    /// `a != 0 ? b : c`
    TernCond,
}

/// 1 for true, 0 for false.
pub open spec fn bool_value(b: bool) -> nat {
    if b {
        1
    } else {
        0
    }
}

/// The comparison of `a < b` where values above half the modulus count as
/// negative: a negative value is below any non-negative one, and two values of
/// the same sign compare as plain integers.
pub open spec fn signed_lt(a: nat, b: nat) -> bool {
    let a_neg = a > half_modulus();
    let b_neg = b > half_modulus();
    if a_neg == b_neg {
        a < b
    } else {
        a_neg
    }
}

/// The signed reading of a field value: values above half the modulus stand
/// for negative numbers.
pub open spec fn signed(a: nat) -> int {
    if a > half_modulus() {
        a - modulus()
    } else {
        a as int
    }
}

/// On field values, the comparisons are those of the signed readings.
pub proof fn lemma_signed_lt(a: nat, b: nat)
    requires
        a < modulus(),
        b < modulus(),
    ensures
        signed_lt(a, b) == (signed(a) < signed(b)),
{
}

/// On field values, negation undoes itself.
pub proof fn lemma_neg_involution(a: nat)
    requires
        a < modulus(),
    ensures
        uno_value(UnoOperation::Neg, uno_value(UnoOperation::Neg, a)) == a,
{
    if a != 0 {
        vstd::arithmetic::div_mod::lemma_small_mod((modulus() - a) as nat, b4());
        vstd::arithmetic::div_mod::lemma_small_mod(a, b4());
    }
}

/// Subtracting a field value is adding its negation.
pub proof fn lemma_sub_is_add_neg(a: nat, b: nat)
    requires
        b < modulus(),
    ensures
        op_value(Operation::Sub, a, b) == op_value(Operation::Add, a, uno_value(UnoOperation::Neg, b)),
{
    let m = modulus();
    vstd::arithmetic::div_mod::lemma_small_mod((m - b) as nat, b4());
    if b == 0 {
        vstd::arithmetic::div_mod::lemma_mod_add_multiples_vanish(a as int, m as int);
    }
}

/// Dividing a product by a factor that has an inverse modulo the modulus
/// gives back the other factor, reduced.
pub proof fn lemma_div_undoes_mul(a: nat, b: nat, x: nat)
    requires
        b != 0,
        is_field_inv(b, x),
    ensures
        op_value(Operation::Div, op_value(Operation::Mul, a, b), b) == a % modulus(),
{
    let m = modulus() as int;
    lemma_field_inv_is(b, x);
    vstd::arithmetic::div_mod::lemma_mul_mod_noop_left((a * b) as int, x as int, m);
    vstd::arithmetic::mul::lemma_mul_is_associative(a as int, b as int, x as int);
    vstd::arithmetic::div_mod::lemma_mul_mod_noop_right(a as int, (b * x) as int, m);
    vstd::arithmetic::mul::lemma_mul_basics(a as int);
}

/// The inputs on which `Operation::eval` is defined: no division or remainder
/// by zero, no division by a non-zero multiple of the modulus, and shifts by
/// less than 256 bits.
pub open spec fn op_defined(op: Operation, a: nat, b: nat) -> bool {
    match op {
        Operation::Div => b == 0 || b % modulus() != 0,
        Operation::Idiv | Operation::Mod => b != 0,
        Operation::Shl | Operation::Shr => b < 256,
        _ => true,
    }
}

/// What `Operation::eval` computes.
pub open spec fn op_value(op: Operation, a: nat, b: nat) -> nat {
    let m = modulus();
    match op {
        Operation::Mul => (a * b) % m,
        Operation::Div => if b == 0 {
            0
        } else {
            (a * field_inv(b)) % m
        },
        Operation::Add => (a + b) % m,
        Operation::Sub => (a + wrapping_sub_value(m, b)) % m,
        Operation::Pow => (pow(a as int, b) % (m as int)) as nat,
        Operation::Idiv => a / b,
        Operation::Mod => a % b,
        Operation::Eq => bool_value(a == b),
        Operation::Neq => bool_value(a != b),
        Operation::Lt => bool_value(signed_lt(a, b)),
        Operation::Gt => bool_value(signed_lt(b, a)),
        Operation::Leq => bool_value(!signed_lt(b, a)),
        Operation::Geq => bool_value(!signed_lt(a, b)),
        Operation::Land => bool_value(a != 0 && b != 0),
        Operation::Lor => bool_value(a != 0 || b != 0),
        Operation::Shl => (a * pow2(b)) % b4(),
        Operation::Shr => a / pow2(b),
        Operation::Bor => bitor_value(a, b),
        Operation::Band => bitand_value(a, b),
        Operation::Bxor => bitxor_value(a, b),
    }
}

/// What `UnoOperation::eval` computes.
pub open spec fn uno_value(op: UnoOperation, a: nat) -> nat {
    match op {
        UnoOperation::Neg => if a == 0 {
            0
        } else {
            wrapping_sub_value(modulus(), a)
        },
        UnoOperation::Id => a,
    }
}

/// What `TresOperation::eval` computes.
pub open spec fn tres_value(op: TresOperation, a: nat, b: nat, c: nat) -> nat {
    match op {
        TresOperation::TernCond => if a == 0 {
            c
        } else {
            b
        },
    }
}

/// The field operations on 256-bit integers: the product and the sum reduced
/// by the modulus, and the difference of field values as a field value.
pub proof fn lemma_field_arith_meaning(a: nat, b: nat)
    ensures
        op_value(Operation::Mul, a, b) == (a * b) % modulus(),
        op_value(Operation::Add, a, b) == (a + b) % modulus(),
        b < modulus() ==> op_value(Operation::Sub, a, b) == ((a - b) % (modulus() as int)) as nat,
        op_value(Operation::Div, a, 0) == 0,
{
    let m = modulus();
    if b < m {
        vstd::arithmetic::div_mod::lemma_small_mod((m - b) as nat, b4());
        vstd::arithmetic::div_mod::lemma_mod_add_multiples_vanish(a - b, m as int);
    }
}

/// Division by a field value that has an inverse gives a field value which,
/// multiplied back by the divisor, is the dividend reduced.
pub proof fn lemma_div_meaning(a: nat, b: nat, x: nat)
    requires
        b != 0,
        is_field_inv(b, x),
    ensures
        op_value(Operation::Div, a, b) < modulus(),
        (op_value(Operation::Div, a, b) * b) % modulus() == a % modulus(),
{
    let m = modulus() as int;
    lemma_field_inv_is(b, x);
    vstd::arithmetic::div_mod::lemma_mod_bound((a * x) as int, m);
    vstd::arithmetic::div_mod::lemma_mul_mod_noop_left((a * x) as int, b as int, m);
    vstd::arithmetic::mul::lemma_mul_is_associative(a as int, x as int, b as int);
    vstd::arithmetic::mul::lemma_mul_is_commutative(x as int, b as int);
    vstd::arithmetic::div_mod::lemma_mul_mod_noop_right(a as int, (b * x) as int, m);
    vstd::arithmetic::mul::lemma_mul_basics(a as int);
}

/// Integer division and remainder by a non-zero divisor: the quotient times
/// the divisor plus the remainder is the dividend, and the remainder is below
/// the divisor.
pub proof fn lemma_idiv_mod_meaning(a: nat, b: nat)
    requires
        b != 0,
    ensures
        op_value(Operation::Idiv, a, b) * b + op_value(Operation::Mod, a, b) == a,
        op_value(Operation::Mod, a, b) < b,
{
    vstd::arithmetic::div_mod::lemma_fundamental_div_mod(a as int, b as int);
    vstd::arithmetic::mul::lemma_mul_is_commutative(b as int, (a / b) as int);
}

/// The logical operations give 1 or 0: equality, inequality, and (both
/// operands non-zero) and or (some operand non-zero).
pub proof fn lemma_logic_meaning(a: nat, b: nat)
    ensures
        op_value(Operation::Eq, a, b) == (if a == b { 1nat } else { 0nat }),
        op_value(Operation::Neq, a, b) == (if a != b { 1nat } else { 0nat }),
        op_value(Operation::Land, a, b) == (if a != 0 && b != 0 { 1nat } else { 0nat }),
        op_value(Operation::Lor, a, b) == (if a != 0 || b != 0 { 1nat } else { 0nat }),
{
}

/// On field values the comparisons are those of the signed readings, where
/// values above half the modulus stand for negative numbers.
pub proof fn lemma_compare_meaning(a: nat, b: nat)
    requires
        a < modulus(),
        b < modulus(),
    ensures
        op_value(Operation::Lt, a, b) == (if signed(a) < signed(b) { 1nat } else { 0nat }),
        op_value(Operation::Gt, a, b) == (if signed(a) > signed(b) { 1nat } else { 0nat }),
        op_value(Operation::Leq, a, b) == (if signed(a) <= signed(b) { 1nat } else { 0nat }),
        op_value(Operation::Geq, a, b) == (if signed(a) >= signed(b) { 1nat } else { 0nat }),
{
    lemma_signed_lt(a, b);
    lemma_signed_lt(b, a);
}

/// Shifts: left by `b` bits is multiplication by `2^b` cut to 256 bits, right
/// by `b` bits is division by `2^b`.
pub proof fn lemma_shift_meaning(a: nat, b: nat)
    ensures
        op_value(Operation::Shl, a, b) == (a * pow2(b)) % b4(),
        op_value(Operation::Shr, a, b) == a / pow2(b),
{
}

/// Power is repeated multiplication: `a^0` is 1, and `a^(b + 1)` is `a^b`
/// times `a`.
pub proof fn lemma_pow_meaning(a: nat, b: nat)
    ensures
        op_value(Operation::Pow, a, 0) == 1,
        op_value(Operation::Pow, a, b + 1) == op_value(Operation::Mul, op_value(Operation::Pow, a, b), a),
{
    let m = modulus() as int;
    let p = pow(a as int, b);
    vstd::arithmetic::power::lemma_pow0(a as int);
    vstd::arithmetic::power::lemma_pow1(a as int);
    vstd::arithmetic::power::lemma_pow_adds(a as int, b, 1);
    vstd::arithmetic::div_mod::lemma_small_mod(1, modulus());
    assert(pow(a as int, (b + 1) as nat) == p * a);
    assert(p >= 0) by {
        if a > 0 {
            vstd::arithmetic::power::lemma_pow_positive(a as int, b);
        } else if b > 0 {
            vstd::arithmetic::power::lemma0_pow(b);
        }
    }
    vstd::arithmetic::div_mod::lemma_mul_mod_noop_left(p, a as int, m);
}

/// Negation of a field value is its additive inverse, a field value; the
/// identity gives its operand back; the ternary condition picks its second
/// operand where the first is non-zero and its third otherwise.
pub proof fn lemma_uno_tres_meaning(a: nat, b: nat, c: nat)
    ensures
        a < modulus() ==> uno_value(UnoOperation::Neg, a) < modulus(),
        a < modulus() ==> (uno_value(UnoOperation::Neg, a) + a) % modulus() == 0,
        uno_value(UnoOperation::Id, a) == a,
        tres_value(TresOperation::TernCond, a, b, c) == (if a != 0 { b } else { c }),
{
    let m = modulus();
    if a < m && a != 0 {
        vstd::arithmetic::div_mod::lemma_small_mod((m - a) as nat, b4());
        vstd::arithmetic::div_mod::lemma_mod_self_0(m as int);
    }
    if a == 0 {
        vstd::arithmetic::div_mod::lemma_small_mod(0, m);
    }
}

/// A shift amount below 256 is the lowest limb.
proof fn lemma_small_value_is_low_limb(b: U256)
    requires
        b@ < 256,
    ensures
        b.l0 == b@,
        b.l0 < 256,
{
}

/// `a << b`, shifting by the lowest limb of `b`, which must be below 256.
pub fn compute_shl_uint(a: U256, b: U256) -> (r: U256)
    requires
        b@ < 256,
    ensures
        r@ == (a@ * pow2(b@)) % b4(),
{
    proof {
        lemma_small_value_is_low_limb(b);
    }
    let ls_limb = b.l0;
    shl(a, ls_limb as usize)
}

/// `a >> b`, shifting by the lowest limb of `b`, which must be below 256.
pub fn compute_shr_uint(a: U256, b: U256) -> (r: U256)
    requires
        b@ < 256,
    ensures
        r@ == a@ / pow2(b@),
{
    proof {
        lemma_small_value_is_low_limb(b);
    }
    let ls_limb = b.l0;
    shr(a, ls_limb as usize)
}

/// Signed `a >= b`, as 1 or 0 (see `signed_lt`).
pub fn u_gte(a: &U256, b: &U256) -> (r: U256)
    ensures
        r@ == bool_value(!signed_lt(a@, b@)),
{
    let half = half_modulus_u256();
    let a_neg = half.lt(a);
    let b_neg = half.lt(b);
    match (a_neg, b_neg) {
        (false, false) => U256::from_bool(!a.lt(b)),
        (true, false) => U256::from_u64(0),
        (false, true) => U256::from_u64(1),
        (true, true) => U256::from_bool(!a.lt(b)),
    }
}

/// Signed `a <= b`, as 1 or 0 (see `signed_lt`).
pub fn u_lte(a: &U256, b: &U256) -> (r: U256)
    ensures
        r@ == bool_value(!signed_lt(b@, a@)),
{
    let half = half_modulus_u256();
    let a_neg = half.lt(a);
    let b_neg = half.lt(b);
    match (a_neg, b_neg) {
        (false, false) => U256::from_bool(!b.lt(a)),
        (true, false) => U256::from_u64(1),
        (false, true) => U256::from_u64(0),
        (true, true) => U256::from_bool(!b.lt(a)),
    }
}

/// Signed `a > b`, as 1 or 0 (see `signed_lt`).
pub fn u_gt(a: &U256, b: &U256) -> (r: U256)
    ensures
        r@ == bool_value(signed_lt(b@, a@)),
{
    let half = half_modulus_u256();
    let a_neg = half.lt(a);
    let b_neg = half.lt(b);
    match (a_neg, b_neg) {
        (false, false) => U256::from_bool(b.lt(a)),
        (true, false) => U256::from_u64(0),
        (false, true) => U256::from_u64(1),
        (true, true) => U256::from_bool(b.lt(a)),
    }
}

/// Signed `a < b`, as 1 or 0 (see `signed_lt`).
pub fn u_lt(a: &U256, b: &U256) -> (r: U256)
    ensures
        r@ == bool_value(signed_lt(a@, b@)),
{
    let half = half_modulus_u256();
    let a_neg = half.lt(a);
    let b_neg = half.lt(b);
    match (a_neg, b_neg) {
        (false, false) => U256::from_bool(a.lt(b)),
        (true, false) => U256::from_u64(1),
        (false, true) => U256::from_u64(0),
        (true, true) => U256::from_bool(a.lt(b)),
    }
}

impl Operation {
    /// Applies the operation to two 256-bit integers: field arithmetic modulo
    /// the BN254 scalar modulus for `Mul`, `Div`, `Add`, `Sub` and `Pow`
    /// (division by zero gives zero), integer arithmetic for `Idiv` and `Mod`,
    /// signed comparisons, logic, shifts and bitwise operations.
    pub fn eval(&self, a: U256, b: U256) -> (r: U256)
        requires
            op_defined(*self, a@, b@),
        ensures
            r@ == op_value(*self, a@, b@),
    {
        let m = modulus_u256();
        match self {
            Operation::Mul => mul_mod(a, b, m),
            Operation::Div => {
                if b.is_zero() {
                    // as we are simulating a circuit execution with signals
                    // values all equal to 0, just return 0 here in case of
                    // division by zero
                    U256::zero()
                } else {
                    match inv_mod(b, m) {
                        Some(inv) => {
                            proof {
                                lemma_field_inv_is(b@, inv@);
                            }
                            mul_mod(a, inv, m)
                        },
                        None => U256::zero(),
                    }
                }
            },
            Operation::Add => add_mod(a, b, m),
            Operation::Sub => add_mod(a, wrapping_sub(m, b), m),
            Operation::Pow => pow_mod(a, b, m),
            Operation::Mod => div_rem(a, b).1,
            Operation::Eq => U256::from_bool(a == b),
            Operation::Neq => U256::from_bool(a != b),
            Operation::Lt => u_lt(&a, &b),
            Operation::Gt => u_gt(&a, &b),
            Operation::Leq => u_lte(&a, &b),
            Operation::Geq => u_gte(&a, &b),
            Operation::Land => U256::from_bool(!a.is_zero() && !b.is_zero()),
            Operation::Lor => U256::from_bool(!a.is_zero() || !b.is_zero()),
            Operation::Shl => compute_shl_uint(a, b),
            Operation::Shr => compute_shr_uint(a, b),
            Operation::Bor => a.bitor(&b),
            Operation::Band => a.bitand(&b),
            Operation::Bxor => a.bitxor(&b),
            Operation::Idiv => div(a, b),
        }
    }
}

impl Operation {
    /// Whether `eval` is defined on these operands (see `op_defined`).
    pub fn is_defined(&self, a: U256, b: U256) -> (r: bool)
        ensures
            r == op_defined(*self, a@, b@),
    {
        match self {
            Operation::Div => {
                if b.is_zero() {
                    true
                } else {
                    let (_, r) = div_rem(b, modulus_u256());
                    !r.is_zero()
                }
            },
            Operation::Idiv | Operation::Mod => !b.is_zero(),
            Operation::Shl | Operation::Shr => b.lt(&U256::from_u64(256)),
            _ => true,
        }
    }
}

impl UnoOperation {
    /// Applies the operation: field negation (`0` stays `0`, otherwise
    /// `modulus - a`, wrapping) or the identity.
    pub fn eval(&self, a: U256) -> (r: U256)
        ensures
            r@ == uno_value(*self, a@),
    {
        match self {
            UnoOperation::Neg => {
                if a.is_zero() {
                    U256::zero()
                } else {
                    wrapping_sub(modulus_u256(), a)
                }
            },
            UnoOperation::Id => a,
        }
    }
}

impl TresOperation {
    /// Applies the operation: `c` where `a` is zero, else `b`.
    pub fn eval(&self, a: U256, b: U256, c: U256) -> (r: U256)
        ensures
            r@ == tres_value(*self, a@, b@, c@),
    {
        match self {
            TresOperation::TernCond => {
                if a.is_zero() {
                    c
                } else {
                    b
                }
            },
        }
    }
}

} // verus!
