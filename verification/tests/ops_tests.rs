use ark_ff::PrimeField;
use circom_witnesscalc::field::Fr;
use circom_witnesscalc::fr_ops::{bit_and, bit_or, bit_xor, shl, shr};
use circom_witnesscalc::ops::{compute_shl_uint, compute_shr_uint, u_gt, u_lt, u_lte, Operation, TresOperation, UnoOperation};
use circom_witnesscalc::u256::{modulus_u256, U256};
use std::str::FromStr;

const M_MINUS_1: &str = "21888242871839275222246405745257275088548364400416034343698204186575808495616";

fn u(s: &str) -> U256 {
    let x = ruint::aliases::U256::from_str(s).unwrap();
    U256::from_limbs(*x.as_limbs())
}

fn fr(s: &str) -> Fr {
    let x = ark_bn254::Fr::from_str(s).unwrap();
    Fr::from_bigint(U256::from_limbs(x.into_bigint().0)).unwrap()
}

fn n(v: u64) -> U256 {
    U256::from_u64(v)
}

#[test]
fn eval_field_arithmetic() {
    assert_eq!(Operation::Mul.eval(n(6), n(7)), n(42));
    assert_eq!(Operation::Add.eval(n(6), n(7)), n(13));
    assert_eq!(Operation::Add.eval(u(M_MINUS_1), n(2)), n(1));
    assert_eq!(Operation::Mul.eval(u(M_MINUS_1), u(M_MINUS_1)), n(1));
    // 3 - 5 = -2
    assert_eq!(
        Operation::Sub.eval(n(3), n(5)),
        u("21888242871839275222246405745257275088548364400416034343698204186575808495615")
    );
    assert_eq!(Operation::Sub.eval(n(5), n(3)), n(2));
    assert_eq!(Operation::Pow.eval(n(3), n(4)), n(81));
    assert_eq!(Operation::Pow.eval(n(3), n(0)), n(1));
    assert_eq!(
        Operation::Div.eval(n(2), n(3)),
        u("7296080957279758407415468581752425029516121466805344781232734728858602831873")
    );
    assert_eq!(Operation::Div.eval(n(6), n(3)), n(2));
    assert_eq!(Operation::Div.eval(n(6), n(0)), n(0));
}

#[test]
fn eval_integer_arithmetic() {
    assert_eq!(Operation::Idiv.eval(n(7), n(2)), n(3));
    assert_eq!(Operation::Mod.eval(n(7), n(2)), n(1));
    assert_eq!(Operation::Mod.eval(n(7), n(9)), n(7));
}

#[test]
fn eval_comparisons_and_logic() {
    assert_eq!(Operation::Eq.eval(n(3), n(3)), n(1));
    assert_eq!(Operation::Eq.eval(n(3), n(4)), n(0));
    assert_eq!(Operation::Neq.eval(n(3), n(4)), n(1));
    // -1 < 0
    assert_eq!(Operation::Lt.eval(u(M_MINUS_1), n(0)), n(1));
    assert_eq!(Operation::Gt.eval(u(M_MINUS_1), n(0)), n(0));
    assert_eq!(Operation::Leq.eval(n(2), n(2)), n(1));
    assert_eq!(Operation::Geq.eval(n(1), n(2)), n(0));
    assert_eq!(Operation::Land.eval(n(1), n(0)), n(0));
    assert_eq!(Operation::Land.eval(n(1), n(5)), n(1));
    assert_eq!(Operation::Lor.eval(n(0), n(0)), n(0));
    assert_eq!(Operation::Lor.eval(n(0), n(9)), n(1));
    assert_eq!(u_lt(&n(1), &n(2)), n(1));
    assert_eq!(u_gt(&n(1), &n(2)), n(0));
    assert_eq!(u_lte(&u(M_MINUS_1), &n(2)), n(1));
}

#[test]
fn eval_shifts_and_bits() {
    assert_eq!(Operation::Shl.eval(n(1), n(3)), n(8));
    assert_eq!(Operation::Shr.eval(n(8), n(3)), n(1));
    assert_eq!(compute_shl_uint(n(1), n(255)).limbs(), [0, 0, 0, 1u64 << 63]);
    assert_eq!(compute_shr_uint(U256::from_limbs([0, 0, 0, 1u64 << 63]), n(255)), n(1));
    assert_eq!(Operation::Bor.eval(n(0b1010), n(0b0110)), n(0b1110));
    assert_eq!(Operation::Band.eval(n(0b1010), n(0b0110)), n(0b0010));
    assert_eq!(Operation::Bxor.eval(n(0b1010), n(0b0110)), n(0b1100));
}

#[test]
fn eval_uno_and_tres() {
    assert_eq!(UnoOperation::Neg.eval(n(0)), n(0));
    assert_eq!(UnoOperation::Neg.eval(n(1)), u(M_MINUS_1));
    assert_eq!(UnoOperation::Id.eval(n(17)), n(17));
    assert_eq!(TresOperation::TernCond.eval(n(1), n(2), n(3)), n(2));
    assert_eq!(TresOperation::TernCond.eval(n(0), n(2), n(3)), n(3));
}

#[test]
fn is_defined_marks_panicking_inputs() {
    assert!(!Operation::Idiv.is_defined(n(1), n(0)));
    assert!(!Operation::Mod.is_defined(n(1), n(0)));
    assert!(!Operation::Div.is_defined(n(1), modulus_u256()));
    assert!(Operation::Div.is_defined(n(1), n(0)));
    assert!(!Operation::Shl.is_defined(n(1), n(256)));
    assert!(Operation::Shr.is_defined(n(1), n(255)));
    assert!(Operation::Add.is_defined(n(1), n(0)));
}

#[test]
fn fr_new_reduces() {
    let f = Fr::new(modulus_u256());
    assert!(f.is_zero());
    let g = Fr::new(Operation::Add.eval(modulus_u256(), n(5)));
    assert_eq!(g.into_bigint(), n(5));
    assert!(Fr::from_bigint(modulus_u256()).is_none());
}

#[test]
fn eval_fr_arithmetic() {
    let a = Fr::from_u64(6);
    let b = Fr::from_u64(7);
    assert_eq!(Operation::Mul.eval_fr(a, b), Fr::from_u64(42));
    assert_eq!(Operation::Add.eval_fr(a, b), Fr::from_u64(13));
    assert_eq!(Operation::Sub.eval_fr(a, b), fr(M_MINUS_1));
    assert_eq!(Operation::Div.eval_fr(a, Fr::zero()), Fr::zero());
    assert_eq!(Operation::Idiv.eval_fr(a, Fr::zero()), Fr::zero());
    assert_eq!(Operation::Mod.eval_fr(a, Fr::zero()), Fr::zero());
    assert_eq!(Operation::Eq.eval_fr(a, a), Fr::one());
    assert_eq!(Operation::Neq.eval_fr(a, a), Fr::zero());
    assert_eq!(Operation::Lt.eval_fr(fr(M_MINUS_1), a), Fr::one());
    assert_eq!(Operation::Geq.eval_fr(fr(M_MINUS_1), a), Fr::zero());
    assert_eq!(Operation::Land.eval_fr(a, Fr::zero()), Fr::zero());
    assert_eq!(Operation::Lor.eval_fr(a, Fr::zero()), Fr::one());
    assert_eq!(UnoOperation::Neg.eval_fr(Fr::one()), fr(M_MINUS_1));
    assert_eq!(UnoOperation::Neg.eval_fr(Fr::zero()), Fr::zero());
    assert_eq!(TresOperation::TernCond.eval_fr(Fr::zero(), a, b), b);
}

#[test]
fn fr_shifts() {
    assert_eq!(shl(Fr::from_u64(4), Fr::from_u64(2)), Fr::from_u64(16));
    assert_eq!(shl(Fr::from_u64(4), Fr::zero()), Fr::from_u64(4));
    assert_eq!(shl(Fr::from_u64(4), Fr::from_u64(254)), Fr::zero());
    assert_eq!(shr(Fr::from_u64(16), Fr::from_u64(2)), Fr::from_u64(4));
    assert_eq!(shr(Fr::from_u64(16), Fr::zero()), Fr::from_u64(16));
    assert_eq!(shr(Fr::from_u64(16), Fr::from_u64(300)), Fr::zero());
    // 2^200 >> 130 = 2^70, crossing limbs
    let big = Fr::from_bigint(U256::from_limbs([0, 0, 0, 1u64 << 8])).unwrap();
    let expected = Fr::from_bigint(U256::from_limbs([0, 1u64 << 6, 0, 0])).unwrap();
    assert_eq!(shr(big, Fr::from_u64(130)), expected);
    // 2^200 >> 64 = 2^136
    let expected = Fr::from_bigint(U256::from_limbs([0, 0, 1u64 << 8, 0])).unwrap();
    assert_eq!(shr(big, Fr::from_u64(64)), expected);
    // shifting M - 1 left by one leaves the field
    assert!(!Operation::Shl.is_defined_fr(&fr(M_MINUS_1), &Fr::from_u64(1)));
    assert!(Operation::Shl.is_defined_fr(&Fr::from_u64(4), &Fr::from_u64(2)));
}

#[test]
fn fr_bitwise() {
    let a = Fr::from_u64(0b1010);
    let b = Fr::from_u64(0b0110);
    assert_eq!(bit_and(a, b), Fr::from_u64(0b0010));
    assert_eq!(bit_or(a, b), Fr::from_u64(0b1110));
    assert_eq!(bit_xor(a, b), Fr::from_u64(0b1100));
    // (M - 1) | 1 is the modulus itself: no field element
    assert!(!Operation::Bor.is_defined_fr(&fr(M_MINUS_1), &Fr::one()));
    // (M - 1) ^ 2 is above the modulus and is reduced once
    let x = Operation::Bxor.eval(u(M_MINUS_1), n(2));
    assert_eq!(
        bit_xor(fr(M_MINUS_1), Fr::from_u64(2)),
        Fr::new(x)
    );
    assert!(Operation::Pow.is_defined_fr(&a, &b) == false);
}

#[test]
fn eval_fr_agrees_with_eval_on_field_values() {
    let ops = [
        Operation::Mul, Operation::Div, Operation::Add, Operation::Sub, Operation::Idiv,
        Operation::Mod, Operation::Eq, Operation::Neq, Operation::Lt, Operation::Gt,
        Operation::Leq, Operation::Geq, Operation::Land, Operation::Lor, Operation::Shl,
        Operation::Shr, Operation::Bor, Operation::Band, Operation::Bxor,
    ];
    let values = [n(0), n(1), n(5), n(13), u(M_MINUS_1), u("12345678901234567890123456789")];
    for op in ops.iter() {
        for a in values.iter() {
            for b in values.iter() {
                let fa = Fr::from_bigint(*a).unwrap();
                let fb = Fr::from_bigint(*b).unwrap();
                if op.is_defined(*a, *b) && op.is_defined_fr(&fa, &fb) {
                    let plain = Fr::new(op.eval(*a, *b));
                    assert_eq!(op.eval_fr(fa, fb), plain, "{:?} {:?} {:?}", op, a, b);
                }
            }
        }
    }
}

#[test]
fn signed_comparisons_read_upper_half_as_negative() {
    // -2 < -1 < 0 < 1
    let m2 = u("21888242871839275222246405745257275088548364400416034343698204186575808495615");
    let m1 = u(M_MINUS_1);
    assert_eq!(Operation::Lt.eval(m2, m1), n(1));
    assert_eq!(Operation::Lt.eval(m1, n(0)), n(1));
    assert_eq!(Operation::Lt.eval(n(0), n(1)), n(1));
    assert_eq!(Operation::Lt.eval(n(1), m2), n(0));
}

#[test]
fn shl_from_254_bits() {
    let fb = Fr::from_u64(254);
    // 4 * 2^254 leaves the 256 bits: both evaluations give zero
    assert_eq!(Operation::Shl.eval(n(4), n(254)), n(0));
    assert_eq!(Operation::Shl.eval_fr(Fr::from_u64(4), fb), Fr::zero());
    // 2^254 is above the modulus, where the field-element evaluation gives zero
    let plain = Operation::Shl.eval(n(1), n(254));
    assert!(modulus_u256().lt(&plain));
    assert_eq!(Operation::Shl.eval_fr(Fr::one(), fb), Fr::zero());
    assert_ne!(Fr::new(plain), Fr::zero());
}

#[test]
fn field_operations_undo_each_other() {
    let big = u("12345678901234567890123456789012345678901234567890");
    for a in [n(0), n(5), big, u(M_MINUS_1)] {
        let neg = UnoOperation::Neg.eval(a);
        assert_eq!(UnoOperation::Neg.eval(neg), a);
        for b in [n(0), n(3), big, u(M_MINUS_1)] {
            assert_eq!(
                Operation::Sub.eval(a, b),
                Operation::Add.eval(a, UnoOperation::Neg.eval(b))
            );
            if b != n(0) {
                let product = Operation::Mul.eval(a, b);
                assert_eq!(Operation::Div.eval(product, b), a);
            }
        }
    }
}

#[test]
fn eval_fr_identity() {
    assert_eq!(UnoOperation::Id.eval_fr(Fr::from_u64(17)), Fr::from_u64(17));
    assert_eq!(UnoOperation::Id.eval_fr(fr(M_MINUS_1)), fr(M_MINUS_1));
}
