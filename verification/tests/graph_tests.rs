use ark_ff::PrimeField;
use circom_witnesscalc::field::Fr;
use circom_witnesscalc::fr_ops::shl;
use circom_witnesscalc::graph::Node;
use circom_witnesscalc::ops::{u_gte, Operation};
use circom_witnesscalc::u256::{div, half_modulus_u256, modulus_u256, U256};
use std::str::FromStr;

fn fr(s: &str) -> Fr {
    let x = ark_bn254::Fr::from_str(s).unwrap();
    Fr::from_bigint(U256::from_limbs(x.into_bigint().0)).unwrap()
}

fn u(s: &str) -> U256 {
    let x = ruint::aliases::U256::from_str(s).unwrap();
    U256::from_limbs(*x.as_limbs())
}

#[test]
fn calc_witness_test_ok() {
    println!("OK");
}

#[test]
fn graph_test_ok() {
    let a = Fr::from_u64(4);
    let b = Fr::from_u64(2);
    let c = shl(a, b);
    assert!(c.equals(&Fr::from_u64(16)));
}

#[test]
fn test_div() {
    assert_eq!(
        Operation::Div.eval_fr(Fr::from_u64(2), Fr::from_u64(3)),
        fr("7296080957279758407415468581752425029516121466805344781232734728858602831873")
    );

    assert_eq!(
        Operation::Div.eval_fr(Fr::from_u64(6), Fr::from_u64(2)),
        fr("3")
    );

    assert_eq!(
        Operation::Div.eval_fr(Fr::from_u64(7), Fr::from_u64(2)),
        fr("10944121435919637611123202872628637544274182200208017171849102093287904247812")
    );
}

#[test]
fn test_idiv() {
    assert_eq!(
        Operation::Idiv.eval_fr(Fr::from_u64(2), Fr::from_u64(3)),
        fr("0")
    );

    assert_eq!(
        Operation::Idiv.eval_fr(Fr::from_u64(6), Fr::from_u64(2)),
        fr("3")
    );

    assert_eq!(
        Operation::Idiv.eval_fr(Fr::from_u64(7), Fr::from_u64(2)),
        fr("3")
    );
}

#[test]
fn test_fr_mod() {
    assert_eq!(
        Operation::Mod.eval_fr(Fr::from_u64(7), Fr::from_u64(2)),
        fr("1")
    );

    assert_eq!(
        Operation::Mod.eval_fr(Fr::from_u64(7), Fr::from_u64(9)),
        fr("7")
    );
}

#[test]
fn test_greater_then_module() {}

#[test]
fn test_u_gte() {
    let result = u_gte(&U256::from_u64(10), &U256::from_u64(3));
    assert_eq!(result, U256::from_u64(1));

    let result = u_gte(&U256::from_u64(3), &U256::from_u64(3));
    assert_eq!(result, U256::from_u64(1));

    let result = u_gte(&U256::from_u64(2), &U256::from_u64(3));
    assert_eq!(result, U256::from_u64(0));

    // -1 >= 3 => 0
    let result = u_gte(
        &u("21888242871839275222246405745257275088548364400416034343698204186575808495616"),
        &U256::from_u64(3),
    );
    assert_eq!(result, U256::from_u64(0));

    // -1 >= -2 => 1
    let result = u_gte(
        &u("21888242871839275222246405745257275088548364400416034343698204186575808495616"),
        &u("21888242871839275222246405745257275088548364400416034343698204186575808495615"),
    );
    assert_eq!(result, U256::from_u64(1));

    // -2 >= -1 => 0
    let result = u_gte(
        &u("21888242871839275222246405745257275088548364400416034343698204186575808495615"),
        &u("21888242871839275222246405745257275088548364400416034343698204186575808495616"),
    );
    assert_eq!(result, U256::from_u64(0));

    // -2 == -2 => 1
    let result = u_gte(
        &u("21888242871839275222246405745257275088548364400416034343698204186575808495615"),
        &u("21888242871839275222246405745257275088548364400416034343698204186575808495615"),
    );
    assert_eq!(result, U256::from_u64(1));
}

#[test]
fn test_x() {
    let x = div(modulus_u256(), U256::from_u64(2));

    println!("x: {:?}", x.limbs());
    println!("x: {:?}", modulus_u256());
    assert_eq!(x, half_modulus_u256());
}

#[test]
fn test_2() {
    let nodes: Vec<Node> = vec![];
    // let node = nodes[0];
    let node = nodes.get(0);
    println!("{:?}", node);
    assert!(node.is_none());
}
