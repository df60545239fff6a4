use circom_witnesscalc::field::Fr;
use circom_witnesscalc::graph::{assert_valid, evaluate, evaluate_checked, Node, NodeConstErr, NodeIdx, Nodes};
use circom_witnesscalc::numbering::{constants, constants_with, random_eval_from, value_numbering, value_numbering_with};
use circom_witnesscalc::ops::{Operation, TresOperation, UnoOperation};
use circom_witnesscalc::optimize::{is_montgomery_supported, montgomery_form, optimize, propagate};
use circom_witnesscalc::shake::tree_shake;
use circom_witnesscalc::u256::{modulus_u256, U256};

fn n(v: u64) -> U256 {
    U256::from_u64(v)
}

fn c(v: u64) -> Node {
    Node::Constant(n(v))
}

#[test]
fn nodes_push_and_get() {
    let mut nodes = Nodes::new();
    let a = nodes.push(c(3));
    let b = nodes.push(Node::Input(0));
    assert_eq!(a.0, 0);
    assert_eq!(b.0, 1);
    assert_eq!(nodes.get(NodeIdx(1)), Some(&Node::Input(0)));
    assert_eq!(nodes.get(NodeIdx(2)), None);
    assert_eq!(nodes.len(), 2);
    assert_eq!(NodeIdx::from(5usize).0, 5);
}

#[test]
fn to_const_evaluates_constant_subgraphs() {
    let mut nodes = Nodes::new();
    nodes.push(c(3));
    nodes.push(c(4));
    nodes.push(Node::Op(Operation::Mul, 0, 1));
    nodes.push(Node::UnoOp(UnoOperation::Neg, 2));
    nodes.push(Node::Input(0));
    nodes.push(Node::Op(Operation::Add, 2, 4));
    nodes.push(Node::TresOp(TresOperation::TernCond, 0, 2, 1));
    assert_eq!(nodes.to_const(NodeIdx(2)).unwrap(), n(12));
    assert_eq!(
        nodes.to_const(NodeIdx(3)).unwrap(),
        Operation::Sub.eval(n(0), n(12))
    );
    assert_eq!(nodes.to_const(NodeIdx(6)).unwrap(), n(12));
    match nodes.to_const(NodeIdx(5)) {
        Err(NodeConstErr::InputSignal) => {},
        other => panic!("{:?}", other),
    }
    match nodes.to_const(NodeIdx(9)) {
        Err(NodeConstErr::EmptyNode(i)) => assert_eq!(i.0, 9),
        other => panic!("{:?}", other),
    }
}

#[test]
fn to_const_follows_forward_references() {
    let mut nodes = Nodes::new();
    nodes.push(Node::Op(Operation::Add, 1, 2));
    nodes.push(c(3));
    nodes.push(Node::UnoOp(UnoOperation::Id, 3));
    nodes.push(c(4));
    nodes.push(Node::Op(Operation::Mul, 0, 5));
    assert_eq!(nodes.to_const(NodeIdx(0)).unwrap(), n(7));
    match nodes.to_const(NodeIdx(4)) {
        Err(NodeConstErr::EmptyNode(i)) => assert_eq!(i.0, 5),
        other => panic!("{:?}", other),
    }
}

#[test]
fn node_const_err_text() {
    assert_eq!(NodeConstErr::EmptyNode(NodeIdx(1205)).to_string(), "empty node at index 1205");
    assert_eq!(NodeConstErr::EmptyNode(NodeIdx(0)).to_string(), "empty node at index 0");
    assert_eq!(NodeConstErr::InputSignal.to_string(), "input signal is not a constant");
}

#[test]
fn assert_valid_checks_backward_references() {
    assert!(assert_valid(&[c(1), Node::Op(Operation::Add, 0, 0)]));
    assert!(!assert_valid(&[c(1), Node::Op(Operation::Add, 0, 1)]));
    assert!(!assert_valid(&[Node::UnoOp(UnoOperation::Neg, 1), c(1)]));
    assert!(assert_valid(&[]));
}

fn sample_graph() -> Vec<Node> {
    vec![
        Node::Input(0),                          // 0: x
        Node::Input(1),                          // 1: y
        c(3),                                    // 2
        Node::Op(Operation::Mul, 0, 1),          // 3: x * y
        Node::Op(Operation::Add, 3, 2),          // 4: x * y + 3
        Node::Op(Operation::Sub, 0, 0),          // 5: unused
        Node::UnoOp(UnoOperation::Neg, 4),       // 6: -(x * y + 3)
        Node::Op(Operation::Lt, 6, 2),           // 7: -(..) < 3
    ]
}

#[test]
fn evaluate_computes_outputs() {
    let nodes = sample_graph();
    let out = evaluate(&nodes, &[n(5), n(7)], &[4, 7]);
    assert_eq!(out, vec![n(38), n(1)]);
    let checked = evaluate_checked(&nodes, &[n(5), n(7)], &[4, 7]);
    assert_eq!(checked, Some(vec![n(38), n(1)]));
}

#[test]
fn evaluate_checked_refuses() {
    let nodes = sample_graph();
    // missing input
    assert_eq!(evaluate_checked(&nodes, &[n(5)], &[4]), None);
    // output past the last node
    assert_eq!(evaluate_checked(&nodes, &[n(5), n(7)], &[8]), None);
    // forward reference
    assert_eq!(evaluate_checked(&[Node::UnoOp(UnoOperation::Neg, 0)], &[], &[0]), None);
    // no field-element evaluation
    assert_eq!(evaluate_checked(&[c(2), Node::Op(Operation::Pow, 0, 0)], &[], &[1]), None);
    // the identity has a field-element evaluation
    assert_eq!(evaluate_checked(&[c(2), Node::UnoOp(UnoOperation::Id, 0)], &[], &[1]), Some(vec![n(2)]));
}

#[test]
fn tree_shake_removes_unused_and_keeps_values() {
    let mut nodes = sample_graph();
    let before = evaluate(&nodes, &[n(5), n(7)], &[4, 7]);
    let mut outputs = vec![4usize, 7];
    tree_shake(&mut nodes, &mut outputs);
    assert_eq!(nodes.len(), 7);
    assert_eq!(outputs, vec![4, 6]);
    assert_eq!(nodes[5], Node::UnoOp(UnoOperation::Neg, 4));
    assert_eq!(nodes[6], Node::Op(Operation::Lt, 5, 2));
    let after = evaluate(&nodes, &[n(5), n(7)], &outputs);
    assert_eq!(before, after);
}

#[test]
fn tree_shake_removes_nodes_read_only_by_unused_nodes() {
    let mut nodes = vec![
        Node::Input(0),
        Node::Input(1),
        Node::Op(Operation::Add, 0, 1),
        Node::UnoOp(UnoOperation::Neg, 2),
        Node::Op(Operation::Mul, 0, 0),
    ];
    let mut outputs = vec![4usize, 4];
    tree_shake(&mut nodes, &mut outputs);
    assert_eq!(nodes, vec![Node::Input(0), Node::Op(Operation::Mul, 0, 0)]);
    assert_eq!(outputs, vec![1, 1]);
}

#[test]
fn propagate_folds_constants() {
    let mut nodes = vec![
        c(3),
        c(4),
        Node::Op(Operation::Mul, 0, 1),
        Node::UnoOp(UnoOperation::Neg, 2),
        Node::Input(0),
        Node::Op(Operation::Eq, 4, 4),
        Node::Op(Operation::Lt, 4, 4),
        Node::Op(Operation::Add, 4, 4),
        Node::TresOp(TresOperation::TernCond, 0, 1, 4),
    ];
    propagate(&mut nodes);
    assert_eq!(nodes[2], c(12));
    assert_eq!(nodes[3], Node::Constant(Operation::Sub.eval(n(0), n(12))));
    assert_eq!(nodes[5], c(1));
    assert_eq!(nodes[6], c(0));
    assert_eq!(nodes[7], Node::Op(Operation::Add, 4, 4));
    assert_eq!(nodes[8], Node::TresOp(TresOperation::TernCond, 0, 1, 4));
}

#[test]
fn propagate_keeps_evaluation() {
    let mut nodes = vec![
        c(3),
        c(4),
        Node::Op(Operation::Mul, 0, 1),
        Node::Input(0),
        Node::Op(Operation::Add, 2, 3),
        Node::UnoOp(UnoOperation::Neg, 2),
        Node::Op(Operation::Lt, 5, 3),
        Node::Op(Operation::Geq, 3, 3),
        Node::TresOp(TresOperation::TernCond, 7, 4, 5),
        Node::Op(Operation::Shr, 5, 1),
    ];
    let outputs = [2usize, 4, 5, 6, 7, 8, 9];
    let inputs = [n(9)];
    let before = evaluate(&nodes, &inputs, &outputs);
    propagate(&mut nodes);
    assert_eq!(nodes[7], c(1));
    assert!(matches!(nodes[9], Node::Constant(_)));
    let after = evaluate(&nodes, &inputs, &outputs);
    assert_eq!(before, after);
}

#[test]
fn propagate_reads_constants_above_modulus_as_integers() {
    let mut limbs = modulus_u256().limbs();
    limbs[0] += 1;
    let mut nodes = vec![Node::Constant(U256::from_limbs(limbs)), c(0), Node::Op(Operation::Gt, 0, 1)];
    // evaluated as a field element the constant is 1, which is above 0
    assert_eq!(evaluate(&nodes, &[], &[2]), vec![n(1)]);
    // folded as an integer it lies in the negative half
    propagate(&mut nodes);
    assert_eq!(nodes[2], c(0));
    assert_eq!(evaluate(&nodes, &[], &[2]), vec![n(0)]);
}

#[test]
fn value_numbering_merges_equal_nodes() {
    let mut nodes = vec![
        Node::Input(0),
        Node::Input(1),
        Node::Op(Operation::Add, 0, 1),
        Node::Op(Operation::Add, 1, 0),
        Node::Op(Operation::Mul, 2, 3),
        Node::Op(Operation::Lt, 2, 0),
        Node::Op(Operation::Lt, 3, 0),
    ];
    let mut outputs = vec![4usize, 6];
    value_numbering(&mut nodes, &mut outputs);
    assert_eq!(nodes[4], Node::Op(Operation::Mul, 2, 2));
    assert_eq!(nodes[6], Node::Op(Operation::Lt, 2, 0));
    assert_eq!(outputs, vec![4, 5]);
}

#[test]
fn constants_detects_constant_nodes() {
    let mut nodes = vec![
        Node::Input(0),
        Node::Op(Operation::Sub, 0, 0),
        Node::Op(Operation::Add, 0, 0),
        c(7),
    ];
    constants(&mut nodes);
    assert_eq!(nodes[1], c(0));
    assert_eq!(nodes[0], Node::Input(0));
    assert_eq!(nodes[3], c(7));
    assert!(!matches!(nodes[2], Node::Constant(_)));
}

#[test]
fn montgomery_form_converts_constants() {
    let mut nodes = vec![c(3), Node::Input(0), Node::Op(Operation::Add, 0, 1)];
    assert!(is_montgomery_supported(&nodes));
    let before = evaluate(&nodes, &[n(4)], &[2]);
    montgomery_form(&mut nodes);
    assert_eq!(nodes[0], Node::MontConstant(Fr::from_u64(3)));
    assert_eq!(nodes[1], Node::Input(0));
    let after = evaluate(&nodes, &[n(4)], &[2]);
    assert_eq!(before, after);
    assert!(!is_montgomery_supported(&[c(1), Node::Op(Operation::Pow, 0, 0)]));
}

#[test]
fn optimize_keeps_outputs() {
    let mut nodes = sample_graph();
    let inputs = [n(5), n(7)];
    let before = evaluate(&nodes, &inputs, &[4, 7]);
    let mut outputs = vec![4usize, 7];
    assert!(optimize(&mut nodes, &mut outputs));
    assert!(nodes.len() <= 7);
    let after = evaluate(&nodes, &inputs, &outputs);
    assert_eq!(before, after);
    assert!(nodes.iter().all(|x| !matches!(x, Node::Constant(_))));
}

#[test]
fn optimize_refuses() {
    let mut nodes = vec![Node::UnoOp(UnoOperation::Neg, 0)];
    let mut outputs = vec![0usize];
    assert!(!optimize(&mut nodes, &mut outputs));
    let mut nodes = vec![c(1)];
    let mut outputs = vec![1usize];
    assert!(!optimize(&mut nodes, &mut outputs));
    // division by zero while propagating constants
    let mut nodes = vec![c(1), c(0), Node::Op(Operation::Idiv, 0, 1)];
    let mut outputs = vec![2usize];
    assert!(!optimize(&mut nodes, &mut outputs));
    // a power that stays: no field-element evaluation
    let mut nodes = vec![Node::Input(0), Node::Op(Operation::Pow, 0, 0)];
    let mut outputs = vec![1usize];
    assert!(!optimize(&mut nodes, &mut outputs));
}

#[test]
fn random_eval_from_uses_the_draws() {
    let mut limbs = modulus_u256().limbs();
    limbs[0] += 3;
    let m_plus_3 = U256::from_limbs(limbs);
    let nodes = vec![
        Node::Input(0),
        Node::Input(1),
        Node::Input(0),
        Node::Op(Operation::Add, 0, 1),
        Node::Op(Operation::Lt, 0, 1),
        Node::Op(Operation::Lt, 2, 1),
        c(5),
    ];
    let draws = vec![n(5), n(7), n(9), n(11), m_plus_3, n(13), n(17)];
    let values = random_eval_from(&nodes, &draws);
    assert_eq!(values, vec![n(5), n(7), n(5), n(12), n(3), n(3), n(5)]);
}

#[test]
fn value_numbering_with_given_values() {
    let mut nodes = vec![
        Node::Input(0),
        Node::Input(1),
        Node::Op(Operation::Add, 0, 1),
        Node::Op(Operation::Mul, 1, 2),
    ];
    let mut outputs = vec![3usize, 1];
    value_numbering_with(&mut nodes, &mut outputs, &vec![n(1), n(1), n(2), n(2)]);
    assert_eq!(nodes[2], Node::Op(Operation::Add, 0, 0));
    assert_eq!(nodes[3], Node::Op(Operation::Mul, 0, 2));
    assert_eq!(outputs, vec![2, 0]);
}

#[test]
fn constants_with_given_values() {
    let mut nodes = vec![Node::Input(0), Node::Input(1), c(4), Node::Op(Operation::Add, 0, 1)];
    constants_with(&mut nodes, &vec![n(3), n(6), n(4), n(9)], &vec![n(3), n(8), n(4), n(11)]);
    assert_eq!(nodes, vec![c(3), Node::Input(1), c(4), Node::Op(Operation::Add, 0, 1)]);
}
