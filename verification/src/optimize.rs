//! Optimization passes over witness graphs.
use crate::field::Fr;
use crate::fr_ops::lemma_eval_fr_agrees_below;
use crate::graph::{
    assert_valid, const_eval, const_eval_within, evaluable, fr_node_defined, fr_values, lemma_fr_values_at, lemma_fr_values_len,
    refs_below, valid_graph, Node,
};
use crate::numbering::{constants, constants_by, no_mont_constants, numbered_by, random_evaluation, value_numbering};
use crate::shake::{rank, shaken, tree_shake, used_marks};
use crate::ops::UnoOperation;
use crate::u256::{b4, field_inv, lemma_bitand_le, lemma_u256_of_value, lemma_value_bound, modulus, wrapping_sub_value};
use crate::ops::{op_defined, op_value, tres_value, uno_value, Operation};
use crate::u256::{lemma_limbs_of_value, u256_of, U256};
use vstd::prelude::*;

verus! {

/// Node `n` with constant propagation applied, given the already
/// propagated nodes before it: an operation on constants becomes the
/// constant it computes, and a comparison of a node with itself becomes its
/// known truth value.
pub open spec fn fold_node(n: Node, prev: Seq<Node>) -> Node {
    match n {
        Node::Op(op, a, b) => match (prev[a as int], prev[b as int]) {
            (Node::Constant(va), Node::Constant(vb)) => Node::Constant(u256_of(op_value(op, va@, vb@))),
            _ => if a == b {
                match op {
                    Operation::Eq | Operation::Leq | Operation::Geq => Node::Constant(u256_of(1)),
                    Operation::Neq | Operation::Lt | Operation::Gt => Node::Constant(u256_of(0)),
                    _ => n,
                }
            } else {
                n
            },
        },
        Node::UnoOp(op, a) => match prev[a as int] {
            Node::Constant(va) => Node::Constant(u256_of(uno_value(op, va@))),
            _ => n,
        },
        Node::TresOp(op, a, b, c) => match (prev[a as int], prev[b as int], prev[c as int]) {
            (Node::Constant(va), Node::Constant(vb), Node::Constant(vc)) => Node::Constant(
                u256_of(tres_value(op, va@, vb@, vc@)),
            ),
            _ => n,
        },
        _ => n,
    }
}

/// Folding node `n` does not apply an operation outside its domain.
pub open spec fn fold_defined(n: Node, prev: Seq<Node>) -> bool {
    match n {
        Node::Op(op, a, b) => match (prev[a as int], prev[b as int]) {
            (Node::Constant(va), Node::Constant(vb)) => op_defined(op, va@, vb@),
            _ => true,
        },
        _ => true,
    }
}

/// All nodes with constant propagation applied, in order.
pub open spec fn propagated(nodes: Seq<Node>) -> Seq<Node>
    decreases nodes.len(),
{
    if nodes.len() == 0 {
        Seq::empty()
    } else {
        let prev = propagated(nodes.drop_last());
        prev.push(fold_node(nodes.last(), prev))
    }
}

/// Constant propagation applies no operation outside its domain.
pub open spec fn propagation_defined(nodes: Seq<Node>) -> bool {
    forall|i: int| 0 <= i < nodes.len() ==> fold_defined(#[trigger] nodes[i], propagated(nodes))
}

pub proof fn lemma_propagated_len(nodes: Seq<Node>)
    ensures
        propagated(nodes).len() == nodes.len(),
    decreases nodes.len(),
{
    if nodes.len() > 0 {
        lemma_propagated_len(nodes.drop_last());
    }
}

/// Propagating a prefix of the nodes gives a prefix of the result.
pub proof fn lemma_propagated_prefix(nodes: Seq<Node>, k: int)
    requires
        0 <= k <= nodes.len(),
    ensures
        propagated(nodes.take(k)) == propagated(nodes).take(k),
    decreases nodes.len(),
{
    lemma_propagated_len(nodes);
    if k == nodes.len() {
        assert(nodes.take(k) =~= nodes);
        assert(propagated(nodes).take(k) =~= propagated(nodes));
    } else {
        lemma_propagated_prefix(nodes.drop_last(), k);
        assert(nodes.drop_last().take(k) =~= nodes.take(k));
        lemma_propagated_len(nodes.drop_last());
        assert(propagated(nodes).take(k) =~= propagated(nodes.drop_last()).take(k));
    }
}

/// Folding a node with backward references reads only the nodes before it.
proof fn lemma_fold_prefix(n: Node, i: int, p1: Seq<Node>, p2: Seq<Node>)
    requires
        refs_below(n, i),
        0 <= i <= p1.len(),
        0 <= i <= p2.len(),
        p1.take(i) == p2.take(i),
    ensures
        fold_node(n, p1) == fold_node(n, p2),
        fold_defined(n, p1) == fold_defined(n, p2),
{
    match n {
        Node::Op(op, a, b) => {
            assert(p1[a as int] == p1.take(i)[a as int]);
            assert(p2[a as int] == p2.take(i)[a as int]);
            assert(p1[b as int] == p1.take(i)[b as int]);
            assert(p2[b as int] == p2.take(i)[b as int]);
        },
        Node::UnoOp(op, a) => {
            assert(p1[a as int] == p1.take(i)[a as int]);
            assert(p2[a as int] == p2.take(i)[a as int]);
        },
        Node::TresOp(op, a, b, c) => {
            assert(p1[a as int] == p1.take(i)[a as int]);
            assert(p2[a as int] == p2.take(i)[a as int]);
            assert(p1[b as int] == p1.take(i)[b as int]);
            assert(p2[b as int] == p2.take(i)[b as int]);
            assert(p1[c as int] == p1.take(i)[c as int]);
            assert(p2[c as int] == p2.take(i)[c as int]);
        },
        _ => {},
    }
}

/// A folded node keeps its references backwards.
proof fn lemma_fold_refs(n: Node, i: int, prev: Seq<Node>)
    requires
        refs_below(n, i),
    ensures
        refs_below(fold_node(n, prev), i),
{
}

/// Node `i` folded over the current nodes, or `None` where the folding would
/// apply an operation outside its domain.
fn fold_at(nodes: &[Node], i: usize) -> (r: Option<Node>)
    requires
        i < nodes@.len(),
        refs_below(nodes@[i as int], i as int),
    ensures
        r is Some <==> fold_defined(nodes@[i as int], nodes@),
        r matches Some(n) ==> n == fold_node(nodes@[i as int], nodes@),
{
    let node = nodes[i];
    if let Node::Op(op, a, b) = node {
        if let (Node::Constant(va), Node::Constant(vb)) = (nodes[a], nodes[b]) {
            if !op.is_defined(va, vb) {
                return None;
            }
            let v = op.eval(va, vb);
            proof {
                lemma_limbs_of_value(v);
            }
            Some(Node::Constant(v))
        } else if a == b {
            // Not constant but equal
            let c = match op {
                Operation::Eq | Operation::Leq | Operation::Geq => Some(true),
                Operation::Neq | Operation::Lt | Operation::Gt => Some(false),
                _ => None,
            };
            if let Some(c) = c {
                let v = U256::from_bool(c);
                proof {
                    lemma_limbs_of_value(v);
                }
                Some(Node::Constant(v))
            } else {
                Some(node)
            }
        } else {
            Some(node)
        }
    } else if let Node::UnoOp(op, a) = node {
        if let Node::Constant(va) = nodes[a] {
            let v = op.eval(va);
            proof {
                lemma_limbs_of_value(v);
            }
            Some(Node::Constant(v))
        } else {
            Some(node)
        }
    } else if let Node::TresOp(op, a, b, c) = node {
        if let (Node::Constant(va), Node::Constant(vb), Node::Constant(vc)) = (nodes[a], nodes[b], nodes[c]) {
            let v = op.eval(va, vb, vc);
            proof {
                lemma_limbs_of_value(v);
            }
            Some(Node::Constant(v))
        } else {
            Some(node)
        }
    } else {
        Some(node)
    }
}

/// Constant propagation in place, stopping with `false` at the first node
/// whose folding would apply an operation outside its domain.
fn propagate_checked(nodes: &mut [Node]) -> (ok: bool)
    requires
        valid_graph(old(nodes)@),
    ensures
        ok == propagation_defined(old(nodes)@),
        ok ==> final(nodes)@ == propagated(old(nodes)@),
        final(nodes)@.len() == old(nodes)@.len(),
        valid_graph(final(nodes)@),
{
    let ghost orig = nodes@;
    let mut i: usize = 0;
    while i < nodes.len()
        invariant
            i <= nodes@.len() == orig.len(),
            orig == old(nodes)@,
            valid_graph(orig),
            nodes@ == propagated(orig.take(i as int)) + orig.skip(i as int),
            forall|j: int| 0 <= j < i ==> fold_defined(#[trigger] orig[j], propagated(orig.take(i as int))),
            valid_graph(nodes@),
        decreases nodes.len() - i,
    {
        let ghost prev = propagated(orig.take(i as int));
        proof {
            lemma_propagated_len(orig.take(i as int));
            assert(orig.take(i as int + 1).drop_last() =~= orig.take(i as int));
            assert(nodes@[i as int] == orig[i as int]);
            assert forall|j: int| 0 <= j < i implies #[trigger] nodes@[j] == prev[j] by {}
            assert(refs_below(orig[i as int], i as int));
        }
        proof {
            assert(nodes@.take(i as int) =~= prev.take(i as int));
            lemma_fold_prefix(orig[i as int], i as int, nodes@, prev);
        }
        let folded = match fold_at(nodes, i) {
            Some(f) => f,
            None => {
                proof {
                    lemma_propagation_fail(orig, i as int);
                }
                return false;
            },
        };
        proof {
            assert(folded == fold_node(orig[i as int], prev));
            lemma_fold_refs(orig[i as int], i as int, prev);
        }
        nodes[i] = folded;
        proof {
            let next = propagated(orig.take(i as int + 1));
            assert(next == prev.push(folded));
            assert(nodes@ =~= next + orig.skip(i as int + 1));
            assert forall|j: int| 0 <= j < i + 1 implies fold_defined(#[trigger] orig[j], next) by {
                assert(prev.take(j) =~= next.take(j));
                lemma_fold_prefix(orig[j], j, prev, next);
            }
        }
        i += 1;
    }
    proof {
        assert(orig.take(i as int) =~= orig);
        assert(nodes@ =~= propagated(orig));
    }
    true
}

/// Where folding node `i` after the nodes before it are folded would apply an
/// operation outside its domain, propagation is not defined.
proof fn lemma_propagation_fail(nodes: Seq<Node>, i: int)
    requires
        valid_graph(nodes),
        0 <= i < nodes.len(),
        !fold_defined(nodes[i], propagated(nodes.take(i))),
    ensures
        !propagation_defined(nodes),
{
    lemma_propagated_prefix(nodes, i);
    lemma_propagated_len(nodes);
    lemma_propagated_len(nodes.take(i));
    assert(propagated(nodes).take(i) =~= propagated(nodes.take(i)).take(i));
    lemma_fold_prefix(nodes[i], i, propagated(nodes.take(i)), propagated(nodes));
}

/// Constant propagation: every operation on constants becomes the constant
/// that it computes, in order, so that it can feed later foldings; a
/// comparison of a node with itself becomes its truth value.
pub fn propagate(nodes: &mut [Node])
    requires
        valid_graph(old(nodes)@),
        propagation_defined(old(nodes)@),
    ensures
        final(nodes)@ == propagated(old(nodes)@),
        valid_graph(final(nodes)@),
{
    propagate_checked(nodes);
}

/// The propagated node `i` is node `i` folded over all propagated nodes.
pub proof fn lemma_propagated_at(nodes: Seq<Node>, i: int)
    requires
        0 <= i < nodes.len(),
        refs_below(nodes[i], i),
    ensures
        propagated(nodes)[i] == fold_node(nodes[i], propagated(nodes)),
{
    lemma_propagated_prefix(nodes, i + 1);
    lemma_propagated_prefix(nodes, i);
    lemma_propagated_len(nodes);
    lemma_propagated_len(nodes.take(i));
    assert(nodes.take(i + 1).drop_last() =~= nodes.take(i));
    assert(propagated(nodes).take(i + 1)[i] == propagated(nodes)[i]);
    assert(propagated(nodes).take(i) =~= propagated(nodes.take(i)).take(i));
    lemma_fold_prefix(nodes[i], i, propagated(nodes.take(i)), propagated(nodes));
}

/// The operations on integers below 2^256 give integers below 2^256.
pub proof fn lemma_op_value_bound(op: Operation, x: nat, y: nat)
    requires
        x < b4(),
        y < b4(),
        op_defined(op, x, y),
    ensures
        op_value(op, x, y) < b4(),
{
    let m = modulus();
    match op {
        Operation::Pow => {
            lemma_pow_mod_bound(x, y);
        },
        Operation::Idiv => {
            vstd::arithmetic::div_mod::lemma_div_nonincreasing(x as int, y as int);
        },
        Operation::Mod => {
            vstd::arithmetic::div_mod::lemma_mod_decreases(x, y);
        },
        Operation::Shr => {
            vstd::arithmetic::power2::lemma_pow2_pos(y);
            vstd::arithmetic::div_mod::lemma_div_nonincreasing(x as int, vstd::arithmetic::power2::pow2(y) as int);
        },
        Operation::Bor => {
            let p = crate::u256::u256_of(x);
            let q = crate::u256::u256_of(y);
            lemma_value_bound([p.l0 | q.l0, p.l1 | q.l1, p.l2 | q.l2, p.l3 | q.l3]);
        },
        Operation::Band => {
            let p = crate::u256::u256_of(x);
            let q = crate::u256::u256_of(y);
            lemma_value_bound([p.l0 & q.l0, p.l1 & q.l1, p.l2 & q.l2, p.l3 & q.l3]);
        },
        Operation::Bxor => {
            let p = crate::u256::u256_of(x);
            let q = crate::u256::u256_of(y);
            lemma_value_bound([p.l0 ^ q.l0, p.l1 ^ q.l1, p.l2 ^ q.l2, p.l3 ^ q.l3]);
        },
        _ => {},
    }
}

proof fn lemma_pow_mod_bound(x: nat, y: nat)
    ensures
        ((vstd::arithmetic::power::pow(x as int, y) % (modulus() as int)) as nat) < modulus(),
{
    vstd::arithmetic::div_mod::lemma_mod_bound(vstd::arithmetic::power::pow(x as int, y), modulus() as int);
}

/// A constant value of a node is below 2^256.
pub proof fn lemma_const_eval_bound(nodes: Seq<Node>, i: usize, depth: nat)
    requires
        const_eval_within(nodes, i, depth) is Value,
    ensures
        const_eval_within(nodes, i, depth)->Value_0 < b4(),
    decreases depth,
{
    let d = (depth - 1) as nat;
    match nodes[i as int] {
        Node::Constant(c) => {
            lemma_value_bound(c.spec_limbs());
        },
        Node::UnoOp(op, a) => {
            lemma_const_eval_bound(nodes, a, d);
        },
        Node::Op(op, a, b) => {
            lemma_const_eval_bound(nodes, a, d);
            lemma_const_eval_bound(nodes, b, d);
            lemma_op_value_bound(
                op,
                const_eval_within(nodes, a, d)->Value_0,
                const_eval_within(nodes, b, d)->Value_0,
            );
        },
        Node::TresOp(op, a, b, c) => {
            lemma_const_eval_bound(nodes, a, d);
            lemma_const_eval_bound(nodes, b, d);
            lemma_const_eval_bound(nodes, c, d);
        },
        _ => {},
    }
}

/// Constant propagation turns every node that has a constant value, however
/// deep its evaluation goes, into that constant.
proof fn lemma_propagate_computes_within(nodes: Seq<Node>, i: usize, depth: nat)
    requires
        valid_graph(nodes),
        const_eval_within(nodes, i, depth) is Value,
    ensures
        i < nodes.len(),
        propagated(nodes)[i as int] == Node::Constant(u256_of(const_eval_within(nodes, i, depth)->Value_0)),
    decreases depth,
{
    let d = (depth - 1) as nat;
    assert(refs_below(nodes[i as int], i as int));
    lemma_propagated_at(nodes, i as int);
    match nodes[i as int] {
        Node::Constant(c) => {
            lemma_limbs_of_value(c);
        },
        Node::UnoOp(op, a) => {
            lemma_propagate_computes_within(nodes, a, d);
            lemma_const_eval_bound(nodes, a, d);
            lemma_u256_of_value(const_eval_within(nodes, a, d)->Value_0);
        },
        Node::Op(op, a, b) => {
            lemma_propagate_computes_within(nodes, a, d);
            lemma_propagate_computes_within(nodes, b, d);
            lemma_const_eval_bound(nodes, a, d);
            lemma_const_eval_bound(nodes, b, d);
            lemma_u256_of_value(const_eval_within(nodes, a, d)->Value_0);
            lemma_u256_of_value(const_eval_within(nodes, b, d)->Value_0);
        },
        Node::TresOp(op, a, b, c) => {
            lemma_propagate_computes_within(nodes, a, d);
            lemma_propagate_computes_within(nodes, b, d);
            lemma_propagate_computes_within(nodes, c, d);
            lemma_const_eval_bound(nodes, a, d);
            lemma_const_eval_bound(nodes, b, d);
            lemma_const_eval_bound(nodes, c, d);
            lemma_u256_of_value(const_eval_within(nodes, a, d)->Value_0);
            lemma_u256_of_value(const_eval_within(nodes, b, d)->Value_0);
            lemma_u256_of_value(const_eval_within(nodes, c, d)->Value_0);
        },
        _ => {},
    }
}

/// Constant propagation turns every node that has a constant value into that
/// constant.
pub proof fn lemma_propagate_computes_constants(nodes: Seq<Node>, i: usize)
    requires
        valid_graph(nodes),
        const_eval(nodes, i) is Value,
    ensures
        i < nodes.len(),
        propagated(nodes)[i as int] == Node::Constant(u256_of(const_eval(nodes, i)->Value_0)),
{
    lemma_propagate_computes_within(nodes, i, (nodes.len() + 1) as nat);
}

/// Every constant of the graph is below the modulus.
pub open spec fn constants_below_modulus(nodes: Seq<Node>) -> bool {
    forall|i: int| 0 <= i < nodes.len() ==> (#[trigger] nodes[i] matches Node::Constant(c) ==> c@ < modulus())
}

/// A propagated node has the field value of the node it replaces, and can be
/// evaluated; a propagated constant is that value.
proof fn lemma_propagated_value(nodes: Seq<Node>, inputs: Seq<U256>, j: int)
    requires
        valid_graph(nodes),
        propagation_defined(nodes),
        evaluable(nodes, inputs),
        constants_below_modulus(propagated(nodes)),
        0 <= j < nodes.len(),
    ensures
        fr_values(propagated(nodes), inputs)[j] == fr_values(nodes, inputs)[j],
        fr_node_defined(propagated(nodes)[j], j, inputs, fr_values(propagated(nodes), inputs)),
        propagated(nodes)[j] matches Node::Constant(c) ==> c@ == fr_values(nodes, inputs)[j],
    decreases j,
{
    let p = propagated(nodes);
    let vn = fr_values(nodes, inputs);
    let vp = fr_values(p, inputs);
    let m = modulus();
    lemma_propagated_len(nodes);
    lemma_fr_values_len(nodes, inputs);
    lemma_fr_values_len(p, inputs);
    assert(refs_below(nodes[j], j));
    lemma_propagated_at(nodes, j);
    lemma_fold_refs(nodes[j], j, p);
    lemma_fr_values_at(nodes, inputs, j);
    lemma_fr_values_at(p, inputs, j);
    assert(fr_node_defined(nodes[j], j, inputs, vn));
    assert(fold_defined(nodes[j], p));
    assert(p[j] matches Node::Constant(c) ==> c@ < m);
    match nodes[j] {
        Node::Constant(c) => {
            vstd::arithmetic::div_mod::lemma_small_mod(c@, m);
        },
        Node::Op(op, a, b) => {
            lemma_propagated_value(nodes, inputs, a as int);
            lemma_propagated_value(nodes, inputs, b as int);
            match (p[a as int], p[b as int]) {
                (Node::Constant(va), Node::Constant(vb)) => {
                    let x = op_value(op, va@, vb@);
                    lemma_value_bound(va.spec_limbs());
                    lemma_value_bound(vb.spec_limbs());
                    lemma_op_value_bound(op, va@, vb@);
                    lemma_u256_of_value(x);
                    vstd::arithmetic::div_mod::lemma_small_mod(x, m);
                    lemma_eval_fr_agrees_below(op, va@, vb@);
                },
                _ => {
                    lemma_u256_of_value(0);
                    lemma_u256_of_value(1);
                    vstd::arithmetic::div_mod::lemma_small_mod(0, m);
                    vstd::arithmetic::div_mod::lemma_small_mod(1, m);
                },
            }
        },
        Node::UnoOp(op, a) => {
            lemma_propagated_value(nodes, inputs, a as int);
            if let Node::Constant(va) = p[a as int] {
                if va@ != 0 {
                    vstd::arithmetic::div_mod::lemma_small_mod((m - va@) as nat, b4());
                }
                lemma_u256_of_value(uno_value(op, va@));
                vstd::arithmetic::div_mod::lemma_small_mod(uno_value(op, va@), m);
            }
        },
        Node::TresOp(op, a, b, c) => {
            lemma_propagated_value(nodes, inputs, a as int);
            lemma_propagated_value(nodes, inputs, b as int);
            lemma_propagated_value(nodes, inputs, c as int);
            if let (Node::Constant(va), Node::Constant(vb), Node::Constant(vc)) = (
                p[a as int],
                p[b as int],
                p[c as int],
            ) {
                lemma_u256_of_value(tres_value(op, va@, vb@, vc@));
                vstd::arithmetic::div_mod::lemma_small_mod(tres_value(op, va@, vb@, vc@), m);
            }
        },
        _ => {},
    }
}

/// Constant propagation keeps the field value of every node, and keeps the
/// graph evaluable, wherever every constant of the propagated graph is below
/// the modulus.
pub proof fn lemma_propagate_keeps_values(nodes: Seq<Node>, inputs: Seq<U256>)
    requires
        valid_graph(nodes),
        propagation_defined(nodes),
        evaluable(nodes, inputs),
        constants_below_modulus(propagated(nodes)),
    ensures
        evaluable(propagated(nodes), inputs),
        fr_values(propagated(nodes), inputs) == fr_values(nodes, inputs),
{
    let p = propagated(nodes);
    lemma_propagated_len(nodes);
    lemma_fr_values_len(nodes, inputs);
    lemma_fr_values_len(p, inputs);
    assert forall|j: int| 0 <= j < p.len() implies fr_node_defined(#[trigger] p[j], j, inputs, fr_values(p, inputs)) by {
        lemma_propagated_value(nodes, inputs, j);
    }
    assert forall|j: int| 0 <= j < p.len() implies #[trigger] fr_values(p, inputs)[j] == fr_values(nodes, inputs)[j] by {
        lemma_propagated_value(nodes, inputs, j);
    }
    assert(fr_values(p, inputs) =~= fr_values(nodes, inputs));
}

/// The binary operations that take field values to field values, and that
/// have a field-element evaluation on all of them.
pub open spec fn field_closed_op(op: Operation) -> bool {
    match op {
        Operation::Mul | Operation::Div | Operation::Add | Operation::Sub | Operation::Eq | Operation::Neq
        | Operation::Lt | Operation::Gt | Operation::Leq | Operation::Geq | Operation::Land | Operation::Lor
        | Operation::Band => true,
        _ => false,
    }
}

/// A graph over field values: every constant is below the modulus, no node is
/// already a field element, every binary operation is field-closed, and every
/// input exists.
pub open spec fn field_graph(nodes: Seq<Node>, inputs: Seq<U256>) -> bool {
    forall|i: int|
        0 <= i < nodes.len() ==> match #[trigger] nodes[i] {
            Node::Constant(c) => c@ < modulus(),
            Node::MontConstant(_) => false,
            Node::Op(op, _, _) => field_closed_op(op),
            Node::Input(k) => k < inputs.len(),
            _ => true,
        }
}

/// A field-closed operation on field values is defined and gives a field value.
proof fn lemma_field_closed_value(op: Operation, a: nat, b: nat)
    requires
        field_closed_op(op),
        a < modulus(),
        b < modulus(),
    ensures
        op_defined(op, a, b),
        op_value(op, a, b) < modulus(),
{
    let m = modulus();
    vstd::arithmetic::div_mod::lemma_small_mod(b, m);
    match op {
        Operation::Mul => {
            vstd::arithmetic::div_mod::lemma_mod_bound((a * b) as int, m as int);
        },
        Operation::Div => {
            vstd::arithmetic::div_mod::lemma_mod_bound((a * field_inv(b)) as int, m as int);
        },
        Operation::Add => {
            vstd::arithmetic::div_mod::lemma_mod_bound((a + b) as int, m as int);
        },
        Operation::Sub => {
            vstd::arithmetic::div_mod::lemma_mod_bound((a + wrapping_sub_value(m, b)) as int, m as int);
        },
        Operation::Band => {
            lemma_bitand_le(a, b);
        },
        _ => {},
    }
}

/// In a graph over field values, every propagated constant is a field value,
/// and every folding stays in its operation's domain.
proof fn lemma_propagated_below(nodes: Seq<Node>, inputs: Seq<U256>, i: int)
    requires
        valid_graph(nodes),
        field_graph(nodes, inputs),
        0 <= i < nodes.len(),
    ensures
        propagated(nodes)[i] matches Node::Constant(c) ==> c@ < modulus(),
        fold_defined(nodes[i], propagated(nodes)),
    decreases i,
{
    let p = propagated(nodes);
    let m = modulus();
    lemma_propagated_len(nodes);
    assert(refs_below(nodes[i], i));
    lemma_propagated_at(nodes, i);
    match nodes[i] {
        Node::Op(op, a, b) => {
            lemma_propagated_below(nodes, inputs, a as int);
            lemma_propagated_below(nodes, inputs, b as int);
            if let (Node::Constant(va), Node::Constant(vb)) = (p[a as int], p[b as int]) {
                lemma_field_closed_value(op, va@, vb@);
                lemma_u256_of_value(op_value(op, va@, vb@));
            } else {
                lemma_u256_of_value(0);
                lemma_u256_of_value(1);
            }
        },
        Node::UnoOp(op, a) => {
            lemma_propagated_below(nodes, inputs, a as int);
            if let Node::Constant(va) = p[a as int] {
                if va@ != 0 {
                    vstd::arithmetic::div_mod::lemma_small_mod((m - va@) as nat, b4());
                }
                lemma_u256_of_value(uno_value(op, va@));
            }
        },
        Node::TresOp(op, a, b, c) => {
            lemma_propagated_below(nodes, inputs, a as int);
            lemma_propagated_below(nodes, inputs, b as int);
            lemma_propagated_below(nodes, inputs, c as int);
            if let (Node::Constant(va), Node::Constant(vb), Node::Constant(vc)) = (
                p[a as int],
                p[b as int],
                p[c as int],
            ) {
                lemma_u256_of_value(tres_value(op, va@, vb@, vc@));
            }
        },
        _ => {},
    }
}

/// On a graph over field values, constant propagation is defined, and it keeps
/// the graph evaluable and the field value of every node.
pub proof fn lemma_propagate_keeps_field_values(nodes: Seq<Node>, inputs: Seq<U256>)
    requires
        valid_graph(nodes),
        field_graph(nodes, inputs),
    ensures
        propagation_defined(nodes),
        evaluable(nodes, inputs),
        evaluable(propagated(nodes), inputs),
        fr_values(propagated(nodes), inputs) == fr_values(nodes, inputs),
{
    let p = propagated(nodes);
    lemma_propagated_len(nodes);
    assert forall|i: int| 0 <= i < nodes.len() implies #[trigger] fold_defined(nodes[i], p) by {
        lemma_propagated_below(nodes, inputs, i);
    }
    assert forall|i: int| 0 <= i < p.len() implies (#[trigger] p[i] matches Node::Constant(c) ==> c@
        < modulus()) by {
        lemma_propagated_below(nodes, inputs, i);
    }
    let vals = fr_values(nodes, inputs);
    assert forall|i: int| 0 <= i < nodes.len() implies fr_node_defined(#[trigger] nodes[i], i, inputs, vals) by {
        assert(refs_below(nodes[i], i));
    }
    lemma_propagate_keeps_values(nodes, inputs);
}

/// Every operation of the graph is one that the conversion to Montgomery form
/// accepts: there is no `Pow` and no `Id`.
pub open spec fn montgomery_supported(nodes: Seq<Node>) -> bool {
    forall|i: int|
        0 <= i < nodes.len() ==> !(#[trigger] nodes[i] matches Node::Op(Operation::Pow, _, _)) && !(
        nodes[i] matches Node::UnoOp(UnoOperation::Id, _))
}

/// `after` is `before` in Montgomery form: a constant becomes the field
/// element of its value, any other node stays.
pub open spec fn montgomery_node(before: Node, after: Node) -> bool {
    match before {
        Node::Constant(c) => after matches Node::MontConstant(f) && f@ == c@ % modulus(),
        _ => after == before,
    }
}

/// The nodes of `after` are those of `before` in Montgomery form.
pub open spec fn montgomery_of(before: Seq<Node>, after: Seq<Node>) -> bool {
    &&& after.len() == before.len()
    &&& forall|i: int| 0 <= i < before.len() ==> montgomery_node(before[i], #[trigger] after[i])
}

/// Whether every operation of the graph is one that the conversion to
/// Montgomery form accepts.
pub fn is_montgomery_supported(nodes: &[Node]) -> (r: bool)
    ensures
        r == montgomery_supported(nodes@),
{
    let mut i: usize = 0;
    while i < nodes.len()
        invariant
            i <= nodes@.len(),
            forall|j: int|
                0 <= j < i ==> !(#[trigger] nodes@[j] matches Node::Op(Operation::Pow, _, _)) && !(
                nodes@[j] matches Node::UnoOp(UnoOperation::Id, _)),
        decreases nodes.len() - i,
    {
        match nodes[i] {
            Node::Op(Operation::Pow, _, _) => {
                return false;
            },
            Node::UnoOp(UnoOperation::Id, _) => {
                return false;
            },
            _ => {},
        }
        i += 1;
    }
    true
}

/// Converts every constant to its field element, as the graph is evaluated
/// in Montgomery form; no operation may be `Pow` or `Id`.
pub fn montgomery_form(nodes: &mut [Node])
    requires
        montgomery_supported(old(nodes)@),
    ensures
        montgomery_of(old(nodes)@, final(nodes)@),
{
    let ghost orig = nodes@;
    let n = nodes.len();
    for i in 0..n
        invariant
            n == orig.len() == nodes@.len(),
            forall|j: int| 0 <= j < i ==> montgomery_node(orig[j], #[trigger] nodes@[j]),
            forall|j: int| i <= j < n ==> #[trigger] nodes@[j] == orig[j],
    {
        if let Node::Constant(c) = nodes[i] {
            nodes[i] = Node::MontConstant(Fr::new(c));
        }
    }
}

/// Montgomery form keeps the references of every node.
pub proof fn lemma_montgomery_valid(before: Seq<Node>, after: Seq<Node>)
    requires
        montgomery_of(before, after),
        valid_graph(before),
    ensures
        valid_graph(after),
{
    assert forall|i: int| 0 <= i < after.len() implies refs_below(#[trigger] after[i], i) by {
        assert(refs_below(before[i], i));
        assert(montgomery_node(before[i], after[i]));
    }
}

/// Converting to Montgomery form keeps the field value of every node, and
/// whether the graph can be evaluated on given inputs.
pub proof fn lemma_montgomery_keeps_values(before: Seq<Node>, after: Seq<Node>, inputs: Seq<U256>)
    requires
        montgomery_of(before, after),
    ensures
        fr_values(after, inputs) == fr_values(before, inputs),
        evaluable(after, inputs) == evaluable(before, inputs),
    decreases before.len(),
{
    if before.len() > 0 {
        let b1 = before.drop_last();
        let a1 = after.drop_last();
        assert(montgomery_of(b1, a1)) by {
            assert forall|i: int| 0 <= i < b1.len() implies montgomery_node(b1[i], #[trigger] a1[i]) by {
                assert(montgomery_node(before[i], after[i]));
            }
        }
        lemma_montgomery_keeps_values(b1, a1, inputs);
        assert(montgomery_node(before.last(), after.last()));
    }
    let vals = fr_values(before, inputs);
    assert forall|i: int| 0 <= i < before.len() implies fr_node_defined(#[trigger] before[i], i, inputs, vals)
        == fr_node_defined(after[i], i, inputs, vals) by {
        assert(montgomery_node(before[i], after[i]));
    }
    if evaluable(before, inputs) {
        assert forall|i: int| 0 <= i < after.len() implies fr_node_defined(#[trigger] after[i], i, inputs, vals) by {
            assert(fr_node_defined(before[i], i, inputs, vals));
        }
    }
    if evaluable(after, inputs) {
        assert forall|i: int| 0 <= i < before.len() implies fr_node_defined(#[trigger] before[i], i, inputs, vals) by {
            assert(fr_node_defined(after[i], i, inputs, vals));
        }
    }
}

/// `after` and `outs_after` are `before` and `outs` with the unused nodes removed.
pub open spec fn shaken_to(before: Seq<Node>, outs: Seq<usize>, after: Seq<Node>, outs_after: Seq<usize>) -> bool {
    &&& after == shaken(before, used_marks(before, outs), before.len() as int)
    &&& outs_after.len() == outs.len()
    &&& forall|k: int|
        0 <= k < outs.len() ==> #[trigger] outs_after[k] == rank(used_marks(before, outs), outs[k] as int)
}

/// `before` with the unused nodes removed.
pub open spec fn first_shake(before: Seq<Node>, outs: Seq<usize>) -> Seq<Node> {
    shaken(before, used_marks(before, outs), before.len() as int)
}

/// The checks of `optimize` that do not depend on chance: a valid graph,
/// outputs in range, constant propagation defined after the first removal
/// of unused nodes, and no field-element constants after it.
pub open spec fn optimizable(before: Seq<Node>, outs: Seq<usize>) -> bool {
    &&& valid_graph(before)
    &&& forall|k: int| 0 <= k < outs.len() ==> #[trigger] outs[k] < before.len()
    &&& propagation_defined(first_shake(before, outs))
    &&& no_mont_constants(propagated(first_shake(before, outs)))
}

/// `n5` and `o5` are a possible outcome of the passes of `optimize` before the
/// conversion to Montgomery form: removal of unused nodes, constant
/// propagation, value numbering, constant detection and removal of unused
/// nodes, under some random evaluations.
pub open spec fn optimize_chain(before: Seq<Node>, outs: Seq<usize>, n5: Seq<Node>, o5: Seq<usize>) -> bool {
    exists|
        n1: Seq<Node>,
        o1: Seq<usize>,
        vals: Seq<U256>,
        n3: Seq<Node>,
        o3: Seq<usize>,
        va: Seq<U256>,
        vb: Seq<U256>,
        n4: Seq<Node>,
    |
        #![trigger shaken_to(before, outs, n1, o1), numbered_by(propagated(n1), o1, vals, n3, o3), constants_by(n3, va, vb, n4)]
        shaken_to(before, outs, n1, o1) && random_evaluation(propagated(n1), vals) && numbered_by(
            propagated(n1),
            o1,
            vals,
            n3,
            o3,
        ) && random_evaluation(n3, va) && random_evaluation(n3, vb) && constants_by(n3, va, vb, n4)
            && shaken_to(n4, o3, n5, o5)
}

/// `after` and `outs_after` are a possible outcome of `optimize`: the passes
/// of `optimize_chain`, then the conversion to Montgomery form.
pub open spec fn optimized(before: Seq<Node>, outs: Seq<usize>, after: Seq<Node>, outs_after: Seq<usize>) -> bool {
    exists|n5: Seq<Node>|
        #![trigger optimize_chain(before, outs, n5, outs_after)]
        optimize_chain(before, outs, n5, outs_after) && montgomery_supported(n5) && montgomery_of(n5, after)
}

/// Whether no node is already a field element.
fn has_no_mont_constants(nodes: &[Node]) -> (r: bool)
    ensures
        r == no_mont_constants(nodes@),
{
    let mut i: usize = 0;
    while i < nodes.len()
        invariant
            i <= nodes@.len(),
            forall|j: int| 0 <= j < i ==> !(#[trigger] nodes@[j] is MontConstant),
        decreases nodes.len() - i,
    {
        if let Node::MontConstant(_) = nodes[i] {
            return false;
        }
        i += 1;
    }
    true
}

/// Optimizes the graph: removes unused nodes, propagates constants, merges
/// nodes of equal random value, detects constants at random, removes unused
/// nodes again and converts to Montgomery form. Returns `false`, leaving the
/// graph in an intermediate state, where a pass is not defined on the graph:
/// an invalid graph or output, a propagation outside an operation's domain,
/// a field-element constant before the random evaluations, or a `Pow` or `Id`
/// left at the end.
pub fn optimize(nodes: &mut Vec<Node>, outputs: &mut [usize]) -> (ok: bool)
    ensures
        ok ==> optimizable(old(nodes)@, old(outputs)@),
        ok ==> optimized(old(nodes)@, old(outputs)@, final(nodes)@, final(outputs)@),
        ok ==> valid_graph(final(nodes)@) && forall|k: int|
            0 <= k < final(outputs)@.len() ==> #[trigger] final(outputs)@[k] < final(nodes)@.len(),
        !ok ==> !optimizable(old(nodes)@, old(outputs)@) || (optimize_chain(
            old(nodes)@,
            old(outputs)@,
            final(nodes)@,
            final(outputs)@,
        ) && !montgomery_supported(final(nodes)@)),
{
    let ghost n0 = nodes@;
    let ghost o0 = outputs@;
    if !assert_valid(nodes.as_slice()) {
        return false;
    }
    let n_out = outputs.len();
    for k in 0..n_out
        invariant
            n_out == outputs@.len(),
            forall|j: int| 0 <= j < k ==> #[trigger] outputs@[j] < nodes@.len(),
    {
        if outputs[k] >= nodes.len() {
            return false;
        }
    }
    tree_shake(nodes, outputs);
    let ghost n1 = nodes@;
    let ghost o1 = outputs@;
    assert(shaken_to(n0, o0, n1, o1));
    if !propagate_checked(nodes.as_mut_slice()) {
        return false;
    }
    let ghost n2 = nodes@;
    if !has_no_mont_constants(nodes.as_slice()) {
        return false;
    }
    value_numbering(nodes, outputs);
    let ghost n3 = nodes@;
    let ghost o3 = outputs@;
    let ghost vals = choose|vals: Seq<U256>| random_evaluation(n2, vals) && numbered_by(n2, o1, vals, n3, o3);
    proof {
        assert forall|i: int| 0 <= i < n3.len() implies !(#[trigger] n3[i] is MontConstant) by {
            assert(!(n2[i] is MontConstant));
        }
    }
    constants(nodes);
    let ghost n4 = nodes@;
    let ghost ab = choose|va: Seq<U256>, vb: Seq<U256>|
        random_evaluation(n3, va) && random_evaluation(n3, vb) && constants_by(n3, va, vb, n4);
    tree_shake(nodes, outputs);
    let ghost n5 = nodes@;
    let ghost o5 = outputs@;
    proof {
        assert(shaken_to(n4, o3, n5, o5));
        assert(numbered_by(propagated(n1), o1, vals, n3, o3));
        assert(constants_by(n3, ab.0, ab.1, n4));
        assert(optimize_chain(n0, o0, n5, o5));
    }
    if !is_montgomery_supported(nodes.as_slice()) {
        return false;
    }
    montgomery_form(nodes.as_mut_slice());
    proof {
        lemma_montgomery_valid(n5, nodes@);
        assert(optimized(n0, o0, nodes@, outputs@));
    }
    true
}

} // verus!
