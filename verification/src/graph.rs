//! Witness graphs: nodes that refer back to earlier nodes by index, their
//! constant evaluation on 256-bit integers and their evaluation on field
//! elements.
use crate::field::Fr;
use crate::fr_ops::{fr_op_defined, fr_op_value, fr_tres_value, fr_uno_value};
use crate::ops::{op_defined, op_value, tres_value, uno_value, Operation, TresOperation, UnoOperation};
use crate::text::{decimal, push_decimal};
use crate::u256::{modulus, U256};
use vstd::prelude::*;

verus! {

/// A node of a witness graph; operations refer to their operands by the
/// index of the node that computes them.
#[derive(Debug, Clone, Copy, PartialEq, Eq, Structural)]
pub enum Node {
    Input(usize),
    Constant(U256),
    MontConstant(Fr),
    UnoOp(UnoOperation, usize),
    Op(Operation, usize, usize),
    TresOp(TresOperation, usize, usize, usize),
}

/// Every operand index of `n` is below `i`.
pub open spec fn refs_below(n: Node, i: int) -> bool {
    match n {
        Node::UnoOp(_, a) => a < i,
        Node::Op(_, a, b) => a < i && b < i,
        Node::TresOp(_, a, b, c) => a < i && b < i && c < i,
        _ => true,
    }
}

/// The graph invariant: all references are backwards.
pub open spec fn valid_graph(nodes: Seq<Node>) -> bool {
    forall|i: int| 0 <= i < nodes.len() ==> refs_below(#[trigger] nodes[i], i)
}

/// Whether all references of the graph are backwards.
pub fn assert_valid(nodes: &[Node]) -> (ok: bool)
    ensures
        ok == valid_graph(nodes@),
{
    let mut i: usize = 0;
    while i < nodes.len()
        invariant
            i <= nodes.len(),
            forall|j: int| 0 <= j < i ==> refs_below(#[trigger] nodes@[j], j),
        decreases nodes.len() - i,
    {
        let ok = match nodes[i] {
            Node::Op(_, a, b) => a < i && b < i,
            Node::UnoOp(_, a) => a < i,
            Node::TresOp(_, a, b, c) => a < i && b < i && c < i,
            _ => true,
        };
        if !ok {
            return false;
        }
        i += 1;
    }
    true
}

/// The index of a node.
#[derive(Debug, Copy, Clone)]
pub struct NodeIdx(pub usize);

impl From<usize> for NodeIdx {
    fn from(v: usize) -> (r: NodeIdx) {
        NodeIdx(v)
    }
}

impl vstd::std_specs::convert::FromSpecImpl<usize> for NodeIdx {
    open spec fn obeys_from_spec() -> bool {
        true
    }

    open spec fn from_spec(v: usize) -> NodeIdx {
        NodeIdx(v)
    }
}

/// Why a node has no constant value.
#[derive(Debug)]
pub enum NodeConstErr {
    /// The index is past the last node.
    EmptyNode(NodeIdx),
    /// The value depends on an input signal.
    InputSignal,
}

/// The text of an error.
pub open spec fn error_text(e: NodeConstErr) -> Seq<char> {
    match e {
        NodeConstErr::EmptyNode(idx) => "empty node at index "@ + decimal(idx.0 as nat),
        NodeConstErr::InputSignal => "input signal is not a constant"@,
    }
}

impl NodeConstErr {
    /// The text of the error.
    pub fn to_string(&self) -> (s: String)
        ensures
            s@ == error_text(*self),
    {
        let mut s = String::new();
        match self {
            NodeConstErr::EmptyNode(idx) => {
                s.append("empty node at index ");
                push_decimal(&mut s, idx.0);
            },
            NodeConstErr::InputSignal => {
                s.append("input signal is not a constant");
            },
        }
        s
    }
}

/// The outcome of evaluating a node as a constant: its value, an index past
/// the last node, a dependence on an input signal, or a fault, where an
/// operation is not defined on its operands, a node is already a field
/// element, or a node depends on itself.
pub enum ConstEval {
    Value(nat),
    Empty(usize),
    Input,
    Fault,
}

/// The constant evaluation of node `i`, following operands at most `depth`
/// nodes deep: operands are evaluated in order, and the first of them that is
/// not a value decides the outcome.
pub open spec fn const_eval_within(nodes: Seq<Node>, i: usize, depth: nat) -> ConstEval
    decreases depth,
{
    if depth == 0 {
        ConstEval::Fault
    } else if i >= nodes.len() {
        ConstEval::Empty(i)
    } else {
        let d = (depth - 1) as nat;
        match nodes[i as int] {
            Node::Constant(v) => ConstEval::Value(v@),
            Node::Input(_) => ConstEval::Input,
            Node::MontConstant(_) => ConstEval::Fault,
            Node::UnoOp(op, a) => match const_eval_within(nodes, a, d) {
                ConstEval::Value(x) => ConstEval::Value(uno_value(op, x)),
                other => other,
            },
            Node::Op(op, a, b) => match const_eval_within(nodes, a, d) {
                ConstEval::Value(x) => match const_eval_within(nodes, b, d) {
                    ConstEval::Value(y) => if op_defined(op, x, y) {
                        ConstEval::Value(op_value(op, x, y))
                    } else {
                        ConstEval::Fault
                    },
                    other => other,
                },
                other => other,
            },
            Node::TresOp(op, a, b, c) => match const_eval_within(nodes, a, d) {
                ConstEval::Value(x) => match const_eval_within(nodes, b, d) {
                    ConstEval::Value(y) => match const_eval_within(nodes, c, d) {
                        ConstEval::Value(z) => ConstEval::Value(tres_value(op, x, y, z)),
                        other => other,
                    },
                    other => other,
                },
                other => other,
            },
        }
    }
}

/// The constant evaluation of node `i`. An evaluation that follows more
/// operands in a row than there are nodes visits a node again inside its own
/// evaluation, and would never end: it is a fault.
pub open spec fn const_eval(nodes: Seq<Node>, i: usize) -> ConstEval {
    const_eval_within(nodes, i, nodes.len() + 1)
}

/// The canonical values of a sequence of field elements.
pub open spec fn fr_seq(s: Seq<Fr>) -> Seq<nat> {
    s.map_values(|f: Fr| f@)
}

/// The field value of node `n`, given the values of the nodes before it:
/// constants and inputs are reduced by the modulus.
pub open spec fn fr_node_value(n: Node, inputs: Seq<U256>, vals: Seq<nat>) -> nat {
    match n {
        Node::Constant(c) => c@ % modulus(),
        Node::MontConstant(f) => f@,
        Node::Input(k) => inputs[k as int]@ % modulus(),
        Node::Op(op, a, b) => fr_op_value(op, vals[a as int], vals[b as int]),
        Node::UnoOp(op, a) => fr_uno_value(op, vals[a as int]),
        Node::TresOp(op, a, b, c) => fr_tres_value(op, vals[a as int], vals[b as int], vals[c as int]),
    }
}

/// Node `n` at index `i` can be evaluated on field elements given the values
/// of the nodes: its references are backwards, its input exists, and its
/// operation is defined on its operands.
pub open spec fn fr_node_defined(n: Node, i: int, inputs: Seq<U256>, vals: Seq<nat>) -> bool {
    &&& refs_below(n, i)
    &&& match n {
        Node::Input(k) => k < inputs.len(),
        Node::Op(op, a, b) => fr_op_defined(op, vals[a as int], vals[b as int]),
        _ => true,
    }
}

/// The field values of all nodes, in order.
pub open spec fn fr_values(nodes: Seq<Node>, inputs: Seq<U256>) -> Seq<nat>
    decreases nodes.len(),
{
    if nodes.len() == 0 {
        Seq::empty()
    } else {
        let prev = fr_values(nodes.drop_last(), inputs);
        prev.push(fr_node_value(nodes.last(), inputs, prev))
    }
}

/// Every node of the graph can be evaluated on field elements.
pub open spec fn evaluable(nodes: Seq<Node>, inputs: Seq<U256>) -> bool {
    forall|i: int|
        0 <= i < nodes.len() ==> fr_node_defined(#[trigger] nodes[i], i, inputs, fr_values(nodes, inputs))
}

/// There is one value per node.
pub proof fn lemma_fr_values_len(nodes: Seq<Node>, inputs: Seq<U256>)
    ensures
        fr_values(nodes, inputs).len() == nodes.len(),
    decreases nodes.len(),
{
    if nodes.len() > 0 {
        lemma_fr_values_len(nodes.drop_last(), inputs);
    }
}

/// The values of a prefix of the nodes are a prefix of the values.
pub proof fn lemma_fr_values_prefix(nodes: Seq<Node>, inputs: Seq<U256>, k: int)
    requires
        0 <= k <= nodes.len(),
    ensures
        fr_values(nodes.take(k), inputs) == fr_values(nodes, inputs).take(k),
    decreases nodes.len(),
{
    lemma_fr_values_len(nodes, inputs);
    if k == nodes.len() {
        assert(nodes.take(k) =~= nodes);
        assert(fr_values(nodes, inputs).take(k) =~= fr_values(nodes, inputs));
    } else {
        lemma_fr_values_prefix(nodes.drop_last(), inputs, k);
        assert(nodes.drop_last().take(k) =~= nodes.take(k));
        lemma_fr_values_len(nodes.drop_last(), inputs);
        assert(fr_values(nodes, inputs).take(k) =~= fr_values(nodes.drop_last(), inputs).take(k));
    }
}

/// Extending the nodes by one appends the value of the new node.
pub proof fn lemma_fr_values_step(nodes: Seq<Node>, inputs: Seq<U256>, i: int)
    requires
        0 <= i < nodes.len(),
    ensures
        fr_values(nodes.take(i + 1), inputs) == fr_values(nodes.take(i), inputs).push(
            fr_node_value(nodes[i], inputs, fr_values(nodes.take(i), inputs)),
        ),
{
    assert(nodes.take(i + 1).drop_last() =~= nodes.take(i));
}

/// The value of a node whose references are backwards depends only on the
/// values before it.
pub proof fn lemma_fr_node_value_prefix(n: Node, i: int, inputs: Seq<U256>, v1: Seq<nat>, v2: Seq<nat>)
    requires
        refs_below(n, i),
        0 <= i <= v1.len(),
        0 <= i <= v2.len(),
        v1.take(i) == v2.take(i),
    ensures
        fr_node_value(n, inputs, v1) == fr_node_value(n, inputs, v2),
        fr_node_defined(n, i, inputs, v1) == fr_node_defined(n, i, inputs, v2),
{
    match n {
        Node::Op(op, a, b) => {
            assert(v1[a as int] == v1.take(i)[a as int]);
            assert(v2[a as int] == v2.take(i)[a as int]);
            assert(v1[b as int] == v1.take(i)[b as int]);
            assert(v2[b as int] == v2.take(i)[b as int]);
        },
        Node::UnoOp(op, a) => {
            assert(v1[a as int] == v1.take(i)[a as int]);
            assert(v2[a as int] == v2.take(i)[a as int]);
        },
        Node::TresOp(op, a, b, c) => {
            assert(v1[a as int] == v1.take(i)[a as int]);
            assert(v2[a as int] == v2.take(i)[a as int]);
            assert(v1[b as int] == v1.take(i)[b as int]);
            assert(v2[b as int] == v2.take(i)[b as int]);
            assert(v1[c as int] == v1.take(i)[c as int]);
            assert(v2[c as int] == v2.take(i)[c as int]);
        },
        _ => {},
    }
}

/// The field values of all nodes, or `None` where some node cannot be
/// evaluated.
fn eval_nodes(nodes: &[Node], inputs: &[U256]) -> (r: Option<Vec<Fr>>)
    ensures
        r is Some <==> evaluable(nodes@, inputs@),
        r matches Some(v) ==> fr_seq(v@) == fr_values(nodes@, inputs@),
{
    let mut values: Vec<Fr> = Vec::with_capacity(nodes.len());
    let mut i: usize = 0;
    proof {
        assert(nodes@.take(0) =~= Seq::<Node>::empty());
        assert(fr_seq(values@) =~= Seq::<nat>::empty());
    }
    while i < nodes.len()
        invariant
            i <= nodes.len(),
            fr_seq(values@) == fr_values(nodes@.take(i as int), inputs@),
            values@.len() == i,
            forall|j: int|
                0 <= j < i ==> fr_node_defined(
                    #[trigger] nodes@[j],
                    j,
                    inputs@,
                    fr_values(nodes@.take(i as int), inputs@),
                ),
        decreases nodes.len() - i,
    {
        let ghost vals = fr_values(nodes@.take(i as int), inputs@);
        proof {
            lemma_fr_values_step(nodes@, inputs@, i as int);
            lemma_fr_values_len(nodes@.take(i as int), inputs@);
        }
        let node = nodes[i];
        let value = match node {
            Node::Constant(c) => Fr::new(c),
            Node::MontConstant(c) => c,
            Node::Input(k) => {
                if k >= inputs.len() {
                    proof {
                        lemma_fr_values_fail(nodes@, inputs@, i as int);
                    }
                    return None;
                }
                Fr::new(inputs[k])
            },
            Node::Op(op, a, b) => {
                if a >= i || b >= i || !op.is_defined_fr(&values[a], &values[b]) {
                    proof {
                        lemma_fr_values_fail(nodes@, inputs@, i as int);
                    }
                    return None;
                }
                op.eval_fr(values[a], values[b])
            },
            Node::UnoOp(op, a) => {
                if a >= i {
                    proof {
                        lemma_fr_values_fail(nodes@, inputs@, i as int);
                    }
                    return None;
                }
                op.eval_fr(values[a])
            },
            Node::TresOp(op, a, b, c) => {
                if a >= i || b >= i || c >= i {
                    proof {
                        lemma_fr_values_fail(nodes@, inputs@, i as int);
                    }
                    return None;
                }
                op.eval_fr(values[a], values[b], values[c])
            },
        };
        values.push(value);
        proof {
            let next = fr_values(nodes@.take(i + 1), inputs@);
            assert(fr_seq(values@) =~= next);
            assert(next.take(i as int) =~= vals);
            assert forall|j: int| 0 <= j < i + 1 implies fr_node_defined(#[trigger] nodes@[j], j, inputs@, next) by {
                assert(vals.take(j) =~= next.take(j));
                lemma_fr_node_value_prefix(nodes@[j], j, inputs@, vals, next);
            }
        }
        i += 1;
    }
    proof {
        assert(nodes@.take(nodes.len() as int) =~= nodes@);
    }
    Some(values)
}

/// The value of node `i` is its node's value over the values of all nodes.
pub proof fn lemma_fr_values_at(nodes: Seq<Node>, inputs: Seq<U256>, i: int)
    requires
        0 <= i < nodes.len(),
        refs_below(nodes[i], i),
    ensures
        fr_values(nodes, inputs)[i] == fr_node_value(nodes[i], inputs, fr_values(nodes, inputs)),
{
    lemma_fr_values_prefix(nodes, inputs, i + 1);
    lemma_fr_values_prefix(nodes, inputs, i);
    lemma_fr_values_step(nodes, inputs, i);
    lemma_fr_values_len(nodes, inputs);
    lemma_fr_values_len(nodes.take(i), inputs);
    assert(fr_values(nodes, inputs).take(i + 1)[i] == fr_values(nodes, inputs)[i]);
    assert(fr_values(nodes, inputs).take(i) =~= fr_values(nodes.take(i), inputs).take(i));
    lemma_fr_node_value_prefix(nodes[i], i, inputs, fr_values(nodes.take(i), inputs), fr_values(nodes, inputs));
}

/// An input node evaluates to its whole input reduced by the modulus, and a
/// constant node to its whole constant reduced by the modulus.
pub proof fn lemma_leaf_values(nodes: Seq<Node>, inputs: Seq<U256>, i: int)
    requires
        0 <= i < nodes.len(),
    ensures
        nodes[i] matches Node::Input(k) ==> fr_values(nodes, inputs)[i] == inputs[k as int]@ % modulus(),
        nodes[i] matches Node::Constant(c) ==> fr_values(nodes, inputs)[i] == c@ % modulus(),
{
    if nodes[i] is Input || nodes[i] is Constant {
        lemma_fr_values_at(nodes, inputs, i);
    }
}

/// Where node `i` cannot be evaluated given the values before it, the graph
/// is not evaluable.
proof fn lemma_fr_values_fail(nodes: Seq<Node>, inputs: Seq<U256>, i: int)
    requires
        0 <= i < nodes.len(),
        !fr_node_defined(nodes[i], i, inputs, fr_values(nodes.take(i), inputs)),
    ensures
        !evaluable(nodes, inputs),
{
    lemma_fr_values_prefix(nodes, inputs, i);
    lemma_fr_values_len(nodes, inputs);
    lemma_fr_values_len(nodes.take(i), inputs);
    if refs_below(nodes[i], i) {
        assert(fr_values(nodes, inputs).take(i) =~= fr_values(nodes.take(i), inputs).take(i));
        lemma_fr_node_value_prefix(nodes[i], i, inputs, fr_values(nodes.take(i), inputs), fr_values(nodes, inputs));
    }
}

/// Evaluates the graph on field elements and returns the canonical values of
/// the output nodes.
pub fn evaluate(nodes: &[Node], inputs: &[U256], outputs: &[usize]) -> (r: Vec<U256>)
    requires
        evaluable(nodes@, inputs@),
        forall|j: int| 0 <= j < outputs@.len() ==> #[trigger] outputs@[j] < nodes@.len(),
    ensures
        r@.len() == outputs@.len(),
        forall|j: int|
            0 <= j < outputs@.len() ==> (#[trigger] r@[j])@ == fr_values(nodes@, inputs@)[outputs@[j] as int],
        forall|j: int| 0 <= j < outputs@.len() ==> (#[trigger] r@[j])@ < modulus(),
{
    let values = match eval_nodes(nodes, inputs) {
        Some(v) => v,
        None => {
            proof {
                assert(false);
            }
            Vec::new()
        },
    };
    proof {
        lemma_fr_values_len(nodes@, inputs@);
    }
    // Convert from Montgomery form and return the outputs.
    let mut out: Vec<U256> = Vec::with_capacity(outputs.len());
    for i in 0..outputs.len()
        invariant
            out@.len() == i,
            values@.len() == nodes@.len(),
            fr_seq(values@) == fr_values(nodes@, inputs@),
            forall|j: int| 0 <= j < outputs@.len() ==> #[trigger] outputs@[j] < nodes@.len(),
            forall|j: int|
                0 <= j < i ==> (#[trigger] out@[j])@ == fr_values(nodes@, inputs@)[outputs@[j] as int],
            forall|j: int| 0 <= j < i ==> (#[trigger] out@[j])@ < modulus(),
    {
        out.push(values[outputs[i]].into_bigint());
        proof {
            assert(fr_seq(values@)[outputs@[i as int] as int] == values@[outputs@[i as int] as int]@);
        }
    }
    out
}

/// `evaluate`, or `None` where the graph cannot be evaluated on these inputs
/// or an output index is past the last node.
pub fn evaluate_checked(nodes: &[Node], inputs: &[U256], outputs: &[usize]) -> (r: Option<Vec<U256>>)
    ensures
        r is Some <==> (evaluable(nodes@, inputs@) && forall|j: int|
            0 <= j < outputs@.len() ==> #[trigger] outputs@[j] < nodes@.len()),
        r matches Some(v) ==> v@.len() == outputs@.len() && (forall|j: int|
            0 <= j < outputs@.len() ==> (#[trigger] v@[j])@ == fr_values(nodes@, inputs@)[outputs@[j] as int])
            && (forall|j: int| 0 <= j < outputs@.len() ==> (#[trigger] v@[j])@ < modulus()),
{
    for i in 0..outputs.len()
        invariant
            forall|j: int| 0 <= j < i ==> #[trigger] outputs@[j] < nodes@.len(),
    {
        if outputs[i] >= nodes.len() {
            return None;
        }
    }
    match eval_nodes(nodes, inputs) {
        Some(_) => Some(evaluate(nodes, inputs, outputs)),
        None => None,
    }
}

/// After a push, the pushed node is found at the returned index, which is the
/// old length, and every earlier node is found where it was; past the new
/// length there is nothing.
pub proof fn lemma_get_after_push(nodes: Seq<Node>, n: Node)
    ensures
        nodes.push(n).len() == nodes.len() + 1,
        nodes.push(n)[nodes.len() as int] == n,
        forall|j: int| 0 <= j < nodes.len() ==> #[trigger] nodes.push(n)[j] == nodes[j],
{
}

/// A sequence of graph nodes.
pub struct Nodes(pub Vec<Node>);

impl View for Nodes {
    type V = Seq<Node>;

    open spec fn view(&self) -> Seq<Node> {
        self.0@
    }
}

impl std::ops::Deref for Nodes {
    type Target = Vec<Node>;

    fn deref(&self) -> (r: &Vec<Node>)
        ensures
            r@ == self@,
    {
        &self.0
    }
}

impl Nodes {
    pub fn new() -> (r: Nodes)
        ensures
            r@ == Seq::<Node>::empty(),
    {
        Nodes(Vec::new())
    }

    /// The constant value of node `idx`, where it depends on no input signal.
    pub fn to_const(&self, idx: NodeIdx) -> (r: Result<U256, NodeConstErr>)
        requires
            !(const_eval(self@, idx.0) is Fault),
        ensures
            match const_eval(self@, idx.0) {
                ConstEval::Value(v) => r matches Ok(x) && x@ == v,
                ConstEval::Empty(k) => r matches Err(NodeConstErr::EmptyNode(e)) && e.0 == k,
                ConstEval::Input => r matches Err(NodeConstErr::InputSignal),
                ConstEval::Fault => false,
            },
    {
        self.to_const_within(idx, Ghost(self@.len() + 1))
    }

    /// `to_const`, where the evaluation follows operands at most `depth` deep.
    fn to_const_within(&self, idx: NodeIdx, Ghost(depth): Ghost<nat>) -> (r: Result<U256, NodeConstErr>)
        requires
            !(const_eval_within(self@, idx.0, depth) is Fault),
        ensures
            match const_eval_within(self@, idx.0, depth) {
                ConstEval::Value(v) => r matches Ok(x) && x@ == v,
                ConstEval::Empty(k) => r matches Err(NodeConstErr::EmptyNode(e)) && e.0 == k,
                ConstEval::Input => r matches Err(NodeConstErr::InputSignal),
                ConstEval::Fault => false,
            },
        decreases depth,
    {
        if idx.0 >= self.0.len() {
            return Err(NodeConstErr::EmptyNode(idx));
        }
        let ghost d = (depth - 1) as nat;
        let me = self.0[idx.0];
        match me {
            Node::Constant(v) => Ok(v),
            Node::UnoOp(op, a) => {
                let x = self.to_const_within(NodeIdx(a), Ghost(d))?;
                Ok(op.eval(x))
            },
            Node::Op(op, a, b) => {
                let x = self.to_const_within(NodeIdx(a), Ghost(d))?;
                let y = self.to_const_within(NodeIdx(b), Ghost(d))?;
                Ok(op.eval(x, y))
            },
            Node::TresOp(op, a, b, c) => {
                let x = self.to_const_within(NodeIdx(a), Ghost(d))?;
                let y = self.to_const_within(NodeIdx(b), Ghost(d))?;
                let z = self.to_const_within(NodeIdx(c), Ghost(d))?;
                Ok(op.eval(x, y, z))
            },
            Node::Input(_) => Err(NodeConstErr::InputSignal),
            Node::MontConstant(_) => {
                proof {
                    assert(false);
                }
                Err(NodeConstErr::InputSignal)
            },
        }
    }

    /// Appends a node and returns its index.
    pub fn push(&mut self, n: Node) -> (r: NodeIdx)
        requires
            old(self)@.len() < usize::MAX,
        ensures
            final(self)@ == old(self)@.push(n),
            r.0 == old(self)@.len(),
    {
        self.0.push(n);
        NodeIdx(self.0.len() - 1)
    }

    /// The node at `idx`, where there is one.
    pub fn get(&self, idx: NodeIdx) -> (r: Option<&Node>)
        ensures
            idx.0 < self@.len() ==> r == Some(&self@[idx.0 as int]),
            idx.0 >= self@.len() ==> r is None,
    {
        if idx.0 < self.0.len() {
            Some(&self.0[idx.0])
        } else {
            None
        }
    }
}

} // verus!
