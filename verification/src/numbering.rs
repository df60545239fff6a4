//! Probabilistic passes: evaluation of a graph at random field values, value
//! numbering and constant detection.
use crate::graph::{refs_below, valid_graph, Node};
use crate::ops::{op_value, Operation, TresOperation, UnoOperation};
use crate::u256::{modulus, modulus_u256, rem, U256};
use crate::chains::{lemma_latest, HashChains};
use vstd::prelude::*;

verus! {

#[verifier::external_type_specification]
#[verifier::external_body]
pub struct ExThreadRng(rand::rngs::ThreadRng);

/// `rand::thread_rng`: the generator of this thread.
#[verifier::external_body]
fn thread_rng() -> rand::rngs::ThreadRng {
    rand::thread_rng()
}

/// `rand::Rng::gen` for a `ruint::aliases::U256`: a random 256-bit integer;
/// nothing is known of its value.
#[verifier::external_body]
fn gen_u256(rng: &mut rand::rngs::ThreadRng) -> U256 {
    let x: ruint::aliases::U256 = rand::Rng::gen(rng);
    U256::from_limbs(*x.as_limbs())
}

/// What the random value of a node is remembered by: an input by its index,
/// an operation by itself and the values of its operands.
#[derive(PartialEq, Eq, Structural, Clone, Copy, Debug)]
pub enum RandomKey {
    Input(usize),
    Op(Operation, U256, U256),
    Uno(UnoOperation, U256),
    Tres(TresOperation, U256, U256, U256),
}

/// `Add`, `Sub` and `Mul` are evaluated exactly, the other operations are
/// random functions.
pub open spec fn is_algebraic(op: Operation) -> bool {
    op == Operation::Add || op == Operation::Sub || op == Operation::Mul
}

/// The key of the random value of node `n`, given the values of the nodes;
/// constants and algebraic operations have none.
pub open spec fn random_key(n: Node, vals: Seq<U256>) -> Option<RandomKey> {
    match n {
        Node::Input(k) => Some(RandomKey::Input(k)),
        Node::Op(op, a, b) => if is_algebraic(op) {
            None
        } else {
            Some(RandomKey::Op(op, vals[a as int], vals[b as int]))
        },
        Node::UnoOp(op, a) => Some(RandomKey::Uno(op, vals[a as int])),
        Node::TresOp(op, a, b, c) => Some(RandomKey::Tres(op, vals[a as int], vals[b as int], vals[c as int])),
        _ => None,
    }
}

/// Two nodes share a random key only where they are of the same kind with
/// the same operation, or the same input index, and their operands have the
/// same values, operand by operand.
pub proof fn lemma_random_key_determines(n1: Node, n2: Node, vals: Seq<U256>)
    requires
        random_key(n1, vals) is Some,
        random_key(n1, vals) == random_key(n2, vals),
    ensures
        n1 matches Node::Input(k1) ==> n2 matches Node::Input(k2) && k1 == k2,
        n1 matches Node::Op(op1, a1, b1) ==> n2 matches Node::Op(op2, a2, b2) && op1 == op2 && vals[a1 as int]
            == vals[a2 as int] && vals[b1 as int] == vals[b2 as int],
        n1 matches Node::UnoOp(op1, a1) ==> n2 matches Node::UnoOp(op2, a2) && op1 == op2 && vals[a1 as int]
            == vals[a2 as int],
        n1 matches Node::TresOp(op1, a1, b1, c1) ==> n2 matches Node::TresOp(op2, a2, b2, c2) && op1 == op2
            && vals[a1 as int] == vals[a2 as int] && vals[b1 as int] == vals[b2 as int] && vals[c1 as int]
            == vals[c2 as int],
        n1 is Constant ==> false,
        n1 matches Node::Op(op1, _, _) ==> !is_algebraic(op1),
{
}

/// No node of the graph is already a field element.
pub open spec fn no_mont_constants(nodes: Seq<Node>) -> bool {
    forall|i: int| 0 <= i < nodes.len() ==> !(#[trigger] nodes[i] is MontConstant)
}

/// The value of node `i` fits its kind: a constant is itself, an algebraic
/// operation is computed from its operands, and any other node has a field
/// value below the modulus.
pub open spec fn random_value_fits(nodes: Seq<Node>, vals: Seq<U256>, i: int) -> bool {
    match nodes[i] {
        Node::Constant(c) => vals[i] == c,
        Node::Op(op, a, b) => if is_algebraic(op) {
            vals[i]@ == op_value(op, vals[a as int]@, vals[b as int]@)
        } else {
            vals[i]@ < modulus()
        },
        _ => vals[i]@ < modulus(),
    }
}

/// `vals` is a possible outcome of `random_eval` on `nodes`: each value fits
/// its node, and nodes with the same key have the same value, so that inputs
/// and non-algebraic operations are random functions.
pub open spec fn random_evaluation(nodes: Seq<Node>, vals: Seq<U256>) -> bool {
    &&& vals.len() == nodes.len()
    &&& forall|i: int| 0 <= i < nodes.len() ==> #[trigger] random_value_fits(nodes, vals, i)
    &&& forall|i: int, j: int|
        0 <= i < nodes.len() && 0 <= j < nodes.len() && (#[trigger] random_key(nodes[i], vals)) is Some
            && random_key(nodes[i], vals) == (#[trigger] random_key(nodes[j], vals)) ==> vals[i] == vals[j]
}

/// The remembered random values cover the nodes before `i`, with one entry
/// per key.
pub open spec fn memo_inv(nodes: Seq<Node>, vals: Seq<U256>, memo: Seq<(RandomKey, U256)>) -> bool {
    &&& memo_sound(nodes, vals, memo)
    &&& memo_complete(nodes, vals, memo)
    &&& memo_distinct(memo)
}

/// The hash under which a key is looked up.
pub open spec fn key_hash(k: RandomKey) -> u64 {
    match k {
        RandomKey::Input(i) => i as u64,
        RandomKey::Op(_, a, b) => a.l0 ^ (b.l0 >> 1u64),
        RandomKey::Uno(_, a) => a.l0,
        RandomKey::Tres(_, a, b, c) => a.l0 ^ (b.l0 >> 1u64) ^ (c.l0 >> 2u64),
    }
}

fn hash_of_key(k: &RandomKey) -> (h: u64)
    ensures
        h == key_hash(*k),
{
    match k {
        RandomKey::Input(i) => *i as u64,
        RandomKey::Op(_, a, b) => a.l0 ^ (b.l0 >> 1u64),
        RandomKey::Uno(_, a) => a.l0,
        RandomKey::Tres(_, a, b, c) => a.l0 ^ (b.l0 >> 1u64) ^ (c.l0 >> 2u64),
    }
}

/// The memo entries are indexed by the hashes of their keys.
pub open spec fn memo_indexed(memo: Seq<(RandomKey, U256)>, chains: HashChains) -> bool {
    &&& chains.wf()
    &&& chains.hashes().len() == memo.len()
    &&& forall|p: int| 0 <= p < memo.len() ==> chains.hashes()[p] == key_hash((#[trigger] memo[p]).0)
}

/// The value remembered for `key`, or `fresh`, which is then remembered.
fn remembered(
    memo: &mut Vec<(RandomKey, U256)>,
    chains: &mut HashChains,
    key: RandomKey,
    fresh: U256,
) -> (r: U256)
    requires
        memo_distinct(old(memo)@),
        memo_indexed(old(memo)@, *old(chains)),
        forall|e: int| 0 <= e < old(memo)@.len() ==> (#[trigger] old(memo)@[e]).1@ < modulus(),
        fresh@ < modulus(),
    ensures
        r@ < modulus(),
        !(exists|e: int| 0 <= e < old(memo)@.len() && (#[trigger] old(memo)@[e]).0 == key) ==> r == fresh,
        memo_indexed(final(memo)@, *final(chains)),
        forall|e: int| 0 <= e < final(memo)@.len() ==> (#[trigger] final(memo)@[e]).1@ < modulus(),
        (exists|e: int| 0 <= e < old(memo)@.len() && (#[trigger] old(memo)@[e]).0 == key) ==> (final(memo)@
            == old(memo)@ && exists|e: int|
            0 <= e < old(memo)@.len() && (#[trigger] old(memo)@[e]).0 == key && old(memo)@[e].1 == r),
        !(exists|e: int| 0 <= e < old(memo)@.len() && (#[trigger] old(memo)@[e]).0 == key) ==> final(memo)@
            == old(memo)@.push((key, r)),
{
    let h = hash_of_key(&key);
    let _ = memo.len();
    let mut cur = chains.first(h);
    proof {
        lemma_latest(chains.hashes(), h, chains.hashes().len() as int);
    }
    while cur.is_some()
        invariant
            memo@ == old(memo)@,
            forall|e: int| 0 <= e < memo@.len() ==> (#[trigger] memo@[e]).1@ < modulus(),
            *chains == *old(chains),
            memo_indexed(memo@, *chains),
            h == key_hash(key),
            memo@.len() <= usize::MAX,
            cur matches Some(p) ==> p < memo@.len() && chains.hashes()[p as int] == h,
            forall|q: int|
                0 <= q < memo@.len() && chains.hashes()[q] == h && (cur matches Some(p) ==> p < q)
                    ==> (#[trigger] memo@[q]).0 != key,
        decreases (match cur {
            Some(p) => p + 1,
            None => 0,
        }),
    {
        let p = cur.unwrap();
        if memo[p].0 == key {
            return memo[p].1;
        }
        cur = chains.next(p);
        proof {
            lemma_latest(chains.hashes(), h, p as int);
        }
    }
    memo.push((key, fresh));
    chains.insert(h);
    fresh
}

/// The key of a node whose operands are among `values`.
fn key_of(n: Node, values: &Vec<U256>) -> (r: Option<RandomKey>)
    requires
        refs_below(n, values@.len() as int),
    ensures
        r == random_key(n, values@),
{
    match n {
        Node::Input(k) => Some(RandomKey::Input(k)),
        Node::Op(op, a, b) => {
            if op == Operation::Add || op == Operation::Sub || op == Operation::Mul {
                None
            } else {
                Some(RandomKey::Op(op, values[a], values[b]))
            }
        },
        Node::UnoOp(op, a) => Some(RandomKey::Uno(op, values[a])),
        Node::TresOp(op, a, b, c) => Some(RandomKey::Tres(op, values[a], values[b], values[c])),
        _ => None,
    }
}

/// The key and fit of an earlier node do not change as values are appended.
proof fn lemma_random_push(nodes: Seq<Node>, vals: Seq<U256>, v: U256, j: int)
    requires
        valid_graph(nodes),
        0 <= j < vals.len() <= nodes.len(),
    ensures
        random_key(nodes[j], vals.push(v)) == random_key(nodes[j], vals),
        random_value_fits(nodes, vals.push(v), j) == random_value_fits(nodes, vals, j),
{
    assert(refs_below(nodes[j], j));
}

/// Every memo entry comes from a node.
pub open spec fn memo_sound(nodes: Seq<Node>, vals: Seq<U256>, memo: Seq<(RandomKey, U256)>) -> bool {
    forall|e: int|
        0 <= e < memo.len() ==> exists|j: int|
            0 <= j < vals.len() && random_key(nodes[j], vals) == Some((#[trigger] memo[e]).0) && vals[j]
                == memo[e].1
}

/// Every keyed node has its memo entry.
pub open spec fn memo_complete(nodes: Seq<Node>, vals: Seq<U256>, memo: Seq<(RandomKey, U256)>) -> bool {
    forall|j: int|
        0 <= j < vals.len() && (#[trigger] random_key(nodes[j], vals)) is Some ==> exists|e: int|
            0 <= e < memo.len() && Some((#[trigger] memo[e]).0) == random_key(nodes[j], vals) && memo[e].1
                == vals[j]
}

/// The memo has one entry per key.
pub open spec fn memo_distinct(memo: Seq<(RandomKey, U256)>) -> bool {
    forall|e1: int, e2: int|
        0 <= e1 < memo.len() && 0 <= e2 < memo.len() && e1 != e2 ==> (#[trigger] memo[e1]).0 != (
        #[trigger] memo[e2]).0
}

/// The keys of the nodes before `i` are as they were before the value of node
/// `i` was appended.
pub open spec fn keys_stable(nodes: Seq<Node>, vals: Seq<U256>, nv: Seq<U256>) -> bool {
    forall|j: int| 0 <= j < vals.len() ==> #[trigger] random_key(nodes[j], nv) == random_key(nodes[j], vals)
}

proof fn lemma_memo_sound_step(
    nodes: Seq<Node>,
    vals: Seq<U256>,
    nv: Seq<U256>,
    old_memo: Seq<(RandomKey, U256)>,
    memo: Seq<(RandomKey, U256)>,
)
    requires
        nv.len() == vals.len() + 1,
        keys_stable(nodes, vals, nv),
        memo_sound(nodes, vals, old_memo),
        forall|j: int| 0 <= j < vals.len() ==> nv[j] == vals[j],
        old_memo.len() <= memo.len() <= old_memo.len() + 1,
        forall|e: int| 0 <= e < old_memo.len() ==> memo[e] == old_memo[e],
        memo.len() > old_memo.len() ==> random_key(nodes[vals.len() as int], nv) == Some(
            memo[old_memo.len() as int].0,
        ) && nv[vals.len() as int] == memo[old_memo.len() as int].1,
    ensures
        memo_sound(nodes, nv, memo),
{
    assert forall|e: int| 0 <= e < memo.len() implies exists|j: int|
        0 <= j < nv.len() && random_key(nodes[j], nv) == Some((#[trigger] memo[e]).0) && nv[j] == memo[e].1 by {
        if e < old_memo.len() {
            assert(memo[e] == old_memo[e]);
            let j = choose|j: int|
                0 <= j < vals.len() && random_key(nodes[j], vals) == Some((#[trigger] old_memo[e]).0)
                    && vals[j] == old_memo[e].1;
            assert(random_key(nodes[j], nv) == random_key(nodes[j], vals));
            assert(0 <= j < nv.len() && random_key(nodes[j], nv) == Some(memo[e].0) && nv[j] == memo[e].1);
        } else {
            let j = vals.len() as int;
            assert(0 <= j < nv.len() && random_key(nodes[j], nv) == Some(memo[e].0) && nv[j] == memo[e].1);
        }
    }
}

proof fn lemma_memo_complete_step(
    nodes: Seq<Node>,
    vals: Seq<U256>,
    nv: Seq<U256>,
    old_memo: Seq<(RandomKey, U256)>,
    memo: Seq<(RandomKey, U256)>,
)
    requires
        nv.len() == vals.len() + 1,
        forall|j: int| 0 <= j < vals.len() ==> nv[j] == vals[j],
        keys_stable(nodes, vals, nv),
        memo_complete(nodes, vals, old_memo),
        old_memo.len() <= memo.len(),
        forall|e: int| 0 <= e < old_memo.len() ==> memo[e] == old_memo[e],
        random_key(nodes[vals.len() as int], nv) is Some ==> exists|e: int|
            0 <= e < memo.len() && Some((#[trigger] memo[e]).0) == random_key(nodes[vals.len() as int], nv)
                && memo[e].1 == nv[vals.len() as int],
    ensures
        memo_complete(nodes, nv, memo),
{
    assert forall|j: int| 0 <= j < nv.len() && (#[trigger] random_key(nodes[j], nv)) is Some implies exists|e: int|
        0 <= e < memo.len() && Some((#[trigger] memo[e]).0) == random_key(nodes[j], nv) && memo[e].1 == nv[j] by {
        if j < vals.len() {
            assert(random_key(nodes[j], nv) == random_key(nodes[j], vals));
            let e = choose|e: int|
                0 <= e < old_memo.len() && Some((#[trigger] old_memo[e]).0) == random_key(nodes[j], vals)
                    && old_memo[e].1 == vals[j];
            assert(memo[e] == old_memo[e]);
        }
    }
}

/// Remembering the value of the next node keeps the memo invariant.
proof fn lemma_memo_step(
    nodes: Seq<Node>,
    vals: Seq<U256>,
    old_memo: Seq<(RandomKey, U256)>,
    memo: Seq<(RandomKey, U256)>,
    key: Option<RandomKey>,
    value: U256,
)
    requires
        valid_graph(nodes),
        vals.len() < nodes.len(),
        memo_inv(nodes, vals, old_memo),
        key == random_key(nodes[vals.len() as int], vals),
        key is None ==> memo == old_memo,
        key matches Some(k) ==> ((exists|e: int| 0 <= e < old_memo.len() && (#[trigger] old_memo[e]).0 == k)
            ==> (memo == old_memo && exists|e: int|
            0 <= e < old_memo.len() && (#[trigger] old_memo[e]).0 == k && old_memo[e].1 == value)),
        key matches Some(k) ==> (!(exists|e: int| 0 <= e < old_memo.len() && (#[trigger] old_memo[e]).0 == k)
            ==> memo == old_memo.push((k, value))),
    ensures
        memo_inv(nodes, vals.push(value), memo),
{
    let i = vals.len() as int;
    let nv = vals.push(value);
    assert forall|j: int| 0 <= j < i implies #[trigger] random_key(nodes[j], nv) == random_key(nodes[j], vals) by {
        lemma_random_push(nodes, vals, value, j);
    }
    assert(refs_below(nodes[i], i));
    assert(random_key(nodes[i], nv) == key);
    assert(memo_sound(nodes, vals, old_memo));
    assert(memo_complete(nodes, vals, old_memo));
    assert(memo_distinct(old_memo));
    if memo == old_memo {
        lemma_memo_sound_step(nodes, vals, nv, old_memo, memo);
        if key is Some {
            let e = choose|e: int|
                0 <= e < old_memo.len() && (#[trigger] old_memo[e]).0 == key.unwrap() && old_memo[e].1 == value;
            assert(Some(memo[e].0) == random_key(nodes[i], nv) && memo[e].1 == nv[i]);
        }
        lemma_memo_complete_step(nodes, vals, nv, old_memo, memo);
    } else {
        let k = key.unwrap();
        assert(memo.last() == (k, value));
        lemma_memo_sound_step(nodes, vals, nv, old_memo, memo);
        assert(Some(memo[old_memo.len() as int].0) == random_key(nodes[i], nv));
        lemma_memo_complete_step(nodes, vals, nv, old_memo, memo);
        assert forall|e1: int, e2: int|
            0 <= e1 < memo.len() && 0 <= e2 < memo.len() && e1 != e2 implies (#[trigger] memo[e1]).0 != (
            #[trigger] memo[e2]).0 by {
            if e1 < old_memo.len() && e2 < old_memo.len() {
                assert(memo[e1] == old_memo[e1]);
                assert(memo[e2] == old_memo[e2]);
            } else if e1 < old_memo.len() {
                assert(memo[e1] == old_memo[e1]);
            } else if e2 < old_memo.len() {
                assert(memo[e2] == old_memo[e2]);
            }
        }
    }
}

/// Node `i` has a key, and no node before it has the same key.
pub open spec fn first_of_key(nodes: Seq<Node>, vals: Seq<U256>, i: int) -> bool {
    &&& random_key(nodes[i], vals) is Some
    &&& forall|j: int| 0 <= j < i ==> random_key(nodes[j], vals) != random_key(nodes[i], vals)
}

/// Evaluates the graph with the random numbers `draws`, one per node:
/// constants are themselves, `Add`, `Sub` and `Mul` are computed modulo the
/// field modulus, and inputs and all other operations are functions of their
/// index or of their operation and operand values; the first node with a key
/// takes its draw reduced by the modulus, and later nodes with the same key
/// take the same value.
pub fn random_eval_from(nodes: &Vec<Node>, draws: &Vec<U256>) -> (values: Vec<U256>)
    requires
        valid_graph(nodes@),
        no_mont_constants(nodes@),
        draws@.len() == nodes@.len(),
    ensures
        random_evaluation(nodes@, values@),
        forall|i: int|
            0 <= i < nodes@.len() && #[trigger] first_of_key(nodes@, values@, i) ==> values@[i]@ == draws@[i]@
                % modulus(),
{
    let m = modulus_u256();
    proof {
        assert(memo_inv(nodes@, Seq::<U256>::empty(), Seq::<(RandomKey, U256)>::empty()));
    }
    let mut values: Vec<U256> = Vec::with_capacity(nodes.len());
    let mut memo: Vec<(RandomKey, U256)> = Vec::new();
    let mut chains = HashChains::new();
    let mut i: usize = 0;
    while i < nodes.len()
        invariant
            i <= nodes@.len(),
            valid_graph(nodes@),
            no_mont_constants(nodes@),
            values@.len() == i,
            forall|j: int| 0 <= j < i ==> #[trigger] random_value_fits(nodes@, values@, j),
            memo_inv(nodes@, values@, memo@),
            memo_indexed(memo@, chains),
            forall|e: int| 0 <= e < memo@.len() ==> (#[trigger] memo@[e]).1@ < modulus(),
            draws@.len() == nodes@.len(),
            m@ == modulus(),
            forall|j: int|
                0 <= j < i && #[trigger] first_of_key(nodes@, values@, j) ==> values@[j]@ == draws@[j]@
                    % modulus(),
        decreases nodes.len() - i,
    {
        let ghost vals = values@;
        let ghost old_memo = memo@;
        let node = nodes[i];
        proof {
            assert(refs_below(node, i as int));
            assert(!(node is MontConstant));
        }
        let key = key_of(node, &values);
        let value = match key {
            Some(k) => {
                proof {
                    if first_of_key(nodes@, vals.push(draws@[i as int]), i as int) {
                        assert forall|e: int| 0 <= e < memo@.len() implies (#[trigger] memo@[e]).0 != k by {
                            let j = choose|j: int|
                                0 <= j < vals.len() && random_key(nodes@[j], vals) == Some(memo@[e].0)
                                    && vals[j] == memo@[e].1;
                            lemma_random_push(nodes@, vals, draws@[i as int], j);
                        }
                    }
                }
                remembered(&mut memo, &mut chains, k, rem(draws[i], m))
            },
            None => match node {
                Node::Constant(c) => c,
                Node::Op(op, a, b) => op.eval(values[a], values[b]),
                _ => {
                    proof {
                        assert(false);
                    }
                    U256::zero()
                },
            },
        };
        values.push(value);
        proof {
            let nv = values@;
            assert(nv == vals.push(value));
            assert forall|j: int| 0 <= j < i implies random_key(nodes@[j], nv) == random_key(nodes@[j], vals)
                && random_value_fits(nodes@, nv, j) == random_value_fits(nodes@, vals, j) by {
                lemma_random_push(nodes@, vals, value, j);
            }
            assert(random_key(nodes@[i as int], nv) == key);
            assert(random_value_fits(nodes@, nv, i as int));
            assert forall|j: int| 0 <= j < i + 1 implies #[trigger] random_value_fits(nodes@, nv, j) by {}
            lemma_memo_step(nodes@, vals, old_memo, memo@, key, value);
            assert forall|j: int|
                0 <= j < i + 1 && #[trigger] first_of_key(nodes@, nv, j) implies nv[j]@ == draws@[j]@
                    % modulus() by {
                if j < i {
                    assert forall|q: int| 0 <= q < j implies random_key(nodes@[q], nv) == random_key(
                        nodes@[q],
                        vals,
                    ) by {
                        lemma_random_push(nodes@, vals, value, q);
                    }
                    lemma_random_push(nodes@, vals, value, j);
                    assert(first_of_key(nodes@, vals, j));
                } else {
                    lemma_first_of_key_push(nodes@, vals, value, draws@[i as int]);
                }
            }
        }
        i += 1;
    }
    proof {
        let vals = values@;
        assert forall|i: int, j: int|
            0 <= i < nodes@.len() && 0 <= j < nodes@.len() && (#[trigger] random_key(nodes@[i], vals)) is Some
                && random_key(nodes@[i], vals) == (#[trigger] random_key(nodes@[j], vals)) implies vals[i]
            == vals[j] by {
            let ei = choose|e: int|
                0 <= e < memo@.len() && Some((#[trigger] memo@[e]).0) == random_key(nodes@[i], vals)
                    && memo@[e].1 == vals[i];
            let ej = choose|e: int|
                0 <= e < memo@.len() && Some((#[trigger] memo@[e]).0) == random_key(nodes@[j], vals)
                    && memo@[e].1 == vals[j];
        }
    }
    values
}

/// Whether node `i` is the first of its key does not depend on its own value.
proof fn lemma_first_of_key_push(nodes: Seq<Node>, vals: Seq<U256>, v: U256, w: U256)
    requires
        valid_graph(nodes),
        vals.len() < nodes.len(),
    ensures
        first_of_key(nodes, vals.push(v), vals.len() as int) == first_of_key(
            nodes,
            vals.push(w),
            vals.len() as int,
        ),
{
    let i = vals.len() as int;
    assert(refs_below(nodes[i], i));
    assert forall|j: int| 0 <= j < i implies random_key(nodes[j], vals.push(v)) == random_key(
        nodes[j],
        vals.push(w),
    ) by {
        lemma_random_push(nodes, vals, v, j);
        lemma_random_push(nodes, vals, w, j);
    }
    assert(random_key(nodes[i], vals.push(v)) == random_key(nodes[i], vals.push(w)));
}

/// Evaluates the graph at random: `random_eval_from` with a random 256-bit
/// number drawn for each node.
fn random_eval(nodes: &Vec<Node>) -> (values: Vec<U256>)
    requires
        valid_graph(nodes@),
        no_mont_constants(nodes@),
    ensures
        random_evaluation(nodes@, values@),
{
    let mut rng = thread_rng();
    let mut draws: Vec<U256> = Vec::with_capacity(nodes.len());
    for i in 0..nodes.len()
        invariant
            draws@.len() == i,
    {
        draws.push(gen_u256(&mut rng));
    }
    random_eval_from(nodes, &draws)
}

/// Node `j` is the first whose value equals that of node `i`.
pub open spec fn is_first_equal(vals: Seq<U256>, i: int, j: int) -> bool {
    &&& 0 <= j <= i
    &&& vals[j] == vals[i]
    &&& forall|m: int| 0 <= m < j ==> vals[m] != vals[i]
}

/// The first node whose value equals that of node `i`.
pub open spec fn first_equal(vals: Seq<U256>, i: int) -> int {
    choose|j: int| is_first_equal(vals, i, j)
}

/// Node `n` with each operand replaced by the first node of equal value.
pub open spec fn renumber_by_value(n: Node, vals: Seq<U256>) -> Node {
    match n {
        Node::UnoOp(op, a) => Node::UnoOp(op, first_equal(vals, a as int) as usize),
        Node::Op(op, a, b) => Node::Op(op, first_equal(vals, a as int) as usize, first_equal(vals, b as int) as usize),
        Node::TresOp(op, a, b, c) => Node::TresOp(
            op,
            first_equal(vals, a as int) as usize,
            first_equal(vals, b as int) as usize,
            first_equal(vals, c as int) as usize,
        ),
        _ => n,
    }
}

/// `after` and `outs_after` are `before` and `outs_before` with every
/// reference replaced by the first node of equal value under `vals`.
pub open spec fn numbered_by(
    before: Seq<Node>,
    outs_before: Seq<usize>,
    vals: Seq<U256>,
    after: Seq<Node>,
    outs_after: Seq<usize>,
) -> bool {
    &&& after.len() == before.len()
    &&& forall|i: int| 0 <= i < before.len() ==> #[trigger] after[i] == renumber_by_value(before[i], vals)
    &&& outs_after.len() == outs_before.len()
    &&& forall|k: int|
        0 <= k < outs_before.len() ==> #[trigger] outs_after[k] == first_equal(vals, outs_before[k] as int)
}

/// For every value, the index of the first value equal to it; values are
/// looked up by their lowest limb.
fn first_equal_indices(values: &Vec<U256>) -> (r: Vec<usize>)
    ensures
        r@.len() == values@.len(),
        forall|j: int| 0 <= j < values@.len() ==> #[trigger] r@[j] == first_equal(values@, j),
        forall|j: int| 0 <= j < values@.len() ==> #[trigger] r@[j] <= j,
{
    let ghost vals = values@;
    let n = values.len();
    // The indices of the first occurrence of each value so far, in order.
    let mut reps: Vec<usize> = Vec::new();
    // The positions in `reps`, by the lowest limb of their value.
    let mut chains = HashChains::new();
    let mut renumber: Vec<usize> = Vec::with_capacity(n);
    for i in 0..n
        invariant
            n == vals.len(),
            values@ == vals,
            renumber@.len() == i,
            forall|j: int| 0 <= j < i ==> #[trigger] renumber@[j] == first_equal(vals, j),
            forall|j: int| 0 <= j < i ==> #[trigger] renumber@[j] <= j,
            forall|j: int| 0 <= j < i ==> is_first_equal(vals, j, #[trigger] first_equal(vals, j)),
            chains.wf(),
            chains.hashes().len() == reps@.len(),
            reps@.len() <= i,
            forall|p: int|
                0 <= p < reps@.len() ==> #[trigger] reps@[p] < i && chains.hashes()[p] == vals[reps@[p] as int].l0
                    && first_equal(vals, reps@[p] as int) == reps@[p],
            forall|j: int|
                0 <= j < i && first_equal(vals, j) == j ==> exists|p: int| 0 <= p < reps@.len() && #[trigger] reps@[p] == j,
    {
        let h = values[i].l0;
        let mut cur = chains.first(h);
        proof {
            lemma_latest(chains.hashes(), h, chains.hashes().len() as int);
        }
        let mut found: Option<usize> = None;
        while found.is_none() && cur.is_some()
            invariant
                values@ == vals,
                i < vals.len(),
                h == vals[i as int].l0,
                chains.wf(),
                chains.hashes().len() == reps@.len(),
                reps@.len() <= usize::MAX,
                forall|p: int|
                    0 <= p < reps@.len() ==> #[trigger] reps@[p] < i && chains.hashes()[p] == vals[reps@[p] as int].l0
                        && first_equal(vals, reps@[p] as int) == reps@[p],
                cur matches Some(p) ==> p < reps@.len() && chains.hashes()[p as int] == h,
                found matches Some(r) ==> r < i && vals[r as int] == vals[i as int] && first_equal(vals, r as int)
                    == r,
                found is None ==> forall|q: int|
                    0 <= q < reps@.len() && chains.hashes()[q] == h && (cur matches Some(p) ==> p < q)
                        ==> vals[#[trigger] reps@[q] as int] != vals[i as int],
            decreases (match cur {
                Some(p) => p + 1,
                None => 0,
            }) + (if found is None {
                1int
            } else {
                0int
            }),
        {
            let p = cur.unwrap();
            let r = reps[p];
            if values[r] == values[i] {
                found = Some(r);
            } else {
                cur = chains.next(p);
                proof {
                    lemma_latest(chains.hashes(), h, p as int);
                }
            }
        }
        let ghost old_reps = reps@;
        match found {
            Some(r) => {
                proof {
                    assert(is_first_equal(vals, r as int, r as int));
                    assert(is_first_equal(vals, i as int, r as int));
                    lemma_first_equal_is(vals, i as int, r as int);
                }
                renumber.push(r);
            },
            None => {
                proof {
                    assert forall|m: int| 0 <= m < i implies vals[m] != vals[i as int] by {
                        if vals[m] == vals[i as int] {
                            let f = first_equal(vals, m);
                            assert(is_first_equal(vals, m, f));
                            assert(is_first_equal(vals, f, f));
                            lemma_first_equal_is(vals, f, f);
                            let p = choose|p: int| 0 <= p < reps@.len() && #[trigger] reps@[p] == f;
                            assert(vals[reps@[p] as int] == vals[i as int]);
                        }
                    }
                    assert(is_first_equal(vals, i as int, i as int));
                    lemma_first_equal_is(vals, i as int, i as int);
                }
                renumber.push(i);
                reps.push(i);
                chains.insert(h);
                proof {
                    assert(reps@[reps@.len() - 1] == i);
                    assert forall|j: int|
                        0 <= j < i + 1 && first_equal(vals, j) == j implies exists|p: int|
                        0 <= p < reps@.len() && #[trigger] reps@[p] == j by {
                        if j < i {
                            let p = choose|p: int| 0 <= p < old_reps.len() && #[trigger] old_reps[p] == j;
                            assert(reps@[p] == j);
                        } else {
                            assert(reps@[reps@.len() - 1] == j);
                        }
                    }
                }
            },
        }
    }
    renumber
}

/// The first equal value is unique.
proof fn lemma_first_equal_is(vals: Seq<U256>, i: int, j: int)
    requires
        is_first_equal(vals, i, j),
    ensures
        first_equal(vals, i) == j,
{
    let f = first_equal(vals, i);
    assert(is_first_equal(vals, i, f));
    if f < j {
        assert(vals[f] != vals[i]);
    } else if f > j {
        assert(vals[j] != vals[i]);
    }
}

/// Some node is the first whose value equals that of node `i`.
proof fn lemma_first_equal_exists(vals: Seq<U256>, i: int, k: int)
    requires
        0 <= k <= i < vals.len(),
        forall|m: int| 0 <= m < k ==> vals[m] != vals[i],
    ensures
        is_first_equal(vals, i, first_equal(vals, i)),
    decreases i - k,
{
    if vals[k] == vals[i] {
        assert(is_first_equal(vals, i, k));
    } else {
        lemma_first_equal_exists(vals, i, k + 1);
    }
}

/// `y` has the value of `x`, is at most `x`, and no node before `y` has
/// that value.
pub open spec fn earliest_with_value(vals: Seq<U256>, x: int, y: int) -> bool {
    &&& 0 <= y <= x
    &&& vals[y] == vals[x]
    &&& forall|m: int| 0 <= m < y ==> vals[m] != vals[y]
}

/// Value numbering keeps every node's kind and operation, and moves every
/// operand and every output to the earliest node with the same value.
pub proof fn lemma_numbering_meaning(
    before: Seq<Node>,
    outs: Seq<usize>,
    vals: Seq<U256>,
    after: Seq<Node>,
    outs_after: Seq<usize>,
)
    requires
        valid_graph(before),
        vals.len() == before.len(),
        forall|k: int| 0 <= k < outs.len() ==> #[trigger] outs[k] < before.len(),
        numbered_by(before, outs, vals, after, outs_after),
    ensures
        after.len() == before.len(),
        forall|i: int|
            0 <= i < before.len() ==> match #[trigger] before[i] {
                Node::Op(op, a, b) => after[i] matches Node::Op(op2, a2, b2) && op2 == op && earliest_with_value(
                    vals,
                    a as int,
                    a2 as int,
                ) && earliest_with_value(vals, b as int, b2 as int),
                Node::UnoOp(op, a) => after[i] matches Node::UnoOp(op2, a2) && op2 == op && earliest_with_value(
                    vals,
                    a as int,
                    a2 as int,
                ),
                Node::TresOp(op, a, b, c) => after[i] matches Node::TresOp(op2, a2, b2, c2) && op2 == op
                    && earliest_with_value(vals, a as int, a2 as int) && earliest_with_value(vals, b as int, b2 as int)
                    && earliest_with_value(vals, c as int, c2 as int),
                _ => after[i] == before[i],
            },
        outs_after.len() == outs.len(),
        forall|k: int| 0 <= k < outs.len() ==> earliest_with_value(vals, #[trigger] outs[k] as int, outs_after[k] as int),
{
    assert forall|x: int| 0 <= x < before.len() implies #[trigger] is_first_equal(vals, x, first_equal(vals, x)) by {
        lemma_first_equal_exists(vals, x, 0);
    }
    assert forall|i: int| 0 <= i < before.len() implies match #[trigger] before[i] {
        Node::Op(op, a, b) => after[i] matches Node::Op(op2, a2, b2) && op2 == op && earliest_with_value(
            vals,
            a as int,
            a2 as int,
        ) && earliest_with_value(vals, b as int, b2 as int),
        Node::UnoOp(op, a) => after[i] matches Node::UnoOp(op2, a2) && op2 == op && earliest_with_value(
            vals,
            a as int,
            a2 as int,
        ),
        Node::TresOp(op, a, b, c) => after[i] matches Node::TresOp(op2, a2, b2, c2) && op2 == op
            && earliest_with_value(vals, a as int, a2 as int) && earliest_with_value(vals, b as int, b2 as int)
            && earliest_with_value(vals, c as int, c2 as int),
        _ => after[i] == before[i],
    } by {
        assert(refs_below(before[i], i));
        assert(after[i] == renumber_by_value(before[i], vals));
        match before[i] {
            Node::Op(op, a, b) => {
                assert(is_first_equal(vals, a as int, first_equal(vals, a as int)));
                assert(is_first_equal(vals, b as int, first_equal(vals, b as int)));
            },
            Node::UnoOp(op, a) => {
                assert(is_first_equal(vals, a as int, first_equal(vals, a as int)));
            },
            Node::TresOp(op, a, b, c) => {
                assert(is_first_equal(vals, a as int, first_equal(vals, a as int)));
                assert(is_first_equal(vals, b as int, first_equal(vals, b as int)));
                assert(is_first_equal(vals, c as int, first_equal(vals, c as int)));
            },
            _ => {},
        }
    }
    assert forall|k: int| 0 <= k < outs.len() implies earliest_with_value(
        vals,
        #[trigger] outs[k] as int,
        outs_after[k] as int,
    ) by {
        assert(is_first_equal(vals, outs[k] as int, first_equal(vals, outs[k] as int)));
    }
}

/// Global value numbering: the graph is evaluated at random, and every
/// reference, output included, is redirected to the first node that has the
/// same value; equal random values mean, with high probability, equal
/// values.
pub fn value_numbering(nodes: &mut Vec<Node>, outputs: &mut [usize])
    requires
        valid_graph(old(nodes)@),
        no_mont_constants(old(nodes)@),
        forall|k: int| 0 <= k < old(outputs)@.len() ==> #[trigger] old(outputs)@[k] < old(nodes)@.len(),
    ensures
        exists|vals: Seq<U256>|
            random_evaluation(old(nodes)@, vals) && numbered_by(
                old(nodes)@,
                old(outputs)@,
                vals,
                final(nodes)@,
                final(outputs)@,
            ),
        valid_graph(final(nodes)@),
        forall|k: int| 0 <= k < final(outputs)@.len() ==> #[trigger] final(outputs)@[k] < final(nodes)@.len(),
{
    // Evaluate the graph in random field elements.
    let values = random_eval(nodes);
    value_numbering_with(nodes, outputs, &values);
}

/// Value numbering under the given values, one per node: every reference,
/// output included, is redirected to the first node that has the same value.
pub fn value_numbering_with(nodes: &mut Vec<Node>, outputs: &mut [usize], values: &Vec<U256>)
    requires
        valid_graph(old(nodes)@),
        forall|k: int| 0 <= k < old(outputs)@.len() ==> #[trigger] old(outputs)@[k] < old(nodes)@.len(),
        values@.len() == old(nodes)@.len(),
    ensures
        numbered_by(old(nodes)@, old(outputs)@, values@, final(nodes)@, final(outputs)@),
        valid_graph(final(nodes)@),
        forall|k: int| 0 <= k < final(outputs)@.len() ==> #[trigger] final(outputs)@[k] < final(nodes)@.len(),
{
    let ghost orig = nodes@;
    let ghost outs = outputs@;
    // For nodes that are the same, pick the first index.
    let renumber = first_equal_indices(values);

    // Renumber references.
    let n = nodes.len();
    for i in 0..n
        invariant
            n == orig.len() == values@.len() == renumber@.len(),
            nodes@.len() == n,
            valid_graph(orig),
            forall|j: int| 0 <= j < n ==> #[trigger] renumber@[j] == first_equal(values@, j),
            forall|j: int| 0 <= j < n ==> #[trigger] renumber@[j] <= j,
            forall|j: int| 0 <= j < i ==> #[trigger] nodes@[j] == renumber_by_value(orig[j], values@),
            forall|j: int| i <= j < n ==> #[trigger] nodes@[j] == orig[j],
            forall|j: int| 0 <= j < i ==> refs_below(#[trigger] nodes@[j], j),
    {
        proof {
            assert(refs_below(orig[i as int], i as int));
        }
        let renumbered = match nodes[i] {
            Node::Op(op, a, b) => Node::Op(op, renumber[a], renumber[b]),
            Node::UnoOp(op, a) => Node::UnoOp(op, renumber[a]),
            Node::TresOp(op, a, b, c) => Node::TresOp(op, renumber[a], renumber[b], renumber[c]),
            other => other,
        };
        nodes.set(i, renumbered);
    }
    let n_out = outputs.len();
    for k in 0..n_out
        invariant
            n_out == outs.len() == outputs@.len(),
            n == orig.len() == values@.len() == renumber@.len(),
            forall|j: int| 0 <= j < n ==> #[trigger] renumber@[j] == first_equal(values@, j),
            forall|j: int| 0 <= j < n ==> #[trigger] renumber@[j] <= j,
            forall|k: int| 0 <= k < outs.len() ==> #[trigger] outs[k] < n,
            forall|j: int| 0 <= j < k ==> #[trigger] outputs@[j] == first_equal(values@, outs[j] as int),
            forall|j: int| k <= j < n_out ==> #[trigger] outputs@[j] == outs[j],
    {
        let o = outputs[k];
        outputs[k] = renumber[o];
    }
    proof {
        assert(numbered_by(orig, outs, values@, nodes@, outputs@));
        assert forall|k: int| 0 <= k < outputs@.len() implies #[trigger] outputs@[k] < nodes@.len() by {
            assert(renumber@[outs[k] as int] <= outs[k]);
        }
    }
}

/// `after` is `before` with every non-constant node whose values under the
/// two random evaluations `va` and `vb` agree made the constant `va` gives it.
pub open spec fn constants_by(before: Seq<Node>, va: Seq<U256>, vb: Seq<U256>, after: Seq<Node>) -> bool {
    &&& after.len() == before.len()
    &&& forall|i: int|
        0 <= i < before.len() ==> #[trigger] after[i] == (if !(before[i] is Constant) && va[i] == vb[i] {
            Node::Constant(va[i])
        } else {
            before[i]
        })
}

/// Probabilistic constant determination: the graph is evaluated at random
/// twice, and every node that has the same value both times is taken to be
/// that constant.
pub fn constants(nodes: &mut Vec<Node>)
    requires
        valid_graph(old(nodes)@),
        no_mont_constants(old(nodes)@),
    ensures
        exists|va: Seq<U256>, vb: Seq<U256>|
            random_evaluation(old(nodes)@, va) && random_evaluation(old(nodes)@, vb) && constants_by(
                old(nodes)@,
                va,
                vb,
                final(nodes)@,
            ),
        valid_graph(final(nodes)@),
        no_mont_constants(final(nodes)@),
{
    // Evaluate the graph in random field elements.
    let values_a = random_eval(nodes);
    let values_b = random_eval(nodes);
    constants_with(nodes, &values_a, &values_b);
}

/// Constant determination under two given evaluations: every node that is
/// not a constant and has the same value in both becomes that constant.
pub fn constants_with(nodes: &mut Vec<Node>, values_a: &Vec<U256>, values_b: &Vec<U256>)
    requires
        values_a@.len() == old(nodes)@.len(),
        values_b@.len() == old(nodes)@.len(),
    ensures
        constants_by(old(nodes)@, values_a@, values_b@, final(nodes)@),
        valid_graph(old(nodes)@) ==> valid_graph(final(nodes)@),
        no_mont_constants(old(nodes)@) ==> no_mont_constants(final(nodes)@),
{
    let ghost orig = nodes@;
    // Find all nodes with the same value.
    let n = nodes.len();
    for i in 0..n
        invariant
            n == orig.len() == values_a@.len() == values_b@.len(),
            nodes@.len() == n,
            forall|j: int|
                0 <= j < i ==> #[trigger] nodes@[j] == (if !(orig[j] is Constant) && values_a@[j]
                    == values_b@[j] {
                    Node::Constant(values_a@[j])
                } else {
                    orig[j]
                }),
            forall|j: int| i <= j < n ==> #[trigger] nodes@[j] == orig[j],
    {
        let is_constant = if let Node::Constant(_) = nodes[i] {
            true
        } else {
            false
        };
        if !is_constant && values_a[i] == values_b[i] {
            nodes.set(i, Node::Constant(values_a[i]));
        }
    }
    proof {
        assert(constants_by(orig, values_a@, values_b@, nodes@));
        if valid_graph(orig) {
            assert forall|i: int| 0 <= i < nodes@.len() implies refs_below(#[trigger] nodes@[i], i) by {
                assert(refs_below(orig[i], i));
            }
        }
        if no_mont_constants(orig) {
            assert forall|i: int| 0 <= i < nodes@.len() implies !(#[trigger] nodes@[i] is MontConstant) by {
                assert(!(orig[i] is MontConstant));
            }
        }
    }
}

} // verus!
