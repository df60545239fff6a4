//! Removal of the nodes that no output depends on.
use crate::graph::{
    evaluable, fr_node_defined, fr_values, lemma_fr_values_at, lemma_fr_values_len,
    refs_below, valid_graph, Node,
};
use crate::u256::U256;
use vstd::prelude::*;

verus! {

/// Node `n` reads node `j` as an operand.
pub open spec fn reads(n: Node, j: int) -> bool {
    match n {
        Node::UnoOp(_, a) => a == j,
        Node::Op(_, a, b) => a == j || b == j,
        Node::TresOp(_, a, b, c) => a == j || b == j || c == j,
        _ => false,
    }
}

/// Node `j` is used: it is an output, or a later used node reads it.
pub open spec fn is_used(nodes: Seq<Node>, outputs: Seq<usize>, j: int) -> bool
    decreases nodes.len() - j,
{
    &&& 0 <= j < nodes.len()
    &&& (outputs.contains(j as usize) || exists|i: int|
        j < i < nodes.len() && #[trigger] reads(nodes[i], j) && is_used(nodes, outputs, i))
}

/// Which nodes are used.
pub open spec fn used_marks(nodes: Seq<Node>, outputs: Seq<usize>) -> Seq<bool> {
    Seq::new(nodes.len(), |j: int| is_used(nodes, outputs, j))
}

/// The number of marked nodes before index `j`: the new index of a kept node.
pub open spec fn rank(marks: Seq<bool>, j: int) -> nat
    decreases j,
{
    if j <= 0 {
        0
    } else {
        rank(marks, j - 1) + (if marks[j - 1] {
            1nat
        } else {
            0nat
        })
    }
}

/// Node `n` with each operand index replaced by its new index.
pub open spec fn renumber_node(n: Node, marks: Seq<bool>) -> Node {
    match n {
        Node::UnoOp(op, a) => Node::UnoOp(op, rank(marks, a as int) as usize),
        Node::Op(op, a, b) => Node::Op(op, rank(marks, a as int) as usize, rank(marks, b as int) as usize),
        Node::TresOp(op, a, b, c) => Node::TresOp(
            op,
            rank(marks, a as int) as usize,
            rank(marks, b as int) as usize,
            rank(marks, c as int) as usize,
        ),
        _ => n,
    }
}

/// The marked nodes among the first `k`, in order, renumbered.
pub open spec fn shaken(nodes: Seq<Node>, marks: Seq<bool>, k: int) -> Seq<Node>
    decreases k,
{
    if k <= 0 {
        Seq::empty()
    } else {
        let prev = shaken(nodes, marks, k - 1);
        if marks[k - 1] {
            prev.push(renumber_node(nodes[k - 1], marks))
        } else {
            prev
        }
    }
}

/// Node `j` is an output, or a used node from index `k` on reads it.
pub open spec fn marked(nodes: Seq<Node>, outputs: Seq<usize>, k: int, j: int) -> bool {
    outputs.contains(j as usize) || exists|i: int|
        k <= i < nodes.len() && #[trigger] reads(nodes[i], j) && is_used(nodes, outputs, i)
}

/// In a valid graph, the marks from the nodes after `j` are the uses of `j`.
proof fn lemma_marked_is_used(nodes: Seq<Node>, outputs: Seq<usize>, k: int, j: int)
    requires
        valid_graph(nodes),
        0 <= j < nodes.len(),
        k <= j + 1,
    ensures
        marked(nodes, outputs, k, j) == is_used(nodes, outputs, j),
{
    if marked(nodes, outputs, k, j) && !outputs.contains(j as usize) {
        let i = choose|i: int|
            k <= i < nodes.len() && #[trigger] reads(nodes[i], j) && is_used(nodes, outputs, i);
        assert(refs_below(nodes[i], i));
    }
}

/// Marking from node `k` adds what node `k` reads where `k` is used.
proof fn lemma_marked_step(nodes: Seq<Node>, outputs: Seq<usize>, k: int, j: int)
    requires
        0 <= k < nodes.len(),
    ensures
        marked(nodes, outputs, k, j) == (marked(nodes, outputs, k + 1, j) || (reads(nodes[k], j)
            && is_used(nodes, outputs, k))),
{
    if marked(nodes, outputs, k, j) && !outputs.contains(j as usize) {
        let i = choose|i: int|
            k <= i < nodes.len() && #[trigger] reads(nodes[i], j) && is_used(nodes, outputs, i);
        if i > k {
            assert(marked(nodes, outputs, k + 1, j));
        }
    }
}

/// What a used node reads is used.
pub proof fn lemma_reads_used(nodes: Seq<Node>, outputs: Seq<usize>, j: int, a: int)
    requires
        valid_graph(nodes),
        is_used(nodes, outputs, j),
        reads(nodes[j], a),
    ensures
        is_used(nodes, outputs, a),
        a < j,
{
    assert(refs_below(nodes[j], j));
    assert(0 <= a) by {
        match nodes[j] {
            Node::UnoOp(_, x) => {},
            Node::Op(_, x, y) => {},
            Node::TresOp(_, x, y, z) => {},
            _ => {},
        }
    }
}

/// Ranks grow by one at each marked node.
pub proof fn lemma_rank_mono(marks: Seq<bool>, a: int, j: int)
    requires
        0 <= a < j <= marks.len(),
        marks[a],
    ensures
        rank(marks, a) < rank(marks, j),
    decreases j,
{
    if j > a + 1 {
        lemma_rank_mono(marks, a, j - 1);
    }
}

/// A rank is at most its index.
pub proof fn lemma_rank_le(marks: Seq<bool>, j: int)
    requires
        0 <= j,
    ensures
        rank(marks, j) <= j,
    decreases j,
{
    if j > 0 {
        lemma_rank_le(marks, j - 1);
    }
}

/// The kept nodes among the first `k` are as many as the marks before `k`,
/// and a marked node `j` is kept at its rank.
pub proof fn lemma_shaken(nodes: Seq<Node>, marks: Seq<bool>, k: int)
    requires
        0 <= k <= marks.len(),
        marks.len() == nodes.len(),
    ensures
        shaken(nodes, marks, k).len() == rank(marks, k),
        forall|j: int|
            0 <= j < k && marks[j] ==> shaken(nodes, marks, k)[rank(marks, j) as int] == renumber_node(
                #[trigger] nodes[j],
                marks,
            ),
    decreases k,
{
    if k > 0 {
        lemma_shaken(nodes, marks, k - 1);
        assert forall|j: int| 0 <= j < k && marks[j] implies shaken(nodes, marks, k)[rank(marks, j) as int]
            == renumber_node(#[trigger] nodes[j], marks) by {
            if j < k - 1 {
                lemma_rank_mono(marks, j, k - 1);
            }
        }
    }
}

/// `n` with its operands renumbered through `renumber`.
fn renumber_refs(n: Node, renumber: &Vec<Option<usize>>, Ghost(marks): Ghost<Seq<bool>>) -> (r: Node)
    requires
        renumber@.len() == marks.len(),
        forall|j: int|
            0 <= j < marks.len() ==> #[trigger] renumber@[j] == (if marks[j] {
                Some(rank(marks, j) as usize)
            } else {
                None
            }),
        forall|j: int| #[trigger] reads(n, j) ==> 0 <= j < marks.len() && marks[j],
    ensures
        r == renumber_node(n, marks),
{
    match n {
        Node::Op(op, a, b) => {
            assert(reads(n, a as int) && reads(n, b as int));
            Node::Op(op, renumber[a].unwrap(), renumber[b].unwrap())
        },
        Node::UnoOp(op, a) => {
            assert(reads(n, a as int));
            Node::UnoOp(op, renumber[a].unwrap())
        },
        Node::TresOp(op, a, b, c) => {
            assert(reads(n, a as int) && reads(n, b as int) && reads(n, c as int));
            Node::TresOp(op, renumber[a].unwrap(), renumber[b].unwrap(), renumber[c].unwrap())
        },
        _ => n,
    }
}

/// Removes the nodes that no output depends on and renumbers the remaining
/// nodes, their references and the outputs.
pub fn tree_shake(nodes: &mut Vec<Node>, outputs: &mut [usize])
    requires
        valid_graph(old(nodes)@),
        forall|k: int| 0 <= k < old(outputs)@.len() ==> #[trigger] old(outputs)@[k] < old(nodes)@.len(),
    ensures
        final(nodes)@ == shaken(old(nodes)@, used_marks(old(nodes)@, old(outputs)@), old(nodes)@.len() as int),
        final(outputs)@.len() == old(outputs)@.len(),
        forall|k: int|
            0 <= k < old(outputs)@.len() ==> #[trigger] final(outputs)@[k] == rank(
                used_marks(old(nodes)@, old(outputs)@),
                old(outputs)@[k] as int,
            ),
        final(outputs)@ == shaken_outputs(used_marks(old(nodes)@, old(outputs)@), old(outputs)@),
        valid_graph(final(nodes)@),
        forall|k: int| 0 <= k < final(outputs)@.len() ==> #[trigger] final(outputs)@[k] < final(nodes)@.len(),
{
    let ghost orig = nodes@;
    let ghost outs = outputs@;
    let ghost marks = used_marks(orig, outs);
    let n = nodes.len();

    // Mark all nodes that are used.
    let mut used: Vec<bool> = Vec::with_capacity(n);
    for j in 0..n
        invariant
            used@.len() == j,
            forall|i: int| 0 <= i < j ==> !#[trigger] used@[i],
    {
        used.push(false);
    }
    let n_out = outputs.len();
    for t in 0..n_out
        invariant
            n == orig.len(),
            n_out == outs.len(),
            outputs@ == outs,
            used@.len() == n,
            forall|k: int| 0 <= k < outs.len() ==> #[trigger] outs[k] < n,
            forall|j: int|
                0 <= j < n ==> #[trigger] used@[j] == exists|s: int| 0 <= s < t && outs[s] == j,
    {
        let o = outputs[t];
        let ghost before = used@;
        used.set(o, true);
        proof {
            assert forall|j: int| 0 <= j < n implies #[trigger] used@[j] == exists|s: int|
                0 <= s < t + 1 && outs[s] == j by {
                if j == o {
                    assert(outs[t as int] == j);
                }
                if before[j] {
                    let s = choose|s: int| 0 <= s < t && outs[s] == j;
                    assert(0 <= s < t + 1 && outs[s] == j);
                }
            }
        }
    }
    proof {
        assert forall|j: int| 0 <= j < n implies #[trigger] used@[j] == marked(orig, outs, n as int, j) by {
            if used@[j] {
                let s = choose|s: int| 0 <= s < n_out && outs[s] == j;
                assert(outs[s] == j as usize);
            }
        }
    }

    // Work backwards from end as all references are backwards.
    let mut k = n;
    while k > 0
        invariant
            k <= n == orig.len(),
            nodes@ == orig,
            valid_graph(orig),
            used@.len() == n,
            forall|j: int| 0 <= j < n ==> #[trigger] used@[j] == marked(orig, outs, k as int, j),
        decreases k,
    {
        k -= 1;
        proof {
            lemma_marked_is_used(orig, outs, k + 1, k as int);
            assert forall|j: int| 0 <= j < n implies marked(orig, outs, k as int, j) == (#[trigger] marked(
                orig,
                outs,
                k + 1,
                j,
            ) || (reads(orig[k as int], j) && is_used(orig, outs, k as int))) by {
                lemma_marked_step(orig, outs, k as int, j);
            }
            assert(refs_below(orig[k as int], k as int));
        }
        let ghost before = used@;
        if used[k] {
            match nodes[k] {
                Node::Op(_, a, b) => {
                    used.set(a, true);
                    used.set(b, true);
                },
                Node::UnoOp(_, a) => {
                    used.set(a, true);
                },
                Node::TresOp(_, a, b, c) => {
                    used.set(a, true);
                    used.set(b, true);
                    used.set(c, true);
                },
                _ => {},
            }
        }
        proof {
            assert forall|j: int| 0 <= j < n implies #[trigger] used@[j] == (before[j] || (before[k as int]
                && reads(orig[k as int], j))) by {}
        }
    }
    proof {
        assert forall|j: int| 0 <= j < n implies #[trigger] used@[j] == marks[j] by {
            lemma_marked_is_used(orig, outs, 0, j);
        }
    }

    // Renumber references.
    let mut renumber: Vec<Option<usize>> = Vec::with_capacity(n);
    let mut index: usize = 0;
    for i in 0..n
        invariant
            n == orig.len() == marks.len(),
            used@.len() == n,
            forall|j: int| 0 <= j < n ==> #[trigger] used@[j] == marks[j],
            renumber@.len() == i,
            index == rank(marks, i as int),
            forall|j: int|
                0 <= j < i ==> #[trigger] renumber@[j] == (if marks[j] {
                    Some(rank(marks, j) as usize)
                } else {
                    None
                }),
    {
        proof {
            lemma_rank_le(marks, i as int);
        }
        if used[i] {
            renumber.push(Some(index));
            index += 1;
        } else {
            renumber.push(None);
        }
    }

    // Keep the used nodes, with their references renumbered.
    let mut kept: Vec<Node> = Vec::with_capacity(index);
    for i in 0..n
        invariant
            n == orig.len() == marks.len(),
            nodes@ == orig,
            valid_graph(orig),
            marks == used_marks(orig, outs),
            used@.len() == n,
            forall|j: int| 0 <= j < n ==> #[trigger] used@[j] == marks[j],
            renumber@.len() == n,
            forall|j: int|
                0 <= j < n ==> #[trigger] renumber@[j] == (if marks[j] {
                    Some(rank(marks, j) as usize)
                } else {
                    None
                }),
            kept@ == shaken(orig, marks, i as int),
    {
        if used[i] {
            proof {
                assert forall|j: int| #[trigger] reads(orig[i as int], j) implies 0 <= j < marks.len()
                    && marks[j] by {
                    lemma_reads_used(orig, outs, i as int, j);
                }
            }
            kept.push(renumber_refs(nodes[i], &renumber, Ghost(marks)));
        }
    }
    *nodes = kept;
    proof {
        lemma_shaken(orig, marks, n as int);
    }

    for t in 0..n_out
        invariant
            n_out == outs.len(),
            outputs@.len() == outs.len(),
            n == orig.len() == marks.len(),
            forall|k: int| 0 <= k < outs.len() ==> #[trigger] outs[k] < n,
            forall|k: int| t <= k < outs.len() ==> #[trigger] outputs@[k] == outs[k],
            forall|k: int| 0 <= k < t ==> #[trigger] outputs@[k] == rank(marks, outs[k] as int),
            renumber@.len() == n,
            forall|j: int|
                0 <= j < n ==> #[trigger] renumber@[j] == (if marks[j] {
                    Some(rank(marks, j) as usize)
                } else {
                    None
                }),
            marks == used_marks(orig, outs),
    {
        let o = outputs[t];
        proof {
            assert(outs[t as int] == o);
            assert(outs.contains(o));
            lemma_rank_le(marks, o as int);
        }
        outputs[t] = renumber[o].unwrap();
    }
    proof {
        assert(outputs@ =~= shaken_outputs(marks, outs));
        lemma_tree_shake_valid(orig, outs);
        assert forall|k: int| 0 <= k < outputs@.len() implies #[trigger] outputs@[k] < nodes@.len() by {
            assert(outs.contains(outs[k]));
            lemma_rank_mono(marks, outs[k] as int, n as int);
        }
    }
}

/// The shaken graph is valid.
proof fn lemma_tree_shake_valid(nodes: Seq<Node>, outputs: Seq<usize>)
    requires
        valid_graph(nodes),
    ensures
        valid_graph(shaken(nodes, used_marks(nodes, outputs), nodes.len() as int)),
{
    let marks = used_marks(nodes, outputs);
    let s = shaken(nodes, marks, nodes.len() as int);
    lemma_shaken(nodes, marks, nodes.len() as int);
    assert forall|k: int| 0 <= k < s.len() implies refs_below(#[trigger] s[k], k) by {
        let j = lemma_rank_inverse(marks, k, nodes.len() as int);
        assert(refs_below(nodes[j], j));
        match nodes[j] {
            Node::Op(_, a, b) => {
                lemma_reads_used(nodes, outputs, j, a as int);
                lemma_reads_used(nodes, outputs, j, b as int);
                lemma_rank_mono(marks, a as int, j);
                lemma_rank_mono(marks, b as int, j);
            },
            Node::UnoOp(_, a) => {
                lemma_reads_used(nodes, outputs, j, a as int);
                lemma_rank_mono(marks, a as int, j);
            },
            Node::TresOp(_, a, b, c) => {
                lemma_reads_used(nodes, outputs, j, a as int);
                lemma_reads_used(nodes, outputs, j, b as int);
                lemma_reads_used(nodes, outputs, j, c as int);
                lemma_rank_mono(marks, a as int, j);
                lemma_rank_mono(marks, b as int, j);
                lemma_rank_mono(marks, c as int, j);
            },
            _ => {},
        }
    }
}

/// A used node keeps its field value and stays evaluable at its new index.
proof fn lemma_shaken_value(nodes: Seq<Node>, outputs: Seq<usize>, inputs: Seq<U256>, j: int)
    requires
        valid_graph(nodes),
        evaluable(nodes, inputs),
        is_used(nodes, outputs, j),
    ensures
        ({
            let marks = used_marks(nodes, outputs);
            let s = shaken(nodes, marks, nodes.len() as int);
            &&& fr_values(s, inputs)[rank(marks, j) as int] == fr_values(nodes, inputs)[j]
            &&& fr_node_defined(s[rank(marks, j) as int], rank(marks, j) as int, inputs, fr_values(s, inputs))
        }),
    decreases j,
{
    let marks = used_marks(nodes, outputs);
    let len = nodes.len() as int;
    let s = shaken(nodes, marks, len);
    let old_vals = fr_values(nodes, inputs);
    let new_vals = fr_values(s, inputs);
    let r = rank(marks, j) as int;
    lemma_shaken(nodes, marks, len);
    lemma_tree_shake_valid(nodes, outputs);
    lemma_rank_mono(marks, j, len);
    lemma_fr_values_len(nodes, inputs);
    lemma_fr_values_len(s, inputs);
    assert(s[r] == renumber_node(nodes[j], marks));
    assert(refs_below(nodes[j], j));
    assert(refs_below(s[r], r));
    assert(fr_node_defined(nodes[j], j, inputs, old_vals));
    lemma_fr_values_at(nodes, inputs, j);
    lemma_fr_values_at(s, inputs, r);
    match nodes[j] {
        Node::Op(op, a, b) => {
            lemma_reads_used(nodes, outputs, j, a as int);
            lemma_reads_used(nodes, outputs, j, b as int);
            lemma_shaken_value(nodes, outputs, inputs, a as int);
            lemma_rank_le(marks, a as int);
            lemma_shaken_value(nodes, outputs, inputs, b as int);
            lemma_rank_le(marks, b as int);
        },
        Node::UnoOp(op, a) => {
            lemma_reads_used(nodes, outputs, j, a as int);
            lemma_shaken_value(nodes, outputs, inputs, a as int);
            lemma_rank_le(marks, a as int);
        },
        Node::TresOp(op, a, b, c) => {
            lemma_reads_used(nodes, outputs, j, a as int);
            lemma_reads_used(nodes, outputs, j, b as int);
            lemma_reads_used(nodes, outputs, j, c as int);
            lemma_shaken_value(nodes, outputs, inputs, a as int);
            lemma_rank_le(marks, a as int);
            lemma_shaken_value(nodes, outputs, inputs, b as int);
            lemma_rank_le(marks, b as int);
            lemma_shaken_value(nodes, outputs, inputs, c as int);
            lemma_rank_le(marks, c as int);
        },
        _ => {},
    }
}

/// Removing unused nodes keeps the graph evaluable on any inputs on which it
/// was, and keeps the value of every output.
pub proof fn lemma_tree_shake_keeps_outputs(nodes: Seq<Node>, outputs: Seq<usize>, inputs: Seq<U256>)
    requires
        valid_graph(nodes),
        evaluable(nodes, inputs),
        forall|k: int| 0 <= k < outputs.len() ==> #[trigger] outputs[k] < nodes.len(),
    ensures
        evaluable(shaken(nodes, used_marks(nodes, outputs), nodes.len() as int), inputs),
        forall|k: int|
            0 <= k < outputs.len() ==> fr_values(
                shaken(nodes, used_marks(nodes, outputs), nodes.len() as int),
                inputs,
            )[rank(used_marks(nodes, outputs), #[trigger] outputs[k] as int) as int] == fr_values(
                nodes,
                inputs,
            )[outputs[k] as int],
{
    let marks = used_marks(nodes, outputs);
    let len = nodes.len() as int;
    let s = shaken(nodes, marks, len);
    lemma_shaken(nodes, marks, len);
    assert forall|k: int| 0 <= k < s.len() implies fr_node_defined(
        #[trigger] s[k],
        k,
        inputs,
        fr_values(s, inputs),
    ) by {
        let j = lemma_rank_inverse(marks, k, len);
        lemma_shaken_value(nodes, outputs, inputs, j);
    }
    assert forall|k: int| 0 <= k < outputs.len() implies fr_values(s, inputs)[rank(
        marks,
        #[trigger] outputs[k] as int,
    ) as int] == fr_values(nodes, inputs)[outputs[k] as int] by {
        assert(outputs.contains(outputs[k]));
        lemma_shaken_value(nodes, outputs, inputs, outputs[k] as int);
    }
}

/// The outputs, each moved to the new index of its node.
pub open spec fn shaken_outputs(marks: Seq<bool>, outputs: Seq<usize>) -> Seq<usize> {
    outputs.map_values(|o: usize| rank(marks, o as int) as usize)
}

/// A used node stays used at its new index once the unused nodes are removed.
proof fn lemma_used_stays_used(nodes: Seq<Node>, outputs: Seq<usize>, j: int)
    requires
        valid_graph(nodes),
        is_used(nodes, outputs, j),
        nodes.len() <= usize::MAX,
    ensures
        is_used(
            shaken(nodes, used_marks(nodes, outputs), nodes.len() as int),
            shaken_outputs(used_marks(nodes, outputs), outputs),
            rank(used_marks(nodes, outputs), j) as int,
        ),
    decreases nodes.len() - j,
{
    let marks = used_marks(nodes, outputs);
    let len = nodes.len() as int;
    let s = shaken(nodes, marks, len);
    let so = shaken_outputs(marks, outputs);
    let rj = rank(marks, j);
    lemma_shaken(nodes, marks, len);
    lemma_rank_mono(marks, j, len);
    lemma_rank_le(marks, j);
    if outputs.contains(j as usize) {
        let t = choose|t: int| 0 <= t < outputs.len() && outputs[t] == j as usize;
        assert(so[t] == rj as usize);
        assert(so.contains(rj as usize));
    } else {
        let i = choose|i: int| j < i < len && #[trigger] reads(nodes[i], j) && is_used(nodes, outputs, i);
        assert(refs_below(nodes[i], i));
        lemma_used_stays_used(nodes, outputs, i);
        lemma_rank_mono(marks, j, i);
        lemma_rank_mono(marks, i, len);
        let ri = rank(marks, i) as int;
        assert(s[ri] == renumber_node(nodes[i], marks));
        assert(reads(s[ri], rj as int));
    }
}

/// Removing unused nodes leaves only used nodes: every remaining node is an
/// output or is read by a later remaining node that is used.
pub proof fn lemma_tree_shake_leaves_only_used(nodes: Seq<Node>, outputs: Seq<usize>)
    requires
        valid_graph(nodes),
        nodes.len() <= usize::MAX,
    ensures
        forall|k: int|
            0 <= k < shaken(nodes, used_marks(nodes, outputs), nodes.len() as int).len() ==> is_used(
                shaken(nodes, used_marks(nodes, outputs), nodes.len() as int),
                shaken_outputs(used_marks(nodes, outputs), outputs),
                k,
            ),
{
    let marks = used_marks(nodes, outputs);
    let len = nodes.len() as int;
    let s = shaken(nodes, marks, len);
    lemma_shaken(nodes, marks, len);
    assert forall|k: int| 0 <= k < s.len() implies is_used(s, shaken_outputs(marks, outputs), k) by {
        let j = lemma_rank_inverse(marks, k, len);
        assert(is_used(nodes, outputs, j));
        lemma_used_stays_used(nodes, outputs, j);
    }
}

/// Every rank below `rank(marks, k)` is the rank of a marked index below `k`.
pub proof fn lemma_rank_inverse(marks: Seq<bool>, r: int, k: int) -> (j: int)
    requires
        0 <= k <= marks.len(),
        0 <= r < rank(marks, k),
    ensures
        0 <= j < k,
        marks[j],
        rank(marks, j) == r,
    decreases k,
{
    if rank(marks, k - 1) > r {
        lemma_rank_inverse(marks, r, k - 1)
    } else {
        k - 1
    }
}

} // verus!
