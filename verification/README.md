# circom_witnesscalc

Evaluation and optimization of circom witness graphs over the BN254 scalar
field, verified with Verus.

A witness graph is a list of nodes (inputs, constants, field-element
constants and unary, binary and ternary operations) in which every operation
refers to earlier nodes by index.

## Layout

- `src/u256.rs`: 256-bit integers as four limbs, with their value as a
  natural number; the modular and integer arithmetic of `ruint`.
- `src/ops.rs`: the node operations on 256-bit integers (`Operation::eval`
  and friends), with the signed comparisons of field values.
- `src/field.rs`: BN254 field elements, held by their canonical value; the
  arithmetic of `ark_bn254`.
- `src/fr_ops.rs`: the node operations on field elements (`eval_fr`), shifts
  and bitwise operations, and how they agree with the integer evaluation.
- `src/graph.rs`: nodes, graph validity, constant evaluation (`to_const`) and
  the field evaluation of a graph (`evaluate`).
- `src/shake.rs`, `src/optimize.rs`, `src/numbering.rs`: the optimization
  passes (removal of unused nodes, constant propagation, value numbering,
  constant detection at random, conversion to Montgomery form) and `optimize`.
- `src/chains.rs`, `src/text.rs`: a hash index used by the random evaluation,
  and decimal text.
- `app/`: command-line argument handling, JSON files and the serde forms of
  the graph types.
- `tests/`: tests of the library on concrete values.
