//! Evaluation and optimization of circom witness graphs over the BN254
//! scalar field.
pub mod chains;
pub mod field;
pub mod fr_ops;
pub mod graph;
pub mod numbering;
pub mod ops;
pub mod optimize;
pub mod shake;
pub mod text;
pub mod u256;

use vstd::prelude::*;

verus! {
} // verus!
