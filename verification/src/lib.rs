//! Gabow-Tarjan tree set union: microsets, a precomputed answer table and
//! macrosets, with the static and incremental front ends.
use vstd::prelude::*;

pub mod answer_table;
pub mod macroset;
pub mod tree;
pub mod microset;
pub mod static_tree;
mod construct;
mod preorder;
mod local_tree;
pub mod oracle;
pub mod shapes;
pub mod incremental;

pub use static_tree::StaticTreeSetUnion;
pub use incremental::IncrementalTreeSetUnion;

verus! {

} // verus!
