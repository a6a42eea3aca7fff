//! A persistent segment tree with lazy range updates, generic over a value
//! monoid and a modifier monoid that acts on it.
pub mod algebra;
pub mod laws;
pub mod tree;

pub use algebra::{Applier, Monoid, Semigroup};
pub use tree::SegTree;
