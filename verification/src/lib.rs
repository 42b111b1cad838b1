//! Runtime core of an incremental, memoizing computation engine.
//!
//! Three mechanisms live here, all phrased over one identity scheme
//! ([`Id`], [`DatabaseKeyIndex`]):
//!
//! * collecting accumulated values by a breadth-first walk of the recorded
//!   dependency graph,
//! * least-recently-used eviction policies for memoized results,
//! * the clone-count protocol that grants one handle exclusive access to the
//!   shared engine state.
pub mod accumulator;
pub mod function;
pub mod graph;
pub mod id;
pub mod storage;
mod sync;
pub mod traversal;

pub use id::{DatabaseKeyIndex, DependencyIndex, Id, IngredientIndex};
