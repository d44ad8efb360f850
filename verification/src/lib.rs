//! Cycle-safe topological sorting of nodes by their declared dependencies.
//!
//! A [`TopoSort`] maps each node to the set of nodes it depends on. Sorting is lazy: a
//! traversal started from the store yields, step by step, a node whose dependencies have
//! all been yielded, and reports a [`CycleError`] once if the nodes that are left depend
//! on one another in a circle. A dependency that is no node of the store, and a node's
//! dependency on itself, constrain nothing.
//!
//! The contracts speak of the store as a map from nodes to sets of nodes. What the
//! words of the contracts mean is defined in [`graph`]; what holds of every traversal is
//! proved in [`laws`] and [`cycles`].

pub mod cycles;
mod engine;
mod entries;
pub mod error;
pub mod graph;
mod handles;
pub mod into_iter;
pub mod iter;
pub mod laws;
pub mod store;

pub use error::CycleError;
pub use into_iter::IntoTopoSortIter;
pub use iter::{TopoSortIter, TopoSortNodeIter};
pub use store::TopoSort;
