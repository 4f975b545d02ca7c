//! Breadth-first search over an abstract state space.
//!
//! The caller supplies a start state, a goal predicate and an expansion
//! function; the engine returns one path with the fewest steps from the
//! start to a goal, or `None` once every reachable state has been expanded.

pub mod graph;
pub mod laws;
pub mod order;
pub mod progress;
pub mod search;
pub mod tree;

pub use search::breadth_first_search;
