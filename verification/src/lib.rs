//! Small-instance travelling-salesman solving by exhaustive route
//! enumeration, with a branch-and-bound pruning architecture: a pool of
//! workers shares a monotonically improving best-distance threshold through
//! a broadcast router, and a collector folds the results into the global
//! minimum. The arithmetic, the permutation generator, the pruned distance
//! evaluator and the coordination state machines are all verified; thread
//! and channel plumbing lives outside the library and only drives the state
//! machines defined here.
//!
//! The workshop's warm-up exercises — arithmetic, strings, ownership,
//! matching and list processing — are kept alongside, each with its own
//! contract.

pub mod basics;
pub mod collections;
pub mod matching;
pub mod ownership;
pub mod routes;
pub mod solver;
pub mod tsp;
