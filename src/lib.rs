//! Ranks the packages of a registry by importance with damped power
//! iteration over their dependency graph: an edge from A to B means that A
//! depends on B, and rank flows along it.
//!
//! `graph` turns a collection of package records into a transition model,
//! `rank` iterates over it in exact integer arithmetic, and `theorems` states
//! what holds of both.

pub mod error;
pub mod graph;
pub mod package;
pub mod rank;
pub mod theorems;
