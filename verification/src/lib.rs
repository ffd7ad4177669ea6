//! Incremental maintenance of a three-way equi-join under insertions and
//! deletions tagged with a logical time.
//!
//! The heart of the crate is the delta-join construction: for each input
//! relation it builds a chain of half-join steps that together contribute
//! exactly one copy of every joined tuple per actual change, with ties between
//! simultaneous updates broken by a fixed priority order over the relations.
//! A baseline materializing join serves as a correctness oracle, and a
//! late-materialization variant trades one extra half-join step for secondary
//! indexes that hold only key pairs.
//!
//! All computations here run against an in-memory reference engine: a relation
//! is a vector of change events, an arrangement is read by scanning those
//! events, and a half-join is a nested loop. A streaming dataflow engine can
//! substitute its own arrangements and half-join operator; the visibility
//! rule, the frontier operation and the shape of every step are fixed here.

pub mod change;
pub mod delta;
pub mod half_join;
pub mod laws;
pub mod oracle;
pub mod records;
pub mod time;
pub mod visibility;
