//! Coarse-to-fine recognition for weighted automata with storage.
//!
//! An exact weighted pushdown automaton is expensive to search.  This crate
//! builds a tower of increasingly coarse automata, each obtained from the one
//! below by an approximation strategy, searches the coarsest level first, and
//! lazily lifts promising coarse derivations back down, validating each lift
//! against the next finer automaton, until a derivation is confirmed against
//! the original automaton.

pub mod approximation;
pub mod recognisable;
pub mod weight;
