//! Learning deterministic finite automata from labelled samples by state
//! merging: an automaton model, a partition of its states that supports
//! speculative merges with exact rollback, and the RPNI and exhaustive EDSM
//! search drivers built on that partition.

pub mod dfa_learning_toolkit;
