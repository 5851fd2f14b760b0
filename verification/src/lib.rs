//! Regular expressions compiled to nondeterministic finite automata.
//!
//! The crate has three parts: an expression tree with an algebraic
//! simplifier (`regular_expressions`), Thompson's construction from a tree
//! to an automaton (`nfa`), and a simulator that decides word membership by
//! tracking the set of reachable states (`fsa`). The mathematical meaning
//! of an automaton lives in `semantics`, and `laws` proves the properties
//! that tie the parts together.

pub mod fsa;
pub mod laws;
pub mod nfa;
pub mod regular_expressions;
pub mod semantics;
