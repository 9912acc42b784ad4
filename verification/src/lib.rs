//! Thompson construction: compile a regular-expression syntax tree into a
//! nondeterministic finite automaton, and decide membership by
//! epsilon-closure simulation.

pub mod lang;
pub mod nfa;
pub mod props;
pub mod semantics;
pub mod regex;
pub mod transition;
