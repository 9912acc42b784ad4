use crate::nfa::NodeHandle;
use vstd::prelude::*;

verus! {

/// A labeled edge of the automaton: either a specific symbol to consume, or
/// the epsilon marker `None` (no consumption), plus the target node handle.
#[derive(Debug, Clone, Copy)]
pub struct Transition {
    pub consumes: Option<char>,
    pub to: NodeHandle,
}

} // verus!
