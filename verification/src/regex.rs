use vstd::prelude::*;

verus! {

/// A regular-expression abstract syntax tree. Each internal node owns its
/// children exclusively; the tree is acyclic and shares no substructure.
#[derive(Debug)]
pub enum Regex {
    /// Matches `left` immediately followed by `right`.
    Concat(Box<Regex>, Box<Regex>),
    /// Matches `left` or `right`.
    Or(Box<Regex>, Box<Regex>),
    /// Repetition of the inner expression, governed by the quantifier.
    Quantified(Quantifier, Box<Regex>),
    /// Matches exactly one occurrence of the symbol.
    Char(char),
}

/// The repetition kinds. Only Kleene star (zero or more) exists today; the
/// variant set is meant to grow (one or more, optional) without changing the
/// construction pattern.
#[derive(Debug)]
pub enum Quantifier {
    Kleene,
}

} // verus!
