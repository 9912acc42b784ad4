use crate::regex::{Quantifier, Regex};
use vstd::prelude::*;

verus! {

/// The language of a regular expression: `lang(r, s)` says that `r` matches
/// exactly the whole sequence `s`.
pub open spec fn lang(r: Regex, s: Seq<char>) -> bool
    decreases r, s.len(), 0int,
{
    match r {
        Regex::Char(c) => s.len() == 1 && s[0] == c,
        Regex::Concat(l, rgt) => exists|i: int|
            0 <= i <= s.len() && lang(*l, #[trigger] s.take(i)) && lang(*rgt, s.skip(i)),
        Regex::Or(l, rgt) => lang(*l, s) || lang(*rgt, s),
        Regex::Quantified(Quantifier::Kleene, inner) => star_lang(*inner, s),
    }
}

/// Zero or more adjacent matches of `inner` that cover `s`: either `s` is
/// empty, or a non-empty prefix matches `inner` and the rest is again
/// covered.
pub open spec fn star_lang(inner: Regex, s: Seq<char>) -> bool
    decreases inner, s.len(), 1int,
{
    ||| s.len() == 0
    ||| exists|i: int|
        1 <= i <= s.len() && lang(inner, #[trigger] s.take(i)) && star_lang(inner, s.skip(i))
}

} // verus!
