use crate::lang::{lang, star_lang};
use crate::nfa::{
    compiled, extends, frag, graph_wf, lemma_extend_append, lemma_extend_push2,
    lemma_extend_trans, lemma_frag_props, GraphModel, NFA,
};
use crate::regex::{Quantifier, Regex};
use crate::semantics::{
    consumed, is_run, lemma_reaches_compose, lemma_reaches_extends, lemma_reaches_step,
    nfa_accepts, reaches, step_ok, Step,
};
use vstd::prelude::*;

verus! {

/// Compilation is deterministic: any two automata that satisfy `compile`'s
/// contract for the same AST accept exactly the same inputs. Node numbering
/// and acceptance behavior alike are pinned by the AST alone.
pub proof fn lemma_compile_deterministic(n1: NFA, n2: NFA, r: Regex, s: Seq<char>)
    requires
        n1.graph() == compiled(r).0,
        n1.start as int == compiled(r).1,
        n1.accept as int == compiled(r).2,
        n2.graph() == compiled(r).0,
        n2.start as int == compiled(r).1,
        n2.accept as int == compiled(r).2,
    ensures
        nfa_accepts(n1, s) == nfa_accepts(n2, s),
{
}

/// A single-symbol expression accepts exactly the one-symbol input `[c]`: it
/// rejects the empty input and every other sequence.
pub proof fn lemma_char_exact(c: char, s: Seq<char>)
    ensures
        ({
            let (g, e, x) = compiled(Regex::Char(c));
            reaches(g, e, x, s) <==> lang(Regex::Char(c), s)
        }),
{
    reveal_with_fuel(consumed, 3);
    let (g, e, x) = compiled(Regex::Char(c));
    assert(g =~~= seq![seq![(Some(c), 1int)], Seq::<(Option<char>, int)>::empty()]);
    assert(e == 0 && x == 1);
    if lang(Regex::Char(c), s) {
        let steps = seq![(0int, Some(c), 1int)];
        assert(g[0][0] == (Some(c), 1int));
        assert(g[0].contains((Some(c), 1int)));
        assert(is_run(g, 0, 1, steps));
        assert(steps.drop_last() =~= Seq::<Step>::empty());
        assert(consumed(steps) =~= seq![c]);
        assert(s =~= seq![c]);
        assert(reaches(g, e, x, s));
    }
    if reaches(g, e, x, s) {
        let steps = choose|steps: Seq<Step>| is_run(g, 0, 1, steps) && consumed(steps) == s;
        assert(steps.len() >= 1);
        assert(step_ok(g, steps[0]));
        assert((steps[0].1, steps[0].2) == (Some(c), 1int)) by {
            let j = choose|j: int|
                0 <= j < g[0].len() && g[0][j] == (steps[0].1, steps[0].2);
            assert(j == 0);
        }
        if steps.len() >= 2 {
            assert(steps[1].0 == 1);
            assert(step_ok(g, steps[1]));
            let j = choose|j: int|
                0 <= j < g[1].len() && g[1][j] == (steps[1].1, steps[1].2);
            assert(false);
        }
        assert(steps =~= seq![(0int, Some(c), 1int)]);
        assert(steps.drop_last() =~= Seq::<Step>::empty());
        assert(s =~= seq![c]);
        assert(lang(Regex::Char(c), s));
    }
}

/// Composing the two child fragments of a concatenation: a run through the
/// left child, the fresh epsilon bridge, and a run through the right child.
#[verifier::rlimit(100)]
#[verifier::spinoff_prover]
proof fn lemma_frag_concat(l: Regex, rgt: Regex, g: GraphModel, x: Seq<char>, y: Seq<char>)
    requires
        graph_wf(g),
        ({
            let (g1, le, lx) = frag(l, g);
            reaches(g1, le, lx, x)
        }),
        ({
            let (g1, le, lx) = frag(l, g);
            let (g2, re, rx) = frag(rgt, g1);
            reaches(g2, re, rx, y)
        }),
    ensures
        ({
            let (g1, le, lx) = frag(l, g);
            let (g2, re, rx) = frag(rgt, g1);
            let g3 = g2.update(lx, g2[lx].push((None, re)));
            reaches(g3, le, rx, x + y)
        }),
{
    let (g1, le, lx) = frag(l, g);
    let (g2, re, rx) = frag(rgt, g1);
    let g3 = g2.update(lx, g2[lx].push((None, re)));
    lemma_frag_props(l, g);
    lemma_frag_props(rgt, g1);
    assert(extends(g1, g2));
    lemma_extend_append(g2, lx, (None, re));
    lemma_extend_trans(g1, g2, g3);
    lemma_reaches_extends(g1, g3, le, lx, x);
    lemma_reaches_extends(g2, g3, re, rx, y);
    assert(g3[lx][g2[lx].len() as int] == (None::<char>, re));
    assert(g3[lx].contains((None::<char>, re)));
    lemma_reaches_step(g3, (lx, None::<char>, re));
    lemma_reaches_compose(g3, le, lx, re, x, Seq::empty());
    assert(x + Seq::<char>::empty() =~= x);
    lemma_reaches_compose(g3, le, re, rx, x, y);
}

/// Threading a run through one branch of an alternation: the fresh entry's
/// epsilon edge in, the branch's run, and the branch exit's epsilon edge out.
#[verifier::rlimit(100)]
#[verifier::spinoff_prover]
proof fn lemma_frag_or(l: Regex, rgt: Regex, g: GraphModel, s: Seq<char>, left: bool)
    requires
        graph_wf(g),
        left ==> ({
            let (g1, le, lx) = frag(l, g);
            reaches(g1, le, lx, s)
        }),
        !left ==> ({
            let (g1, le, lx) = frag(l, g);
            let (g2, re, rx) = frag(rgt, g1);
            reaches(g2, re, rx, s)
        }),
    ensures
        ({
            let (g4, entry, exit) = frag(Regex::Or(Box::new(l), Box::new(rgt)), g);
            reaches(g4, entry, exit, s)
        }),
{
    let (g1, le, lx) = frag(l, g);
    let (g2, re, rx) = frag(rgt, g1);
    let entry: int = g2.len() as int;
    let exit: int = g2.len() as int + 1;
    let g3 = g2.push(seq![(None, le), (None, re)]).push(Seq::empty());
    let g4 = g3.update(lx, g3[lx].push((None, exit)));
    let g5 = g4.update(rx, g4[rx].push((None, exit)));
    lemma_frag_props(l, g);
    lemma_frag_props(rgt, g1);
    lemma_extend_push2(g2, seq![(None, le), (None, re)], Seq::empty());
    lemma_extend_append(g3, lx, (None, exit));
    assert(g4[rx] == g3[rx]);
    lemma_extend_append(g4, rx, (None, exit));
    assert(g5 == g4.update(rx, g4[rx].push((None, exit))));
    lemma_extend_trans(g2, g3, g4);
    lemma_extend_trans(g2, g4, g5);
    assert(g5[entry] == seq![(None::<char>, le), (None::<char>, re)]);
    if left {
        assert(extends(g1, g2));
        lemma_extend_trans(g1, g2, g5);
        lemma_reaches_extends(g1, g5, le, lx, s);
        assert(g5[entry][0] == (None::<char>, le));
        assert(g5[entry].contains((None::<char>, le)));
        lemma_reaches_step(g5, (entry, None::<char>, le));
        assert(g5[lx] == g3[lx].push((None, exit)));
        assert(g5[lx][g3[lx].len() as int] == (None::<char>, exit));
        assert(g5[lx].contains((None::<char>, exit)));
        lemma_reaches_step(g5, (lx, None::<char>, exit));
        lemma_reaches_compose(g5, entry, le, lx, Seq::empty(), s);
        assert(Seq::<char>::empty() + s =~= s);
        lemma_reaches_compose(g5, entry, lx, exit, s, Seq::empty());
        assert(s + Seq::<char>::empty() =~= s);
    } else {
        lemma_reaches_extends(g2, g5, re, rx, s);
        assert(g5[entry][1] == (None::<char>, re));
        assert(g5[entry].contains((None::<char>, re)));
        lemma_reaches_step(g5, (entry, None::<char>, re));
        assert(g5[rx] == g4[rx].push((None, exit)));
        assert(g5[rx][g4[rx].len() as int] == (None::<char>, exit));
        assert(g5[rx].contains((None::<char>, exit)));
        lemma_reaches_step(g5, (rx, None::<char>, exit));
        lemma_reaches_compose(g5, entry, re, rx, Seq::empty(), s);
        assert(Seq::<char>::empty() + s =~= s);
        lemma_reaches_compose(g5, entry, rx, exit, s, Seq::empty());
        assert(s + Seq::<char>::empty() =~= s);
    }
}

/// Entering a star fragment: the empty input takes the direct epsilon edge;
/// otherwise epsilon into the inner fragment, one inner run, and the tail.
#[verifier::rlimit(100)]
#[verifier::spinoff_prover]
proof fn lemma_frag_star_enter(inner: Regex, g: GraphModel, x: Seq<char>, y: Seq<char>, empty: bool)
    requires
        graph_wf(g),
        !empty ==> ({
            let (g1, ie, ix) = frag(inner, g);
            reaches(g1, ie, ix, x)
        }),
        !empty ==> ({
            let (g1, ie, ix) = frag(inner, g);
            let entry: int = g1.len() as int;
            let exit: int = g1.len() as int + 1;
            let g2 = g1.push(seq![(None, ie), (None, exit)]).push(Seq::empty());
            let g3 = g2.update(ix, g2[ix].push((None, ie)).push((None, exit)));
            reaches(g3, ix, exit, y)
        }),
    ensures
        ({
            let (g1, ie, ix) = frag(inner, g);
            let entry: int = g1.len() as int;
            let exit: int = g1.len() as int + 1;
            let g2 = g1.push(seq![(None, ie), (None, exit)]).push(Seq::empty());
            let g3 = g2.update(ix, g2[ix].push((None, ie)).push((None, exit)));
            empty ==> reaches(g3, entry, exit, Seq::empty())
        }),
        ({
            let (g1, ie, ix) = frag(inner, g);
            let entry: int = g1.len() as int;
            let exit: int = g1.len() as int + 1;
            let g2 = g1.push(seq![(None, ie), (None, exit)]).push(Seq::empty());
            let g3 = g2.update(ix, g2[ix].push((None, ie)).push((None, exit)));
            !empty ==> reaches(g3, entry, exit, x + y)
        }),
{
    let (g1, ie, ix) = frag(inner, g);
    let entry: int = g1.len() as int;
    let exit: int = g1.len() as int + 1;
    let g2 = g1.push(seq![(None, ie), (None, exit)]).push(Seq::empty());
    let g3 = g2.update(ix, g2[ix].push((None, ie)).push((None, exit)));
    lemma_frag_props(inner, g);
    assert(g3[entry] == g2[entry]);
    assert(g2[entry] == seq![(None::<char>, ie), (None::<char>, exit)]);
    if empty {
        assert(g3[entry][1] == (None::<char>, exit));
        assert(g3[entry].contains((None::<char>, exit)));
        lemma_reaches_step(g3, (entry, None::<char>, exit));
    } else {
        lemma_extend_push2(g1, seq![(None, ie), (None, exit)], Seq::empty());
        lemma_extend_append(g2, ix, (None, ie));
        let g2b = g2.update(ix, g2[ix].push((None, ie)));
        lemma_extend_append(g2b, ix, (None, exit));
        assert(g3 == g2b.update(ix, g2b[ix].push((None, exit))));
        lemma_extend_trans(g1, g2, g2b);
        lemma_extend_trans(g1, g2b, g3);
        lemma_reaches_extends(g1, g3, ie, ix, x);
        assert(g3[entry][0] == (None::<char>, ie));
        assert(g3[entry].contains((None::<char>, ie)));
        lemma_reaches_step(g3, (entry, None::<char>, ie));
        lemma_reaches_compose(g3, entry, ie, ix, Seq::empty(), x);
        assert(Seq::<char>::empty() + x =~= x);
        lemma_reaches_compose(g3, entry, ix, exit, x, y);
    }
}

/// Every sequence in the language of `r` is accepted by the fragment that
/// compiling `r` appends to any well-formed arena: some run from the
/// fragment's entry to its exit consumes exactly that sequence.
#[verifier::rlimit(100)]
#[verifier::spinoff_prover]
pub proof fn lemma_lang_reaches(r: Regex, g: GraphModel, s: Seq<char>)
    requires
        graph_wf(g),
        lang(r, s),
    ensures
        ({
            let (g2, e, x) = frag(r, g);
            reaches(g2, e, x, s)
        }),
    decreases r, s.len(), 0int,
{
    match r {
        Regex::Char(c) => {
            let (g2, e, x) = frag(r, g);
            assert(g2[e] == seq![(Some(c), x)]);
            assert(g2[e][0] == (Some(c), x));
            assert(g2[e].contains((Some(c), x)));
            lemma_reaches_step(g2, (e, Some(c), x));
            assert(s =~= seq![c]);
        }
        Regex::Concat(l, rgt) => {
            let (g1, le, lx) = frag(*l, g);
            lemma_frag_props(*l, g);
            let i = choose|i: int|
                0 <= i <= s.len() && lang(*l, #[trigger] s.take(i)) && lang(*rgt, s.skip(i));
            lemma_lang_reaches(*l, g, s.take(i));
            lemma_lang_reaches(*rgt, g1, s.skip(i));
            lemma_frag_concat(*l, *rgt, g, s.take(i), s.skip(i));
            assert(s.take(i) + s.skip(i) =~= s);
        }
        Regex::Or(l, rgt) => {
            let (g1, le, lx) = frag(*l, g);
            lemma_frag_props(*l, g);
            if lang(*l, s) {
                lemma_lang_reaches(*l, g, s);
                lemma_frag_or(*l, *rgt, g, s, true);
            } else {
                lemma_lang_reaches(*rgt, g1, s);
                lemma_frag_or(*l, *rgt, g, s, false);
            }
            assert(frag(r, g) == frag(Regex::Or(Box::new(*l), Box::new(*rgt)), g));
        }
        Regex::Quantified(Quantifier::Kleene, inner) => {
            reveal_with_fuel(star_lang, 2);
            assert(star_lang(*inner, s));
            if s.len() == 0 {
                lemma_frag_star_enter(*inner, g, s, s, true);
                assert(s =~= Seq::<char>::empty());
            } else {
                let i = choose|i: int|
                    1 <= i <= s.len() && lang(*inner, #[trigger] s.take(i)) && star_lang(
                        *inner,
                        s.skip(i),
                    );
                lemma_lang_reaches(*inner, g, s.take(i));
                lemma_star_reaches_tail(*inner, g, s.skip(i));
                lemma_frag_star_enter(*inner, g, s.take(i), s.skip(i), false);
                assert(s.take(i) + s.skip(i) =~= s);
            }
        }
    }
}

/// Inside a star fragment, any covering by adjacent `inner` matches can be
/// consumed starting from the inner fragment's exit: loop back for each
/// match, then step to the star's exit.
#[verifier::rlimit(100)]
#[verifier::spinoff_prover]
proof fn lemma_star_reaches_tail(inner: Regex, g: GraphModel, s: Seq<char>)
    requires
        graph_wf(g),
        star_lang(inner, s),
    ensures
        ({
            let (g1, ie, ix) = frag(inner, g);
            let entry: int = g1.len() as int;
            let exit: int = g1.len() as int + 1;
            let g2 = g1.push(seq![(None, ie), (None, exit)]).push(Seq::empty());
            let g3 = g2.update(ix, g2[ix].push((None, ie)).push((None, exit)));
            reaches(g3, ix, exit, s)
        }),
    decreases inner, s.len(), 1int,
{
    let (g1, ie, ix) = frag(inner, g);
    let entry: int = g1.len() as int;
    let exit: int = g1.len() as int + 1;
    let g2 = g1.push(seq![(None, ie), (None, exit)]).push(Seq::empty());
    let g3 = g2.update(ix, g2[ix].push((None, ie)).push((None, exit)));
    lemma_frag_props(inner, g);
    assert(g3[ix] == g2[ix].push((None, ie)).push((None, exit)));
    assert(g3[ix][g2[ix].len() as int] == (None::<char>, ie));
    assert(g3[ix][g2[ix].len() as int + 1] == (None::<char>, exit));
    assert(g3[ix].contains((None::<char>, ie)));
    assert(g3[ix].contains((None::<char>, exit)));
    if s.len() == 0 {
        lemma_reaches_step(g3, (ix, None::<char>, exit));
        assert(s =~= Seq::<char>::empty());
    } else {
        reveal_with_fuel(star_lang, 2);
        let i = choose|i: int|
            1 <= i <= s.len() && lang(inner, #[trigger] s.take(i)) && star_lang(
                inner,
                s.skip(i),
            );
        lemma_lang_reaches(inner, g, s.take(i));
        lemma_star_reaches_tail(inner, g, s.skip(i));
        lemma_extend_push2(g1, seq![(None, ie), (None, exit)], Seq::empty());
        lemma_extend_append(g2, ix, (None, ie));
        let g2b = g2.update(ix, g2[ix].push((None, ie)));
        lemma_extend_append(g2b, ix, (None, exit));
        assert(g3 == g2b.update(ix, g2b[ix].push((None, exit))));
        lemma_extend_trans(g1, g2, g2b);
        lemma_extend_trans(g1, g2b, g3);
        lemma_reaches_extends(g1, g3, ie, ix, s.take(i));
        lemma_reaches_step(g3, (ix, None::<char>, ie));
        lemma_reaches_compose(g3, ix, ie, ix, Seq::empty(), s.take(i));
        assert(Seq::<char>::empty() + s.take(i) =~= s.take(i));
        lemma_reaches_compose(g3, ix, ix, exit, s.take(i), s.skip(i));
        assert(s.take(i) + s.skip(i) =~= s);
    }
}

/// Concatenation, completeness direction: whenever `x` is in the left
/// child's language and `y` in the right child's, the automaton compiled
/// from the concatenation accepts `x` followed by `y`.
pub proof fn lemma_concat_complete(r: Regex, x: Seq<char>, y: Seq<char>)
    requires
        r is Concat,
        lang(*r->Concat_0, x),
        lang(*r->Concat_1, y),
    ensures
        ({
            let (g, e, ax) = compiled(r);
            reaches(g, e, ax, x + y)
        }),
{
    let s = x + y;
    assert(lang(r, s)) by {
        assert(s.take(x.len() as int) =~= x);
        assert(s.skip(x.len() as int) =~= y);
    }
    lemma_lang_reaches(r, Seq::empty(), s);
}

/// Alternation, completeness direction: the automaton compiled from an
/// alternation accepts everything either child's language holds.
pub proof fn lemma_or_complete(r: Regex, s: Seq<char>)
    requires
        r is Or,
        lang(*r->Or_0, s) || lang(*r->Or_1, s),
    ensures
        ({
            let (g, e, ax) = compiled(r);
            reaches(g, e, ax, s)
        }),
{
    lemma_lang_reaches(r, Seq::empty(), s);
}

/// Star, completeness direction: the automaton compiled from a starred
/// expression accepts the empty input and every concatenation of zero or
/// more sequences from the inner language.
pub proof fn lemma_star_complete(r: Regex, s: Seq<char>)
    requires
        r is Quantified,
        star_lang(*r->Quantified_1, s),
    ensures
        ({
            let (g, e, ax) = compiled(r);
            reaches(g, e, ax, s)
        }),
{
    lemma_lang_reaches(r, Seq::empty(), s);
}

/// A starred expression always accepts the empty input; with `accepts`
/// proved terminating on every automaton, the epsilon cycle the star wires
/// up can neither diverge nor change this answer.
pub proof fn lemma_star_accepts_empty(r: Regex)
    requires
        r is Quantified,
    ensures
        ({
            let (g, e, ax) = compiled(r);
            reaches(g, e, ax, Seq::empty())
        }),
{
    lemma_star_complete(r, Seq::empty());
}

/// Completeness of the whole pipeline: any automaton that satisfies
/// `compile`'s contract for `r` accepts every sequence of `r`'s language.
/// Together with the contract of `accepts`, the simulator answers `true` on
/// all of them.
pub proof fn lemma_compile_complete(nfa: NFA, r: Regex, s: Seq<char>)
    requires
        nfa.graph() == compiled(r).0,
        nfa.start as int == compiled(r).1,
        nfa.accept as int == compiled(r).2,
        lang(r, s),
    ensures
        nfa_accepts(nfa, s),
{
    lemma_lang_reaches(r, Seq::empty(), s);
}

} // verus!
