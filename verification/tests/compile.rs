use thompson::nfa::{compile, NFABuilder, NFANode};
use thompson::regex::{Quantifier, Regex};
use thompson::transition::Transition;

fn chars(s: &str) -> Vec<char> {
    s.chars().collect()
}

fn sym(c: char) -> Regex {
    Regex::Char(c)
}

fn cat(l: Regex, r: Regex) -> Regex {
    Regex::Concat(Box::new(l), Box::new(r))
}

fn alt(l: Regex, r: Regex) -> Regex {
    Regex::Or(Box::new(l), Box::new(r))
}

fn star(inner: Regex) -> Regex {
    Regex::Quantified(Quantifier::Kleene, Box::new(inner))
}

#[test]
fn symbol_accepts_only_itself() {
    let nfa = compile(sym('a'));
    assert!(nfa.accepts(&chars("a")));
    assert!(!nfa.accepts(&chars("")));
    assert!(!nfa.accepts(&chars("b")));
    assert!(!nfa.accepts(&chars("aa")));
}

#[test]
fn concat_star_symbol() {
    // a*b
    let nfa = compile(cat(star(sym('a')), sym('b')));
    assert!(nfa.accepts(&chars("b")));
    assert!(nfa.accepts(&chars("ab")));
    assert!(nfa.accepts(&chars("aaab")));
    assert!(!nfa.accepts(&chars("")));
    assert!(!nfa.accepts(&chars("a")));
    assert!(!nfa.accepts(&chars("ba")));
}

#[test]
fn or_accepts_either() {
    let nfa = compile(alt(sym('a'), sym('b')));
    assert!(nfa.accepts(&chars("a")));
    assert!(nfa.accepts(&chars("b")));
    assert!(!nfa.accepts(&chars("ab")));
    assert!(!nfa.accepts(&chars("")));
}

#[test]
fn star_accepts_repetitions() {
    let nfa = compile(star(sym('a')));
    assert!(nfa.accepts(&chars("")));
    assert!(nfa.accepts(&chars("a")));
    assert!(nfa.accepts(&chars("aaaa")));
    assert!(!nfa.accepts(&chars("b")));
    assert!(!nfa.accepts(&chars("ab")));
}

#[test]
fn star_on_epsilon_cycle_terminates() {
    // The star fragment wires an epsilon cycle; the closure must still
    // terminate and accept the empty input.
    let nfa = compile(star(sym('a')));
    assert!(nfa.accepts(&chars("")));
}

#[test]
fn concat_is_concatenation() {
    let nfa = compile(cat(sym('a'), sym('b')));
    assert!(nfa.accepts(&chars("ab")));
    assert!(!nfa.accepts(&chars("a")));
    assert!(!nfa.accepts(&chars("b")));
    assert!(!nfa.accepts(&chars("ba")));
    assert!(!nfa.accepts(&chars("")));
}

#[test]
fn star_of_concat() {
    // (ab)*
    let nfa = compile(star(cat(sym('a'), sym('b'))));
    assert!(nfa.accepts(&chars("")));
    assert!(nfa.accepts(&chars("ab")));
    assert!(nfa.accepts(&chars("ababab")));
    assert!(!nfa.accepts(&chars("aba")));
    assert!(!nfa.accepts(&chars("ba")));
}

#[test]
fn compiling_twice_is_deterministic() {
    let build = || cat(alt(sym('a'), star(sym('b'))), sym('c'));
    let n1 = compile(build());
    let n2 = compile(build());
    for input in ["", "c", "ac", "bc", "bbbbc", "abc", "a", "cc"] {
        assert_eq!(n1.accepts(&chars(input)), n2.accepts(&chars(input)));
    }
    assert_eq!(n1.start, n2.start);
    assert_eq!(n1.accept, n2.accept);
    assert_eq!(n1.node_count(), n2.node_count());
}

#[test]
fn compiled_symbol_graph_shape() {
    let nfa = compile(sym('a'));
    assert_eq!(nfa.node_count(), 2);
    assert_eq!(nfa.start, 0);
    assert_eq!(nfa.accept, 1);
    let out = nfa.transitions_of(0);
    assert_eq!(out.len(), 1);
    assert_eq!(out[0].consumes, Some('a'));
    assert_eq!(out[0].to, 1);
    // The accepting node is an exit: out-degree 0.
    assert_eq!(nfa.transitions_of(1).len(), 0);
}

#[test]
fn builder_arena_grows_in_order() {
    let mut builder = NFABuilder::new();
    let a = builder.new_node();
    let b = builder.new_node();
    assert_eq!(a, 0);
    assert_eq!(b, 1);
    builder.add_transition(a, Transition { consumes: Some('z'), to: b });
    let nfa = builder.to_nfa(sym('q'));
    // The two pre-existing nodes survive, the fragment is appended after.
    assert_eq!(nfa.node_count(), 4);
    assert_eq!(nfa.start, 2);
    assert_eq!(nfa.accept, 3);
    assert_eq!(nfa.transitions_of(0)[0].consumes, Some('z'));
}

#[test]
fn node_insert_keeps_order() {
    let mut node = NFANode::new();
    assert_eq!(node.transitions.len(), 0);
    node.insert(Transition { consumes: Some('a'), to: 3 });
    node.insert(Transition { consumes: None, to: 5 });
    assert_eq!(node.transitions.len(), 2);
    assert_eq!(node.transitions[0].consumes, Some('a'));
    assert_eq!(node.transitions[0].to, 3);
    assert_eq!(node.transitions[1].consumes, None);
    assert_eq!(node.transitions[1].to, 5);
}

#[test]
fn nested_alternation_and_star() {
    // (a|b)*a
    let nfa = compile(cat(star(alt(sym('a'), sym('b'))), sym('a')));
    assert!(nfa.accepts(&chars("a")));
    assert!(nfa.accepts(&chars("ba")));
    assert!(nfa.accepts(&chars("abba")));
    assert!(!nfa.accepts(&chars("")));
    assert!(!nfa.accepts(&chars("b")));
    assert!(!nfa.accepts(&chars("ab")));
}
