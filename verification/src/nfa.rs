use crate::regex::{Quantifier, Regex};
use crate::transition::Transition;
use vstd::prelude::*;

verus! {

/// A stable index into the arena: never reused, never invalidated by later
/// insertions.
pub type NodeHandle = usize;

/// The mathematical picture of the arena: for each node, the ordered sequence
/// of its outgoing edges as (label, target) pairs.
pub type GraphModel = Seq<Seq<(Option<char>, int)>>;

/// The model of one transition.
pub open spec fn edge_of(t: Transition) -> (Option<char>, int) {
    (t.consumes, t.to as int)
}

/// The model of one node: its outgoing edges in insertion order.
pub open spec fn node_edges(n: NFANode) -> Seq<(Option<char>, int)> {
    n.transitions@.map_values(|t: Transition| edge_of(t))
}

/// The model of a whole arena.
pub open spec fn graph_of(nodes: Seq<NFANode>) -> GraphModel {
    nodes.map_values(|n: NFANode| node_edges(n))
}

/// Every edge of the graph targets an existing node.
pub open spec fn graph_wf(g: GraphModel) -> bool {
    forall|i: int, j: int|
        0 <= i < g.len() && 0 <= j < g[i].len() ==> 0 <= (#[trigger] g[i][j]).1 < g.len()
}

/// One node of the automaton: an ordered sequence of outgoing transitions.
/// Whether a node is accepting is not stored here; it is determined solely by
/// whether the node is the designated accepting node of the whole automaton.
#[derive(Debug, Clone)]
pub struct NFANode {
    pub transitions: Vec<Transition>,
}

impl NFANode {
    /// A fresh node with no outgoing transitions.
    pub fn new() -> (n: Self)
        ensures
            n.transitions@ == Seq::<Transition>::empty(),
    {
        Self { transitions: Vec::new() }
    }

    /// Append one outgoing transition, preserving insertion order.
    pub fn insert(&mut self, trans: Transition)
        ensures
            final(self).transitions@ == old(self).transitions@.push(trans),
    {
        self.transitions.push(trans)
    }
}

/// The functional specification of the fragment compiler: lowering `r` into
/// an arena currently modeled by `g` yields the returned arena model together
/// with the fragment's entry and exit handles.
pub open spec fn frag(r: Regex, g: GraphModel) -> (GraphModel, int, int)
    decreases r,
{
    match r {
        Regex::Char(c) => {
            let entry: int = g.len() as int;
            let exit: int = g.len() as int + 1;
            (g.push(seq![(Some(c), exit)]).push(Seq::empty()), entry, exit)
        }
        Regex::Concat(l, rgt) => {
            let (g1, le, lx) = frag(*l, g);
            let (g2, re, rx) = frag(*rgt, g1);
            (g2.update(lx, g2[lx].push((None, re))), le, rx)
        }
        Regex::Or(l, rgt) => {
            let (g1, le, lx) = frag(*l, g);
            let (g2, re, rx) = frag(*rgt, g1);
            let entry: int = g2.len() as int;
            let exit: int = g2.len() as int + 1;
            let g3 = g2.push(seq![(None, le), (None, re)]).push(Seq::empty());
            let g4 = g3.update(lx, g3[lx].push((None, exit))).update(
                rx,
                g3[rx].push((None, exit)),
            );
            (g4, entry, exit)
        }
        Regex::Quantified(Quantifier::Kleene, inner) => {
            let (g1, ie, ix) = frag(*inner, g);
            let entry: int = g1.len() as int;
            let exit: int = g1.len() as int + 1;
            let g2 = g1.push(seq![(None, ie), (None, exit)]).push(Seq::empty());
            let g3 = g2.update(ix, g2[ix].push((None, ie)).push((None, exit)));
            (g3, entry, exit)
        }
    }
}

/// Structural facts about the fragment compiler, by induction over the tree:
/// the arena only grows, existing edges are kept (new edges may be appended
/// to existing nodes), entry and exit are fresh distinct handles, and the
/// exit node has out-degree 0 at the moment the fragment is returned.
pub proof fn lemma_frag_props(r: Regex, g: GraphModel)
    requires
        graph_wf(g),
    ensures
        ({
            let (g2, e, x) = frag(r, g);
            &&& g.len() + 2 <= g2.len()
            &&& graph_wf(g2)
            &&& forall|i: int| 0 <= i < g.len() ==> (#[trigger] g[i]).is_prefix_of(g2[i])
            &&& g.len() <= e < g2.len()
            &&& g.len() <= x < g2.len()
            &&& e != x
            &&& g2[x].len() == 0
        }),
    decreases r,
{
    match r {
        Regex::Char(c) => {
            let exit: int = g.len() as int + 1;
            lemma_extend_push2(g, seq![(Some(c), exit)], Seq::empty());
        }
        Regex::Concat(l, rgt) => {
            lemma_frag_props(*l, g);
            let (g1, le, lx) = frag(*l, g);
            lemma_frag_props(*rgt, g1);
            let (g2, re, rx) = frag(*rgt, g1);
            let g3 = g2.update(lx, g2[lx].push((None, re)));
            lemma_extend_trans(g, g1, g2);
            lemma_extend_append(g2, lx, (None, re));
            lemma_extend_trans(g, g2, g3);
        }
        Regex::Or(l, rgt) => {
            lemma_frag_props(*l, g);
            let (g1, le, lx) = frag(*l, g);
            lemma_frag_props(*rgt, g1);
            let (g2, re, rx) = frag(*rgt, g1);
            let exit: int = g2.len() as int + 1;
            let g3 = g2.push(seq![(None, le), (None, re)]).push(Seq::empty());
            let g4 = g3.update(lx, g3[lx].push((None, exit)));
            let g5 = g4.update(rx, g4[rx].push((None, exit)));
            lemma_extend_trans(g, g1, g2);
            lemma_extend_push2(g2, seq![(None, le), (None, re)], Seq::empty());
            lemma_extend_trans(g, g2, g3);
            lemma_extend_append(g3, lx, (None, exit));
            lemma_extend_trans(g, g3, g4);
            assert(g4[rx] == g3[rx]);
            lemma_extend_append(g4, rx, (None, exit));
            lemma_extend_trans(g, g4, g5);
            assert(frag(r, g).0 == g5);
        }
        Regex::Quantified(Quantifier::Kleene, inner) => {
            lemma_frag_props(*inner, g);
            let (g1, ie, ix) = frag(*inner, g);
            let exit: int = g1.len() as int + 1;
            let g2 = g1.push(seq![(None, ie), (None, exit)]).push(Seq::empty());
            let g3 = g2.update(ix, g2[ix].push((None, ie)).push((None, exit)));
            lemma_extend_push2(g1, seq![(None, ie), (None, exit)], Seq::empty());
            lemma_extend_trans(g, g1, g2);
            lemma_extend_append(g2, ix, (None, ie));
            let g2b = g2.update(ix, g2[ix].push((None, ie)));
            lemma_extend_append(g2b, ix, (None, exit));
            lemma_extend_trans(g, g2, g2b);
            assert(g3 == g2b.update(ix, g2b[ix].push((None, exit))));
            lemma_extend_trans(g, g2b, g3);
        }
    }
}

/// A compilation fragment: a sub-automaton with a single entry node and a
/// single exit node. The exit has no outgoing transitions of its own at the
/// moment the fragment is returned; callers may add transitions out of it as
/// they compose further. Fragments exist only during compilation.
#[derive(Debug, Clone, Copy)]
pub struct Fragment {
    pub entry: NodeHandle,
    pub exit: NodeHandle,
}

/// The growing arena that the fragment compiler allocates into.
pub struct NFABuilder {
    pub nodes: Vec<NFANode>,
}

/// A finished automaton: a start node, the unique accepting node, and the
/// arena of all nodes. Produced once by compilation, immutable thereafter.
#[derive(Debug)]
pub struct NFA {
    pub start: NodeHandle,
    pub accept: NodeHandle,
    pub nodes: Vec<NFANode>,
}

impl NFA {
    /// The mathematical graph of this automaton.
    pub open spec fn graph(self) -> GraphModel {
        graph_of(self.nodes@)
    }

    /// Validity: every transition targets an existing node, and the start and
    /// accepting handles are in range.
    pub open spec fn wf(self) -> bool {
        &&& graph_wf(self.graph())
        &&& (self.start as int) < self.graph().len()
        &&& (self.accept as int) < self.graph().len()
    }

    /// Read-only view of one node's outgoing transitions, insertion order
    /// preserved.
    pub fn transitions_of(&self, h: NodeHandle) -> (ts: &Vec<Transition>)
        requires
            (h as int) < self.graph().len(),
        ensures
            ts@ == self.nodes@[h as int].transitions@,
            ts@.map_values(|t: Transition| edge_of(t)) == self.graph()[h as int],
    {
        &self.nodes[h].transitions
    }

    /// The number of nodes in the arena.
    pub fn node_count(&self) -> (n: usize)
        ensures
            n as int == self.graph().len(),
    {
        self.nodes.len()
    }
}

impl NFABuilder {
    /// The mathematical graph of the arena built so far.
    pub open spec fn model(self) -> GraphModel {
        graph_of(self.nodes@)
    }

    /// A builder with an empty arena.
    pub fn new() -> (b: Self)
        ensures
            b.model() == Seq::<Seq<(Option<char>, int)>>::empty(),
            graph_wf(b.model()),
    {
        let b = Self { nodes: Vec::new() };
        proof {
            assert(b.model() =~= Seq::<Seq<(Option<char>, int)>>::empty());
        }
        b
    }

    /// Insert a prepared node into the arena, returning its fresh handle.
    pub fn insert_node(&mut self, node: NFANode) -> (h: NodeHandle)
        ensures
            final(self).model() == old(self).model().push(node_edges(node)),
            h as int == old(self).model().len(),
    {
        let ghost g0 = self.model();
        let ghost ne = node_edges(node);
        self.nodes.push(node);
        proof {
            assert(self.model() =~= g0.push(ne));
        }
        self.nodes.len() - 1
    }

    /// Allocate a fresh node with no transitions, returning its handle.
    pub fn new_node(&mut self) -> (h: NodeHandle)
        ensures
            final(self).model() == old(self).model().push(
                Seq::<(Option<char>, int)>::empty(),
            ),
            h as int == old(self).model().len(),
    {
        let n = NFANode::new();
        proof {
            assert(node_edges(n) =~= Seq::<(Option<char>, int)>::empty());
        }
        self.insert_node(n)
    }

    /// Append one transition to the node `from`.
    pub fn add_transition(&mut self, from: NodeHandle, trans: Transition)
        requires
            (from as int) < old(self).model().len(),
        ensures
            final(self).model() == old(self).model().update(
                from as int,
                old(self).model()[from as int].push(edge_of(trans)),
            ),
    {
        let ghost g0 = self.model();
        let node = &mut self.nodes[from];
        node.insert(trans);
        proof {
            assert(node_edges(self.nodes@[from as int]) =~= g0[from as int].push(
                edge_of(trans),
            ));
            assert(self.model() =~= g0.update(
                from as int,
                g0[from as int].push(edge_of(trans)),
            ));
        }
    }

    /// Recursively lower `regex` into a fragment, allocating nodes into the
    /// shared arena and wiring transitions per Thompson's rules. The returned
    /// exit node has out-degree 0 at this moment; the caller composes further
    /// by adding transitions out of it.
    pub fn to_nfa_internal(&mut self, regex: Regex) -> (f: Fragment)
        requires
            graph_wf(old(self).model()),
        ensures
            ({
                let (g2, e, x) = frag(regex, old(self).model());
                &&& final(self).model() == g2
                &&& f.entry as int == e
                &&& f.exit as int == x
            }),
        decreases regex,
    {
        let ghost g0 = self.model();
        let ghost r0 = regex;
        match regex {
            Regex::Char(c) => {
                let entry = self.new_node();
                let exit = self.new_node();
                self.add_transition(entry, Transition { consumes: Some(c), to: exit });
                proof {
                    assert(self.model() =~~= frag(r0, g0).0);
                }
                Fragment { entry, exit }
            }
            Regex::Concat(l, rgt) => {
                proof {
                    lemma_frag_props(*l, g0);
                }
                let lf = self.to_nfa_internal(*l);
                let ghost g1 = self.model();
                proof {
                    lemma_frag_props(*rgt, g1);
                }
                let rf = self.to_nfa_internal(*rgt);
                self.add_transition(lf.exit, Transition { consumes: None, to: rf.entry });
                Fragment { entry: lf.entry, exit: rf.exit }
            }
            Regex::Or(l, rgt) => {
                proof {
                    lemma_frag_props(*l, g0);
                }
                let lf = self.to_nfa_internal(*l);
                let ghost g1 = self.model();
                proof {
                    lemma_frag_props(*rgt, g1);
                }
                let rf = self.to_nfa_internal(*rgt);
                let ghost g2 = self.model();
                let entry = self.new_node();
                let exit = self.new_node();
                self.add_transition(entry, Transition { consumes: None, to: lf.entry });
                self.add_transition(entry, Transition { consumes: None, to: rf.entry });
                self.add_transition(lf.exit, Transition { consumes: None, to: exit });
                self.add_transition(rf.exit, Transition { consumes: None, to: exit });
                proof {
                    assert(lf.exit as int != rf.exit as int);
assert(self.model() =~~= frag(r0, g0).0);
                }
                Fragment { entry, exit }
            }
            Regex::Quantified(Quantifier::Kleene, inner) => {
                proof {
                    lemma_frag_props(*inner, g0);
                }
                let innerf = self.to_nfa_internal(*inner);
                let ghost g1 = self.model();
                let entry = self.new_node();
                let exit = self.new_node();
                self.add_transition(entry, Transition { consumes: None, to: innerf.entry });
                self.add_transition(entry, Transition { consumes: None, to: exit });
                self.add_transition(innerf.exit, Transition { consumes: None, to: innerf.entry });
                self.add_transition(innerf.exit, Transition { consumes: None, to: exit });
                proof {
assert(self.model() =~~= frag(r0, g0).0);
                }
                Fragment { entry, exit }
            }
        }
    }

    /// Compile the whole AST: lower it to one fragment, then mark the
    /// fragment's exit as the unique accepting node — exactly once, at the
    /// top level, after construction completes.
    pub fn to_nfa(self, regex: Regex) -> (nfa: NFA)
        requires
            graph_wf(self.model()),
        ensures
            ({
                let (g2, e, x) = frag(regex, self.model());
                &&& nfa.graph() == g2
                &&& nfa.start as int == e
                &&& nfa.accept as int == x
                &&& nfa.wf()
            }),
    {
        let mut b = self;
        proof {
            lemma_frag_props(regex, b.model());
        }
        let f = b.to_nfa_internal(regex);
        NFA { start: f.entry, accept: f.exit, nodes: b.nodes }
    }
}

/// The model of the automaton that compiling `r` into a fresh arena yields:
/// (graph, start handle, accepting handle).
pub open spec fn compiled(r: Regex) -> (GraphModel, int, int) {
    frag(r, Seq::<Seq<(Option<char>, int)>>::empty())
}

/// Compile a regular-expression AST into a finished automaton. Compilation
/// always succeeds: the AST is well-formed by construction, so there is no
/// error case at this layer.
pub fn compile(regex: Regex) -> (nfa: NFA)
    ensures
        ({
            let (g2, e, x) = compiled(regex);
            &&& nfa.graph() == g2
            &&& nfa.start as int == e
            &&& nfa.accept as int == x
            &&& nfa.wf()
        }),
{
    NFABuilder::new().to_nfa(regex)
}

/// `g2` extends `g`: no node or edge of `g` is lost, though a node of `g` may
/// have gained edges and new nodes may have appeared.
pub open spec fn extends(g: GraphModel, g2: GraphModel) -> bool {
    &&& g.len() <= g2.len()
    &&& forall|i: int| 0 <= i < g.len() ==> (#[trigger] g[i]).is_prefix_of(g2[i])
}

pub proof fn lemma_extend_trans(g: GraphModel, g2: GraphModel, g3: GraphModel)
    requires
        extends(g, g2),
        extends(g2, g3),
    ensures
        extends(g, g3),
{
    assert forall|i: int| 0 <= i < g.len() implies (#[trigger] g[i]).is_prefix_of(g3[i]) by {
        assert(g[i].is_prefix_of(g2[i]));
        assert(g2[i].is_prefix_of(g3[i]));
        assert(g[i] =~= g3[i].subrange(0, g[i].len() as int));
    }
}

/// Appending an edge to one node extends the graph.
pub proof fn lemma_extend_append(g: GraphModel, n: int, e: (Option<char>, int))
    requires
        0 <= n < g.len(),
    ensures
        extends(g, g.update(n, g[n].push(e))),
{
    let g2 = g.update(n, g[n].push(e));
    assert forall|i: int| 0 <= i < g.len() implies (#[trigger] g[i]).is_prefix_of(g2[i]) by {
        assert(g[i] =~= g2[i].subrange(0, g[i].len() as int));
    }
}

/// Appending two fresh nodes extends the graph.
pub proof fn lemma_extend_push2(
    g: GraphModel,
    a: Seq<(Option<char>, int)>,
    b: Seq<(Option<char>, int)>,
)
    ensures
        extends(g, g.push(a).push(b)),
{
    let g2 = g.push(a).push(b);
    assert forall|i: int| 0 <= i < g.len() implies (#[trigger] g[i]).is_prefix_of(g2[i]) by {
        assert(g[i] =~= g2[i].subrange(0, g[i].len() as int));
    }
}

} // verus!
