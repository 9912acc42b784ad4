use crate::nfa::{graph_wf, GraphModel, NFA};
use vstd::prelude::*;

verus! {

/// One step of a run: the source node, the label consumed (`None` is
/// epsilon), and the target node.
pub type Step = (int, Option<char>, int);

/// The step uses an edge that exists in the graph.
pub open spec fn step_ok(g: GraphModel, st: Step) -> bool {
    &&& 0 <= st.0 < g.len()
    &&& g[st.0].contains((st.1, st.2))
}

/// `steps` is a chained sequence of existing edges leading from `a` to `b`.
pub open spec fn is_run(g: GraphModel, a: int, b: int, steps: Seq<Step>) -> bool {
    &&& if steps.len() == 0 {
        a == b
    } else {
        steps[0].0 == a && steps[steps.len() - 1].2 == b
    }
    &&& forall|i: int| 0 <= i < steps.len() ==> step_ok(g, #[trigger] steps[i])
    &&& forall|i: int| 0 < i < steps.len() ==> (#[trigger] steps[i]).0 == steps[i - 1].2
}

/// The input consumed along a run: its non-epsilon labels, in order.
pub open spec fn consumed(steps: Seq<Step>) -> Seq<char>
    decreases steps.len(),
{
    if steps.len() == 0 {
        Seq::empty()
    } else {
        let rest = consumed(steps.drop_last());
        match steps.last().1 {
            Some(c) => rest.push(c),
            None => rest,
        }
    }
}

/// Node `b` is reachable from node `a` by a run consuming exactly `s`.
pub open spec fn reaches(g: GraphModel, a: int, b: int, s: Seq<char>) -> bool {
    exists|steps: Seq<Step>| is_run(g, a, b, steps) && consumed(steps) == s
}

/// Node `b` is reachable from node `a` by epsilon transitions alone.
pub open spec fn eps_reaches(g: GraphModel, a: int, b: int) -> bool {
    reaches(g, a, b, Seq::empty())
}

/// The automaton accepts `s` when some run from the start node to the
/// accepting node consumes exactly `s`.
pub open spec fn nfa_accepts(nfa: NFA, s: Seq<char>) -> bool {
    reaches(nfa.graph(), nfa.start as int, nfa.accept as int, s)
}

/// The empty run: every node reaches itself consuming nothing.
pub proof fn lemma_reaches_self(g: GraphModel, a: int)
    ensures
        reaches(g, a, a, Seq::empty()),
        eps_reaches(g, a, a),
{
    let steps = Seq::<Step>::empty();
    assert(is_run(g, a, a, steps));
    assert(consumed(steps) == Seq::<char>::empty());
}

/// A single existing edge is a run consuming its label.
pub proof fn lemma_reaches_step(g: GraphModel, st: Step)
    requires
        step_ok(g, st),
    ensures
        st.1 is Some ==> reaches(g, st.0, st.2, seq![st.1->Some_0]),
        st.1 is None ==> eps_reaches(g, st.0, st.2),
{
    reveal_with_fuel(consumed, 2);
    let steps = seq![st];
    assert(is_run(g, st.0, st.2, steps));
    assert(steps.drop_last() =~= Seq::<Step>::empty());
    assert(steps.last() == st);
    match st.1 {
        Some(c) => {
            assert(consumed(steps) =~= seq![c]);
        }
        None => {
            assert(consumed(steps) =~= Seq::<char>::empty());
        }
    }
}

/// Consumption distributes over concatenation of step sequences.
pub proof fn lemma_consumed_concat(s1: Seq<Step>, s2: Seq<Step>)
    ensures
        consumed(s1 + s2) == consumed(s1) + consumed(s2),
    decreases s2.len(),
{
    if s2.len() == 0 {
        assert(s1 + s2 =~= s1);
        assert(consumed(s1) + consumed(s2) =~= consumed(s1));
    } else {
        lemma_consumed_concat(s1, s2.drop_last());
        assert((s1 + s2).drop_last() =~= s1 + s2.drop_last());
        assert((s1 + s2).last() == s2.last());
        match s2.last().1 {
            Some(c) => {
                assert(consumed(s1) + consumed(s2) =~= (consumed(s1) + consumed(
                    s2.drop_last(),
                )).push(c));
            }
            None => {}
        }
    }
}

/// Two runs that meet at `b` compose into one run.
pub proof fn lemma_run_concat(g: GraphModel, a: int, b: int, c: int, s1: Seq<Step>, s2: Seq<Step>)
    requires
        is_run(g, a, b, s1),
        is_run(g, b, c, s2),
    ensures
        is_run(g, a, c, s1 + s2),
        consumed(s1 + s2) == consumed(s1) + consumed(s2),
{
    lemma_consumed_concat(s1, s2);
    if s1.len() == 0 {
        assert(s1 + s2 =~= s2);
    } else if s2.len() == 0 {
        assert(s1 + s2 =~= s1);
    } else {
        let s = s1 + s2;
        assert forall|i: int| 0 < i < s.len() implies (#[trigger] s[i]).0 == s[i - 1].2 by {
            if i < s1.len() {
                assert(s[i] == s1[i] && s[i - 1] == s1[i - 1]);
            } else if i == s1.len() {
                assert(s[i] == s2[0] && s[i - 1] == s1[s1.len() - 1]);
            } else {
                assert(s[i] == s2[i - s1.len()] && s[i - 1] == s2[i - s1.len() - 1]);
            }
        }
    }
}

/// Reachability composes: a run to `b`, one edge, and an epsilon tail.
pub proof fn lemma_reaches_compose(g: GraphModel, a: int, b: int, c: int, s: Seq<char>, t: Seq<char>)
    requires
        reaches(g, a, b, s),
        reaches(g, b, c, t),
    ensures
        reaches(g, a, c, s + t),
{
    let s1 = choose|s1: Seq<Step>| is_run(g, a, b, s1) && consumed(s1) == s;
    let s2 = choose|s2: Seq<Step>| is_run(g, b, c, s2) && consumed(s2) == t;
    lemma_run_concat(g, a, b, c, s1, s2);
}

/// Removing the last step of a run leaves a run to that step's source.
pub proof fn lemma_run_drop_last(g: GraphModel, a: int, b: int, steps: Seq<Step>)
    requires
        is_run(g, a, b, steps),
        steps.len() > 0,
    ensures
        is_run(g, a, steps.last().0, steps.drop_last()),
        steps.last().2 == b,
{
    let prefix = steps.drop_last();
    if prefix.len() > 0 {
        assert(prefix[0] == steps[0]);
        assert(prefix[prefix.len() - 1] == steps[steps.len() - 2]);
    }
}

/// Every epsilon successor of a marked node is marked.
pub open spec fn eps_closed(g: GraphModel, vs: Seq<bool>) -> bool {
    forall|m: int, j: int|
        0 <= m < g.len() && 0 <= j < g[m].len() && vs[m] && (#[trigger] g[m][j]).0 is None
            ==> vs[g[m][j].1]
}

/// A run that consumes nothing travels on epsilon edges only, so a set that
/// is closed under epsilon edges and holds the run's source also holds its
/// target.
pub proof fn lemma_eps_run_closed(
    g: GraphModel,
    vs: Seq<bool>,
    a: int,
    b: int,
    steps: Seq<Step>,
)
    requires
        graph_wf(g),
        vs.len() == g.len(),
        eps_closed(g, vs),
        is_run(g, a, b, steps),
        consumed(steps) == Seq::<char>::empty(),
        0 <= a < g.len(),
        vs[a],
    ensures
        0 <= b < g.len(),
        vs[b],
    decreases steps.len(),
{
    if steps.len() > 0 {
        let last = steps.last();
        lemma_run_drop_last(g, a, b, steps);
        assert(last.1 is None) by {
            if last.1 is Some {
                assert(consumed(steps) == consumed(steps.drop_last()).push(last.1->Some_0));
                assert(consumed(steps).len() > 0);
            }
        }
        lemma_eps_run_closed(g, vs, a, last.0, steps.drop_last());
        let j = choose|j: int| 0 <= j < g[last.0].len() && g[last.0][j] == (last.1, last.2);
        assert(vs[g[last.0][j].1]);
    }
}

/// Witnesses of the last symbol a run consumed: `p` was reached from `a`
/// consuming `s`, one edge labeled `c` leads from `p` to `q`, and epsilon
/// transitions lead on from `q` to `b`.
pub open spec fn last_symbol_split(
    g: GraphModel,
    a: int,
    b: int,
    s: Seq<char>,
    c: char,
    p: int,
    q: int,
) -> bool {
    &&& reaches(g, a, p, s)
    &&& 0 <= p < g.len()
    &&& g[p].contains((Some(c), q))
    &&& eps_reaches(g, q, b)
}

/// Composing such witnesses back yields a run consuming `s.push(c)`.
pub proof fn lemma_last_symbol_reaches(
    g: GraphModel,
    a: int,
    b: int,
    s: Seq<char>,
    c: char,
    p: int,
    q: int,
)
    requires
        last_symbol_split(g, a, b, s, c, p, q),
    ensures
        reaches(g, a, b, s.push(c)),
{
    lemma_reaches_step(g, (p, Some(c), q));
    lemma_reaches_compose(g, a, p, q, s, seq![c]);
    lemma_reaches_compose(g, a, q, b, s + seq![c], Seq::empty());
    assert((s + seq![c]) + Seq::<char>::empty() =~= s.push(c));
}

/// Any run consuming `s.push(c)` splits at the last symbol it consumed.
pub proof fn lemma_run_last_symbol(
    g: GraphModel,
    a: int,
    b: int,
    steps: Seq<Step>,
    s: Seq<char>,
    c: char,
)
    requires
        is_run(g, a, b, steps),
        consumed(steps) == s.push(c),
    ensures
        exists|p: int, q: int| last_symbol_split(g, a, b, s, c, p, q),
    decreases steps.len(),
{
    if steps.len() == 0 {
        assert(consumed(steps) == Seq::<char>::empty());
        assert(s.push(c).len() == s.len() + 1);
    }
    let last = steps.last();
    let prefix = steps.drop_last();
    lemma_run_drop_last(g, a, b, steps);
    match last.1 {
        Some(c2) => {
            let cp = consumed(prefix);
            assert(cp.push(c2) == s.push(c));
            assert(cp.len() == s.len()) by {
                assert(cp.push(c2).len() == s.push(c).len());
            }
            assert(c2 == c) by {
                assert(cp.push(c2)[cp.len() as int] == c2);
                assert(s.push(c)[s.len() as int] == c);
            }
            assert forall|i: int| 0 <= i < s.len() implies cp[i] == s[i] by {
                assert(cp.push(c2)[i] == cp[i]);
                assert(s.push(c)[i] == s[i]);
            }
            assert(cp =~= s);
            lemma_reaches_self(g, b);
            assert(last_symbol_split(g, a, b, s, c, last.0, last.2));
        }
        None => {
            assert(consumed(prefix) == s.push(c));
            lemma_run_last_symbol(g, a, last.0, prefix, s, c);
            let (p, q) = choose|p: int, q: int| last_symbol_split(g, a, last.0, s, c, p, q);
            lemma_reaches_step(g, last);
            lemma_reaches_compose(g, q, last.0, b, Seq::empty(), Seq::empty());
            assert(Seq::<char>::empty() + Seq::<char>::empty() =~= Seq::<char>::empty());
            assert(last_symbol_split(g, a, b, s, c, p, q));
        }
    }
}

/// One epsilon edge extends an epsilon-only reachability.
pub proof fn lemma_eps_extend(g: GraphModel, a: int, m: int, t2: int)
    requires
        eps_reaches(g, a, m),
        0 <= m < g.len(),
        g[m].contains((None, t2)),
    ensures
        eps_reaches(g, a, t2),
{
    lemma_reaches_step(g, (m, None::<char>, t2));
    lemma_reaches_compose(g, a, m, t2, Seq::empty(), Seq::empty());
    assert(Seq::<char>::empty() + Seq::<char>::empty() =~= Seq::<char>::empty());
}

/// The number of marked entries; the termination measure of the closure
/// traversal decreases as nodes get marked.
spec fn count_true(s: Seq<bool>) -> nat
    decreases s.len(),
{
    if s.len() == 0 {
        0
    } else {
        count_true(s.drop_last()) + if s.last() {
            1nat
        } else {
            0nat
        }
    }
}

proof fn lemma_count_true_le(s: Seq<bool>)
    ensures
        count_true(s) <= s.len(),
    decreases s.len(),
{
    if s.len() > 0 {
        lemma_count_true_le(s.drop_last());
    }
}

proof fn lemma_count_true_update(s: Seq<bool>, i: int)
    requires
        0 <= i < s.len(),
        !s[i],
    ensures
        count_true(s.update(i, true)) == count_true(s) + 1,
    decreases s.len(),
{
    let s2 = s.update(i, true);
    if i == s.len() - 1 {
        assert(s2.drop_last() =~= s.drop_last());
        assert(s2.last());
    } else {
        lemma_count_true_update(s.drop_last(), i);
        assert(s2.drop_last() =~= s.drop_last().update(i, true));
        assert(s2.last() == s.last());
    }
}

/// A vector of `n` unmarked entries.
#[verifier::loop_isolation(false)]
fn falses(n: usize) -> (v: Vec<bool>)
    ensures
        v@.len() == n,
        forall|i: int| 0 <= i < n ==> !v@[i],
{
    let mut v: Vec<bool> = Vec::new();
    while v.len() < n
        invariant
            v@.len() <= n,
            forall|i: int| 0 <= i < v@.len() ==> !v@[i],
        decreases n - v@.len(),
    {
        v.push(false);
    }
    v
}

/// Mark, and enqueue on the worklist, every direct epsilon successor of
/// node `m`. Newly marked nodes are epsilon-reachable from `m` and end up on
/// the worklist; the termination measure of the caller never grows.
#[verifier::loop_isolation(false)]
#[verifier::rlimit(80)]
fn visit_eps_successors(nfa: &NFA, visited: &mut Vec<bool>, stack: &mut Vec<usize>, m: usize)
    requires
        nfa.wf(),
        (m as int) < nfa.graph().len(),
        old(visited)@.len() == nfa.graph().len(),
        forall|k: int|
            0 <= k < old(stack)@.len() ==> (#[trigger] old(stack)@[k]) < nfa.graph().len()
                && old(visited)@[old(stack)@[k] as int],
    ensures
        final(visited)@.len() == old(visited)@.len(),
        old(stack)@.is_prefix_of(final(stack)@),
        forall|mm: int|
            0 <= mm < old(visited)@.len() && old(visited)@[mm] ==> final(visited)@[mm],
        forall|k: int|
            0 <= k < final(stack)@.len() ==> (#[trigger] final(stack)@[k]) < nfa.graph().len()
                && final(visited)@[final(stack)@[k] as int],
        forall|mm: int|
            0 <= mm < final(visited)@.len() && final(visited)@[mm] && !old(visited)@[mm]
                ==> eps_reaches(nfa.graph(), m as int, mm) && final(stack)@.contains(
                    mm as usize,
                ),
        forall|jj: int|
            0 <= jj < nfa.graph()[m as int].len() && (#[trigger] nfa.graph()[m as int][
                jj
            ]).0 is None ==> final(visited)@[nfa.graph()[m as int][jj].1],
        2 * (old(visited)@.len() - count_true(final(visited)@)) + final(stack)@.len() <= 2 * (
        old(visited)@.len() - count_true(old(visited)@)) + old(stack)@.len(),
{
    let ghost g = nfa.graph();
    let ghost v0 = old(visited)@;
    let ghost s0 = old(stack)@;
    let ghost n = g.len();
    proof {
        assert(g.len() == nfa.nodes@.len());
        assert(s0.is_prefix_of(stack@));
    }
    let mut j: usize = 0;
    let trans_len = nfa.nodes[m].transitions.len();
    while j < trans_len
        invariant
            trans_len as int == g[m as int].len(),
            j <= trans_len,
            visited@.len() == n,
            s0.is_prefix_of(stack@),
            forall|mm: int| 0 <= mm < n && v0[mm] ==> visited@[mm],
            forall|k: int|
                0 <= k < stack@.len() ==> (#[trigger] stack@[k]) < n && visited@[stack@[
                    k
                ] as int],
            forall|mm: int|
                0 <= mm < n && visited@[mm] && !v0[mm] ==> eps_reaches(g, m as int, mm)
                    && stack@.contains(mm as usize),
            forall|jj: int|
                0 <= jj < j && (#[trigger] g[m as int][jj]).0 is None ==> visited@[g[
                    m as int
                ][jj].1],
            2 * (n - count_true(visited@)) + stack@.len() <= 2 * (n - count_true(v0))
                + s0.len(),
        decreases trans_len - j,
    {
        let t = nfa.nodes[m].transitions[j];
        proof {
            assert(g[m as int] == crate::nfa::node_edges(nfa.nodes@[m as int]));
            assert(g[m as int][j as int] == crate::nfa::edge_of(t));
        }
        match t.consumes {
            Some(_) => {}
            None => {
                proof {
                    assert(g[m as int][j as int] == (None::<char>, t.to as int));
                    assert(g[m as int].contains((None::<char>, t.to as int)));
                    assert(0 <= g[m as int][j as int].1 < n);
                }
                if !visited[t.to] {
                    let ghost v_before = visited@;
                    let ghost s_before = stack@;
                    proof {
                        lemma_count_true_update(visited@, t.to as int);
                        lemma_reaches_step(g, (m as int, None::<char>, t.to as int));
                    }
                    let slot = &mut visited[t.to];
                    *slot = true;
                    stack.push(t.to);
                    proof {
                        assert(s0 =~= stack@.subrange(0, s0.len() as int));
                        assert forall|mm: int|
                            0 <= mm < n && visited@[mm] && !v0[mm] implies eps_reaches(
                            g,
                            m as int,
                            mm,
                        ) && stack@.contains(mm as usize) by {
                            if mm == t.to as int {
                                assert(stack@[stack@.len() - 1] == t.to);
                            } else {
                                assert(v_before[mm] && !v0[mm]);
                                let k = choose|k: int|
                                    0 <= k < s_before.len() && s_before[k] == mm as usize;
                                assert(stack@[k] == mm as usize);
                            }
                        }
                    }
                }
            }
        }
        j += 1;
    }
}

/// After the worklist visits one popped node, the traversal invariants hold
/// again: everything marked is epsilon-reachable from the initially marked
/// nodes, and every marked node off the worklist has its epsilon successors
/// marked.
proof fn lemma_worklist_restore(
    g: GraphModel,
    init0: Seq<bool>,
    stack0: Seq<usize>,
    s_pop: Seq<usize>,
    v_pop: Seq<bool>,
    s_new: Seq<usize>,
    v_new: Seq<bool>,
    m: usize,
)
    requires
        graph_wf(g),
        v_pop.len() == g.len(),
        v_new.len() == g.len(),
        init0.len() == g.len(),
        g.len() <= usize::MAX,
        (m as int) < g.len(),
        stack0.len() > 0,
        stack0.last() == m,
        s_pop == stack0.drop_last(),
        v_pop[m as int],
        forall|mm: int|
            0 <= mm < g.len() && #[trigger] v_pop[mm] ==> exists|a: int|
                0 <= a < g.len() && init0[a] && eps_reaches(g, a, mm),
        forall|mm: int, jj: int|
            0 <= mm < g.len() && v_pop[mm] && !stack0.contains(mm as usize) && 0 <= jj < g[
                mm
            ].len() && (#[trigger] g[mm][jj]).0 is None ==> v_pop[g[mm][jj].1],
        s_pop.is_prefix_of(s_new),
        forall|mm: int| 0 <= mm < g.len() && v_pop[mm] ==> v_new[mm],
        forall|mm: int|
            0 <= mm < g.len() && v_new[mm] && !v_pop[mm] ==> eps_reaches(g, m as int, mm)
                && s_new.contains(mm as usize),
        forall|jj: int|
            0 <= jj < g[m as int].len() && (#[trigger] g[m as int][jj]).0 is None ==> v_new[g[
                m as int
            ][jj].1],
    ensures
        forall|mm: int|
            0 <= mm < g.len() && #[trigger] v_new[mm] ==> exists|a: int|
                0 <= a < g.len() && init0[a] && eps_reaches(g, a, mm),
        forall|mm: int, jj: int|
            0 <= mm < g.len() && v_new[mm] && !s_new.contains(mm as usize) && 0 <= jj < g[
                mm
            ].len() && (#[trigger] g[mm][jj]).0 is None ==> v_new[g[mm][jj].1],
{
    let a0 = choose|a: int| 0 <= a < g.len() && init0[a] && eps_reaches(g, a, m as int);
    assert forall|mm: int| 0 <= mm < g.len() && #[trigger] v_new[mm] implies exists|a: int|
        0 <= a < g.len() && init0[a] && eps_reaches(g, a, mm) by {
        if !v_pop[mm] {
            lemma_reaches_compose(g, a0, m as int, mm, Seq::empty(), Seq::empty());
            assert(Seq::<char>::empty() + Seq::<char>::empty() =~= Seq::<char>::empty());
            assert(eps_reaches(g, a0, mm));
        }
    }
    assert forall|mm: int, jj: int|
        0 <= mm < g.len() && v_new[mm] && !s_new.contains(mm as usize) && 0 <= jj < g[
            mm
        ].len() && (#[trigger] g[mm][jj]).0 is None implies v_new[g[mm][jj].1] by {
        assert(mm as usize as int == mm);
        if mm != m as int {
            if v_pop[mm] {
                if s_pop.contains(mm as usize) {
                    let k = choose|k: int| 0 <= k < s_pop.len() && s_pop[k] == mm as usize;
                    assert(s_pop =~= s_new.subrange(0, s_pop.len() as int));
                    assert(s_new[k] == mm as usize);
                    assert(false);
                } else {
                    assert(!stack0.contains(mm as usize)) by {
                        if stack0.contains(mm as usize) {
                            let k = choose|k: int|
                                0 <= k < stack0.len() && stack0[k] == mm as usize;
                            if k == stack0.len() - 1 {
                                assert(stack0[k] == m);
                            } else {
                                assert(s_pop[k] == stack0[k]);
                                assert(s_pop.contains(mm as usize));
                            }
                        }
                    }
                    assert(0 <= g[mm][jj].1 < g.len());
                    assert(v_pop[g[mm][jj].1]);
                }
            } else {
                assert(s_new.contains(mm as usize));
                assert(false);
            }
        }
    }
}

/// Once the worklist is empty the marked set is closed under epsilon edges,
/// so it is exactly the epsilon-closure of the initially marked nodes.
proof fn lemma_closure_post(g: GraphModel, init0: Seq<bool>, vs: Seq<bool>)
    requires
        graph_wf(g),
        vs.len() == g.len(),
        init0.len() == g.len(),
        forall|mm: int|
            0 <= mm < g.len() && #[trigger] vs[mm] ==> exists|a: int|
                0 <= a < g.len() && init0[a] && eps_reaches(g, a, mm),
        forall|a: int| 0 <= a < g.len() && init0[a] ==> #[trigger] vs[a],
        forall|mm: int, jj: int|
            0 <= mm < g.len() && vs[mm] && 0 <= jj < g[mm].len() && (#[trigger] g[mm][
                jj
            ]).0 is None ==> vs[g[mm][jj].1],
    ensures
        forall|m: int|
            0 <= m < g.len() ==> (#[trigger] vs[m] <==> exists|a: int|
                0 <= a < g.len() && init0[a] && eps_reaches(g, a, m)),
{
    assert(eps_closed(g, vs));
    assert forall|m: int| 0 <= m < g.len() implies (#[trigger] vs[m] <==> exists|a: int|
        0 <= a < g.len() && init0[a] && eps_reaches(g, a, m)) by {
        if exists|a: int| 0 <= a < g.len() && init0[a] && eps_reaches(g, a, m) {
            let a = choose|a: int| 0 <= a < g.len() && init0[a] && eps_reaches(g, a, m);
            let steps = choose|steps: Seq<Step>|
                is_run(g, a, m, steps) && consumed(steps) == Seq::<char>::empty();
            lemma_eps_run_closed(g, vs, a, m, steps);
        }
    }
}

/// Collect every marked node onto the initial worklist.
#[verifier::loop_isolation(false)]
fn seed_stack(visited: &Vec<bool>) -> (stack: Vec<usize>)
    ensures
        forall|k: int|
            0 <= k < stack@.len() ==> (#[trigger] stack@[k]) < visited@.len() && visited@[
                stack@[k] as int
            ],
        forall|m: int| 0 <= m < visited@.len() && visited@[m] ==> stack@.contains(m as usize),
{
    let n = visited.len();
    let mut stack: Vec<usize> = Vec::new();
    let mut i: usize = 0;
    while i < n
        invariant
            i <= n,
            forall|k: int|
                0 <= k < stack@.len() ==> (#[trigger] stack@[k]) < n && visited@[stack@[
                    k
                ] as int],
            forall|m: int| 0 <= m < i && visited@[m] ==> stack@.contains(m as usize),
        decreases n - i,
    {
        let ghost stack_old = stack@;
        if visited[i] {
            stack.push(i);
        }
        proof {
            assert forall|m: int| 0 <= m < i + 1 && visited@[m] implies stack@.contains(
                m as usize,
            ) by {
                if m < i {
                    let k = choose|k: int|
                        0 <= k < stack_old.len() && stack_old[k] == m as usize;
                    assert(stack@[k] == m as usize);
                } else {
                    assert(stack@[stack@.len() - 1] == i);
                }
            }
        }
        i += 1;
    }
    stack
}

/// The fixed point of the worklist traversal: pop a node, mark and enqueue
/// its epsilon successors, until the worklist empties.
#[verifier::loop_isolation(false)]
#[verifier::rlimit(100)]
fn closure_loop(
    nfa: &NFA,
    visited: Vec<bool>,
    stack: Vec<usize>,
    Ghost(init0): Ghost<Seq<bool>>,
) -> (out: Vec<bool>)
    requires
        nfa.wf(),
        visited@.len() == nfa.graph().len(),
        init0.len() == nfa.graph().len(),
        forall|k: int|
            0 <= k < stack@.len() ==> (#[trigger] stack@[k]) < nfa.graph().len() && visited@[
                stack@[k] as int
            ],
        forall|m: int|
            0 <= m < nfa.graph().len() && #[trigger] visited@[m] ==> exists|a: int|
                0 <= a < nfa.graph().len() && init0[a] && eps_reaches(nfa.graph(), a, m),
        forall|a: int| 0 <= a < nfa.graph().len() && init0[a] ==> #[trigger] visited@[a],
        forall|m: int, j: int|
            0 <= m < nfa.graph().len() && visited@[m] && !stack@.contains(m as usize) && 0 <= j
                < nfa.graph()[m].len() && (#[trigger] nfa.graph()[m][j]).0 is None
                ==> visited@[nfa.graph()[m][j].1],
    ensures
        out@.len() == nfa.graph().len(),
        forall|m: int|
            0 <= m < out@.len() ==> (#[trigger] out@[m] <==> exists|a: int|
                0 <= a < init0.len() && init0[a] && eps_reaches(nfa.graph(), a, m)),
{
    let ghost g = nfa.graph();
    let ghost n = g.len();
    let mut visited = visited;
    let mut stack = stack;
    let num_nodes = nfa.nodes.len();
    proof {
        assert(g.len() == nfa.nodes@.len());
        assert(n == num_nodes as int);
    }
    while stack.len() > 0
        invariant
            visited@.len() == n,
            forall|k: int|
                0 <= k < stack@.len() ==> (#[trigger] stack@[k]) < n && visited@[stack@[
                    k
                ] as int],
            forall|m: int|
                0 <= m < n && #[trigger] visited@[m] ==> exists|a: int|
                    0 <= a < n && init0[a] && eps_reaches(g, a, m),
            forall|a: int| 0 <= a < n && init0[a] ==> #[trigger] visited@[a],
            forall|m: int, j: int|
                0 <= m < n && visited@[m] && !stack@.contains(m as usize) && 0 <= j < g[m].len()
                    && (#[trigger] g[m][j]).0 is None ==> visited@[g[m][j].1],
        decreases 2 * (n - count_true(visited@)) + stack@.len(),
    {
        proof {
            lemma_count_true_le(visited@);
        }
        let ghost stack0 = stack@;
        let m: usize = match stack.pop() {
            Some(v) => v,
            None => unreached(),
        };
        let ghost v_pop = visited@;
        let ghost s_pop = stack@;
        visit_eps_successors(nfa, &mut visited, &mut stack, m);
        proof {
            lemma_count_true_le(visited@);
            lemma_worklist_restore(g, init0, stack0, s_pop, v_pop, stack@, visited@, m);
        }
    }
    proof {
        lemma_closure_post(g, init0, visited@);
    }
    visited
}

/// The epsilon-closure of the marked nodes of `init`, by fixed-point
/// worklist traversal. The visited set makes the traversal terminate even
/// when epsilon transitions form cycles.
#[verifier::loop_isolation(false)]
fn eps_closure(nfa: &NFA, init: Vec<bool>) -> (out: Vec<bool>)
    requires
        nfa.wf(),
        init@.len() == nfa.graph().len(),
    ensures
        out@.len() == init@.len(),
        forall|m: int|
            0 <= m < out@.len() ==> (#[trigger] out@[m] <==> exists|a: int|
                0 <= a < init@.len() && init@[a] && eps_reaches(nfa.graph(), a, m)),
{
    let ghost g = nfa.graph();
    let stack = seed_stack(&init);
    proof {
        assert forall|m: int| 0 <= m < g.len() && #[trigger] init@[m] implies exists|a: int|
            0 <= a < g.len() && init@[a] && eps_reaches(g, a, m) by {
            lemma_reaches_self(g, m);
        }
    }
    closure_loop(nfa, init, stack, Ghost(init@))
}

/// One consuming move: the set of nodes reachable from a marked node by one
/// edge labeled exactly `c`.
#[verifier::loop_isolation(false)]
#[verifier::rlimit(60)]
fn symbol_step(nfa: &NFA, active: &Vec<bool>, c: char) -> (out: Vec<bool>)
    requires
        nfa.wf(),
        active@.len() == nfa.graph().len(),
    ensures
        out@.len() == active@.len(),
        forall|m: int|
            0 <= m < out@.len() ==> (#[trigger] out@[m] <==> exists|p: int|
                0 <= p < active@.len() && active@[p] && nfa.graph()[p].contains(
                    (Some(c), m),
                )),
{
    let ghost g = nfa.graph();
    let n = nfa.nodes.len();
    proof {
        assert(g.len() == nfa.nodes@.len());
    }
    let mut out = falses(n);
    let mut p: usize = 0;
    while p < n
        invariant
            p <= n,
            n == g.len(),
            graph_wf(g),
            nfa.wf(),
            g == nfa.graph(),
            active@.len() == n,
            out@.len() == n,
            forall|m: int|
                0 <= m < n && #[trigger] out@[m] ==> exists|p2: int|
                    0 <= p2 < n && active@[p2] && g[p2].contains((Some(c), m)),
            forall|p2: int, jj: int|
                0 <= p2 < p && active@[p2] && 0 <= jj < g[p2].len() && (#[trigger] g[p2][
                    jj
                ]).0 == Some(c) ==> out@[g[p2][jj].1],
        decreases n - p,
    {
        if active[p] {
            let mut j: usize = 0;
            let trans_len = nfa.nodes[p].transitions.len();
            while j < trans_len
                invariant
                    p < n,
                    n == g.len(),
                    graph_wf(g),
                    nfa.wf(),
                    g == nfa.graph(),
                    active@.len() == n,
                    active@[p as int],
                    out@.len() == n,
                    trans_len as int == g[p as int].len(),
                    j <= trans_len,
                    forall|m: int|
                        0 <= m < n && #[trigger] out@[m] ==> exists|p2: int|
                            0 <= p2 < n && active@[p2] && g[p2].contains((Some(c), m)),
                    forall|p2: int, jj: int|
                        0 <= p2 < p && active@[p2] && 0 <= jj < g[p2].len() && (#[trigger] g[p2][
                            jj
                        ]).0 == Some(c) ==> out@[g[p2][jj].1],
                    forall|jj: int|
                        0 <= jj < j && (#[trigger] g[p as int][jj]).0 == Some(c) ==> out@[g[
                            p as int
                        ][jj].1],
                decreases trans_len - j,
            {
                let t = nfa.nodes[p].transitions[j];
                proof {
                    assert(g[p as int] == crate::nfa::node_edges(nfa.nodes@[p as int]));
                    assert(g[p as int][j as int] == crate::nfa::edge_of(t));
                }
                match t.consumes {
                    Some(c2) => {
                        if c2 == c {
                            proof {
                                assert(g[p as int][j as int] == (Some(c), t.to as int));
                                assert(g[p as int].contains((Some(c), t.to as int)));
                                assert(0 <= g[p as int][j as int].1 < n);
                            }
                            let slot = &mut out[t.to];
                            *slot = true;
                        }
                    }
                    None => {}
                }
                j += 1;
            }
        }
        p += 1;
    }
    proof {
        assert forall|m: int| 0 <= m < n implies (#[trigger] out@[m] <==> exists|p2: int|
            0 <= p2 < n && active@[p2] && g[p2].contains((Some(c), m))) by {
            if exists|p2: int| 0 <= p2 < n && active@[p2] && g[p2].contains((Some(c), m)) {
                let p2 = choose|p2: int| 0 <= p2 < n && active@[p2] && g[p2].contains(
                    (Some(c), m),
                );
                let jj = choose|jj: int| 0 <= jj < g[p2].len() && g[p2][jj] == (Some(c), m);
                assert(out@[g[p2][jj].1]);
            }
        }
    }
    out
}

impl NFA {
    /// Decide membership by epsilon-closure simulation: keep the set of
    /// active nodes, starting from the epsilon-closure of the start node;
    /// for each input symbol take every matching edge out of an active node
    /// and close under epsilon transitions again; accept exactly when the
    /// accepting node ends up active. Terminates on every automaton, epsilon
    /// cycles included.
    #[verifier::loop_isolation(false)]
    #[verifier::rlimit(60)]
    pub fn accepts(&self, input: &Vec<char>) -> (r: bool)
        requires
            self.wf(),
        ensures
            r == nfa_accepts(*self, input@),
    {
        let ghost g = self.graph();
        let ghost start = self.start as int;
        let n = self.nodes.len();
        proof {
            assert(g.len() == self.nodes@.len());
        }
        let mut init = falses(n);
        let slot = &mut init[self.start];
        *slot = true;
        let mut active = eps_closure(self, init);
        proof {
            assert(input@.take(0) =~= Seq::<char>::empty());
            assert forall|m: int| 0 <= m < n implies (#[trigger] active@[m] <==> reaches(
                g,
                start,
                m,
                input@.take(0),
            )) by {
                if reaches(g, start, m, input@.take(0)) {
                    assert(eps_reaches(g, start, m));
                }
            }
        }
        let mut idx: usize = 0;
        while idx < input.len()
            invariant
                self.wf(),
                g == self.graph(),
                start == self.start as int,
                n == g.len(),
                active@.len() == n,
                idx <= input@.len(),
                forall|m: int|
                    0 <= m < n ==> (#[trigger] active@[m] <==> reaches(
                        g,
                        start,
                        m,
                        input@.take(idx as int),
                    )),
            decreases input@.len() - idx,
        {
            let c = input[idx];
            let ghost prev = active@;
            let ghost s_old = input@.take(idx as int);
            let stepped = symbol_step(self, &active, c);
            let ghost stepv = stepped@;
            active = eps_closure(self, stepped);
            proof {
                let s_new = input@.take(idx as int + 1);
                assert(s_new =~= s_old.push(c));
                assert forall|m: int| 0 <= m < n implies (#[trigger] active@[m] <==> reaches(
                    g,
                    start,
                    m,
                    s_new,
                )) by {
                    if active@[m] {
                        let q = choose|q: int|
                            0 <= q < n && stepv[q] && eps_reaches(g, q, m);
                        let p = choose|p: int|
                            0 <= p < n && prev[p] && g[p].contains((Some(c), q));
                        assert(last_symbol_split(g, start, m, s_old, c, p, q));
                        lemma_last_symbol_reaches(g, start, m, s_old, c, p, q);
                    }
                    if reaches(g, start, m, s_new) {
                        let steps = choose|steps: Seq<Step>|
                            is_run(g, start, m, steps) && consumed(steps) == s_new;
                        lemma_run_last_symbol(g, start, m, steps, s_old, c);
                        let (p, q) = choose|p: int, q: int|
                            last_symbol_split(g, start, m, s_old, c, p, q);
                        let jq = choose|jq: int|
                            0 <= jq < g[p].len() && g[p][jq] == (Some(c), q);
                        assert(g[p][jq].1 == q);
                        assert(0 <= q < n);
                        assert(prev[p]);
                        assert(exists|p2: int|
                            0 <= p2 < n && prev[p2] && g[p2].contains((Some(c), q)));
                        assert(stepv[q]);
                        assert(active@[m]);
                    }
                }
            }
            idx += 1;
        }
        proof {
            assert(input@.take(input@.len() as int) =~= input@);
        }
        active[self.accept]
    }
}

/// Runs survive arena growth: a run in `g` is a run in any graph that
/// extends `g`.
pub proof fn lemma_run_extends(g: GraphModel, g2: GraphModel, a: int, b: int, steps: Seq<Step>)
    requires
        crate::nfa::extends(g, g2),
        is_run(g, a, b, steps),
    ensures
        is_run(g2, a, b, steps),
{
    assert forall|i: int| 0 <= i < steps.len() implies step_ok(g2, #[trigger] steps[i]) by {
        let st = steps[i];
        let j = choose|j: int| 0 <= j < g[st.0].len() && g[st.0][j] == (st.1, st.2);
        assert(g[st.0].is_prefix_of(g2[st.0]));
        assert(g[st.0] =~= g2[st.0].subrange(0, g[st.0].len() as int));
        assert(g2[st.0][j] == (st.1, st.2));
        assert(g2[st.0].contains((st.1, st.2)));
    }
}

/// Reachability survives arena growth.
pub proof fn lemma_reaches_extends(g: GraphModel, g2: GraphModel, a: int, b: int, s: Seq<char>)
    requires
        crate::nfa::extends(g, g2),
        reaches(g, a, b, s),
    ensures
        reaches(g2, a, b, s),
{
    let steps = choose|steps: Seq<Step>| is_run(g, a, b, steps) && consumed(steps) == s;
    lemma_run_extends(g, g2, a, b, steps);
}

} // verus!
