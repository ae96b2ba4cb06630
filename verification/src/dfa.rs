//! The deterministic automaton: subset construction over the nondeterministic
//! one, and the matcher's run over it. Each state carries the canonical
//! identifier of the node set it came from; per state and character there is
//! at most one outgoing edge, and every edge label comes from the
//! nondeterministic automaton's character set.

use vstd::prelude::*;
use crate::nfa::{
    EpsilonClosure, NFA, closure_of, closure_wf, eps_reachable, has_accepting, is_eps_path,
    lemma_closure_id_bounded, lemma_run_of_empty, lemma_uncovered_char_moves_nowhere,
    move_targets, spec_nfa_accepts, spec_nfa_run, start_state, step_state,
};
use crate::util::{
    copy_indices, indices_eq, lemma_distinct_sorted_keys_bound, lemma_sorted_same_members,
    strictly_sorted,
};

verus! {

broadcast use vstd::seq_lib::lemma_seq_contains_after_push;

pub struct DFA {
    pub nodes: Vec<DFANode>,
    pub start: usize,
}

pub struct DFANode {
    pub id: Vec<usize>,
    pub is_accepting: bool,
    pub edges: Vec<DFAEdge>,
}

pub struct DFAEdge {
    pub literal: char,
    pub to: usize,
}

/// Every edge points at a state of the automaton.
pub open spec fn dfa_edges_wf(nd: DFANode, n_states: int) -> bool {
    forall|j: int| 0 <= j < nd.edges@.len() ==> (((#[trigger] nd.edges@[j]).to) as int) < n_states
}

/// Per state and character there is at most one outgoing edge.
pub open spec fn dfa_edges_deterministic(nd: DFANode) -> bool {
    forall|j1: int, j2: int|
        0 <= j1 < j2 < nd.edges@.len() ==> (#[trigger] nd.edges@[j1]).literal != (
        #[trigger] nd.edges@[j2]).literal
}

/// Every edge label of the state comes from `chars`.
pub open spec fn dfa_labels_in(nd: DFANode, chars: Seq<char>) -> bool {
    forall|j: int| 0 <= j < nd.edges@.len() ==> chars.contains((#[trigger] nd.edges@[j]).literal)
}

pub open spec fn dfa_wf(d: DFA) -> bool {
    &&& d.nodes@.len() >= 1
    &&& d.start == 0
    &&& forall|s: int| 0 <= s < d.nodes@.len() ==> dfa_edges_wf(#[trigger] d.nodes@[s], d.nodes@.len() as int)
    &&& forall|s: int| 0 <= s < d.nodes@.len() ==> dfa_edges_deterministic(#[trigger] d.nodes@[s])
}

/// The target of the first edge out of `nd` labelled `c`, scanning from `j`.
pub open spec fn dfa_edge_from(edges: Seq<DFAEdge>, c: char, j: int) -> Option<usize>
    decreases edges.len() - j,
{
    if 0 <= j < edges.len() {
        if edges[j].literal == c {
            Some(edges[j].to)
        } else {
            dfa_edge_from(edges, c, j + 1)
        }
    } else {
        None
    }
}

/// One step of the deterministic run; `None` when the state has no edge for
/// `c`, which rejects the input.
pub open spec fn spec_dfa_step(d: DFA, state: int, c: char) -> Option<usize> {
    if 0 <= state < d.nodes@.len() {
        dfa_edge_from(d.nodes@[state].edges@, c, 0)
    } else {
        None
    }
}

/// The state after consuming `input` from `state`, if every step had an edge.
pub open spec fn spec_dfa_run(d: DFA, state: int, input: Seq<char>) -> Option<int>
    decreases input.len(),
{
    if input.len() == 0 {
        if 0 <= state < d.nodes@.len() {
            Some(state)
        } else {
            None
        }
    } else {
        match spec_dfa_step(d, state, input[0]) {
            Some(next) => spec_dfa_run(d, next as int, input.drop_first()),
            None => None,
        }
    }
}

/// Whether the deterministic automaton accepts the whole input.
pub open spec fn spec_dfa_accepts(d: DFA, input: Seq<char>) -> bool {
    match spec_dfa_run(d, d.start as int, input) {
        Some(st) => 0 <= st < d.nodes@.len() && d.nodes@[st].is_accepting,
        None => false,
    }
}

/// A run over `a + b` is a run over `a`, then over `b` from where it got.
pub proof fn lemma_dfa_run_append(d: DFA, state: int, a: Seq<char>, b: Seq<char>)
    ensures
        spec_dfa_run(d, state, a + b) == (match spec_dfa_run(d, state, a) {
            Some(mid) => spec_dfa_run(d, mid as int, b),
            None => None,
        }),
    decreases a.len(),
{
    if a.len() == 0 {
        assert(a + b =~= b);
        if 0 <= state < d.nodes@.len() {
        } else {
            assert(spec_dfa_run(d, state, b) is None) by {
                if b.len() > 0 {
                    assert(spec_dfa_step(d, state, b[0]) is None);
                }
            }
        }
    } else {
        assert((a + b)[0] == a[0]);
        assert((a + b).drop_first() =~= a.drop_first() + b);
        match spec_dfa_step(d, state, a[0]) {
            Some(next) => {
                lemma_dfa_run_append(d, next as int, a.drop_first(), b);
            },
            None => {},
        }
    }
}


/// The set of automaton states a deterministic state stands for: the epsilon
/// closure of the node set named by its identifier.
pub open spec fn dfa_state_set(dn: Seq<DFANode>, nn: Seq<crate::nfa::NFANode>, s: int) -> Set<usize> {
    closure_of(nn, dn[s].id@.to_set())
}

/// The deterministic state's edge for `c` leads to the state standing for the
/// move set of its own state set; no edge means the move set is empty.
pub open spec fn state_corresponds(
    dn: Seq<DFANode>,
    nn: Seq<crate::nfa::NFANode>,
    s: int,
    c: char,
) -> bool {
    match dfa_edge_from(dn[s].edges@, c, 0) {
        Some(t) => (t as int) < dn.len() && (forall|y: usize|
            #[trigger] dn[t as int].id@.contains(y) <==> move_targets(
                nn,
                dfa_state_set(dn, nn, s),
                c,
            ).contains(y)),
        None => forall|y: usize| !move_targets(nn, dfa_state_set(dn, nn, s), c).contains(y),
    }
}


/// Which deterministic states the worklist still holds.
pub open spec fn on_stack(st: Seq<(EpsilonClosure, usize)>, s: int) -> bool {
    exists|k: int| 0 <= k < st.len() && ((#[trigger] st[k].1) as int) == s
}

/// The state implements one simulation step for every character.
pub open spec fn fully_corresponds(dn: Seq<DFANode>, nn: Seq<crate::nfa::NFANode>, s: int) -> bool {
    forall|c: char| #[trigger] state_corresponds(dn, nn, s, c)
}

/// A scan for a label none of the edges carry finds nothing.
proof fn lemma_edge_from_none(edges: Seq<DFAEdge>, c: char, j: int)
    requires
        forall|k: int| 0 <= k < edges.len() ==> (#[trigger] edges[k]).literal != c,
    ensures
        dfa_edge_from(edges, c, j) is None,
    decreases edges.len() - j,
{
    if 0 <= j < edges.len() {
        lemma_edge_from_none(edges, c, j + 1);
    }
}

/// Appending an edge with a fresh label makes the scan for that label find it.
proof fn lemma_edge_from_push_hit(edges: Seq<DFAEdge>, e: DFAEdge, j: int)
    requires
        forall|k: int| 0 <= k < edges.len() ==> (#[trigger] edges[k]).literal != e.literal,
        0 <= j <= edges.len(),
    ensures
        dfa_edge_from(edges.push(e), e.literal, j) == Some(e.to),
    decreases edges.len() - j,
{
    let post = edges.push(e);
    if j < edges.len() {
        assert(post[j] == edges[j]);
        lemma_edge_from_push_hit(edges, e, j + 1);
    } else {
        assert(post[j] == e);
    }
}

/// Appending an edge with another label leaves the scan unchanged.
proof fn lemma_edge_from_push_other(edges: Seq<DFAEdge>, e: DFAEdge, c: char, j: int)
    requires
        c != e.literal,
        0 <= j <= edges.len(),
    ensures
        dfa_edge_from(edges.push(e), c, j) == dfa_edge_from(edges, c, j),
    decreases edges.len() - j,
{
    let post = edges.push(e);
    if j < edges.len() {
        assert(post[j] == edges[j]);
        lemma_edge_from_push_other(edges, e, c, j + 1);
    } else {
        assert(post[j] == e);
        assert(dfa_edge_from(post, c, j + 1) is None);
        assert(dfa_edge_from(edges, c, j) is None);
    }
}

/// A state left untouched keeps implementing one simulation step when the
/// automaton around it grows.
proof fn lemma_corr_stable_char(
    pre: Seq<DFANode>,
    post: Seq<DFANode>,
    nn: Seq<crate::nfa::NFANode>,
    s: int,
    c: char,
)
    requires
        0 <= s < pre.len(),
        post.len() >= pre.len(),
        post[s] == pre[s],
        forall|t: int| 0 <= t < pre.len() ==> (#[trigger] post[t]).id@ == pre[t].id@,
        state_corresponds(pre, nn, s, c),
    ensures
        state_corresponds(post, nn, s, c),
{
    assert(post[s].edges@ == pre[s].edges@);
    assert(dfa_state_set(post, nn, s) == dfa_state_set(pre, nn, s));
    match dfa_edge_from(pre[s].edges@, c, 0) {
        Some(t) => {
            assert((t as int) < pre.len());
            assert(post[t as int].id@ == pre[t as int].id@);
        },
        None => {},
    }
}

/// A state left untouched keeps implementing its simulation steps when the
/// automaton around it grows.
proof fn lemma_corr_stable(
    pre: Seq<DFANode>,
    post: Seq<DFANode>,
    nn: Seq<crate::nfa::NFANode>,
    s: int,
)
    requires
        0 <= s < pre.len(),
        post.len() >= pre.len(),
        post[s] == pre[s],
        forall|t: int| 0 <= t < pre.len() ==> (#[trigger] post[t]).id@ == pre[t].id@,
        fully_corresponds(pre, nn, s),
    ensures
        fully_corresponds(post, nn, s),
{
    assert forall|c: char| #[trigger] state_corresponds(post, nn, s, c) by {
        assert(state_corresponds(pre, nn, s, c));
        assert(post[s].edges@ == pre[s].edges@);
        assert(dfa_state_set(post, nn, s) == dfa_state_set(pre, nn, s));
        match dfa_edge_from(pre[s].edges@, c, 0) {
            Some(t) => {
                assert((t as int) < pre.len());
                assert(post[t as int].id@ == pre[t as int].id@);
            },
            None => {},
        }
    }
}

/// The deterministic automaton simulates the nondeterministic one: its start
/// state stands for the start node, each state's acceptance is that of its
/// state set, and each edge implements one simulation step.
pub open spec fn dfa_simulates(d: DFA, nfa: NFA) -> bool {
    &&& dfa_wf(d)
    &&& forall|y: usize| #[trigger] d.nodes@[0].id@.contains(y) <==> y == nfa.start.0
    &&& forall|s: int|
        0 <= s < d.nodes@.len() ==> ((#[trigger] d.nodes@[s].is_accepting) <==> has_accepting(
            nfa.nodes@,
            dfa_state_set(d.nodes@, nfa.nodes@, s),
        ))
    &&& forall|s: int, c: char|
        0 <= s < d.nodes@.len() ==> #[trigger] state_corresponds(d.nodes@, nfa.nodes@, s, c)
}

/// A run of the deterministic automaton tracks the simulation step for step:
/// from corresponding states, both sides accept or reject together.
proof fn lemma_sim_run(d: DFA, nfa: NFA, s: int, big: Set<usize>, input: Seq<char>)
    requires
        dfa_simulates(d, nfa),
        0 <= s < d.nodes@.len(),
        big == dfa_state_set(d.nodes@, nfa.nodes@, s),
    ensures
        (match spec_dfa_run(d, s, input) {
            Some(t) => 0 <= t < d.nodes@.len() && d.nodes@[t].is_accepting,
            None => false,
        }) == has_accepting(nfa.nodes@, spec_nfa_run(nfa.nodes@, big, input)),
    decreases input.len(),
{
    let dn = d.nodes@;
    let nn = nfa.nodes@;
    if input.len() == 0 {
        assert(d.nodes@[s].is_accepting <==> has_accepting(nn, dfa_state_set(dn, nn, s)));
    } else {
        let c = input[0];
        assert(state_corresponds(dn, nn, s, c));
        let mt = move_targets(nn, big, c);
        match spec_dfa_step(d, s, c) {
            Some(t) => {
                assert((t as int) < dn.len());
                assert(dn[t as int].id@.to_set() =~= mt) by {
                    assert forall|y: usize|
                        dn[t as int].id@.to_set().contains(y) <==> mt.contains(y) by {
                        assert(dn[t as int].id@.contains(y) <==> mt.contains(y));
                    }
                }
                assert(step_state(nn, big, c) == dfa_state_set(dn, nn, t as int));
                lemma_sim_run(d, nfa, t as int, step_state(nn, big, c), input.drop_first());
            },
            None => {
                assert(forall|y: usize| !mt.contains(y));
                let cl = closure_of(nn, mt);
                assert forall|y: usize| !cl.contains(y) by {
                    if eps_reachable(nn, mt, y) {
                        let p = choose|p: Seq<usize>| is_eps_path(nn, p, mt, y);
                        assert(mt.contains(p[0]));
                    }
                }
                lemma_run_of_empty(nn, cl, input.drop_first());
                assert(!has_accepting(nn, spec_nfa_run(nn, cl, input.drop_first())));
                assert(spec_nfa_run(nn, big, input) == spec_nfa_run(nn, cl, input.drop_first()));
            },
        }
    }
}

/// Subset construction preserves the language: the deterministic automaton
/// accepts an input exactly when the subset simulation of the
/// nondeterministic automaton accepts it.
pub proof fn lemma_dfa_matches_nfa(d: DFA, nfa: NFA, input: Seq<char>)
    requires
        nfa.wf(),
        dfa_simulates(d, nfa),
    ensures
        spec_dfa_accepts(d, input) == spec_nfa_accepts(nfa, input),
{
    let dn = d.nodes@;
    let nn = nfa.nodes@;
    assert(dn[0].id@.to_set() =~= Set::empty().insert(nfa.start.0)) by {
        assert forall|y: usize|
            dn[0].id@.to_set().contains(y) <==> Set::empty().insert(nfa.start.0).contains(y) by {
            assert(dn[0].id@.contains(y) <==> y == nfa.start.0);
        }
    }
    assert(dfa_state_set(dn, nn, 0) == start_state(nfa));
    lemma_sim_run(d, nfa, 0, start_state(nfa), input);
    match spec_dfa_run(d, d.start as int, input) {
        Some(st) => {},
        None => {},
    }
}

impl DFANode {
    /// A state taken from an epsilon closure: its canonical identifier, its
    /// acceptance, and no edges yet.
    pub fn from_eclosure(eclosure: &EpsilonClosure) -> (r: Self)
        ensures
            r.id@ == eclosure.id@,
            r.is_accepting == eclosure.is_accepting,
            r.edges@ =~= Seq::<DFAEdge>::empty(),
    {
        DFANode { id: copy_indices(&eclosure.id), is_accepting: eclosure.is_accepting, edges: Vec::new() }
    }

    pub fn add_edge(&mut self, literal: char, to: usize)
        ensures
            final(self).id@ == old(self).id@,
            final(self).is_accepting == old(self).is_accepting,
            final(self).edges@ == old(self).edges@.push(DFAEdge { literal, to }),
    {
        self.edges.push(DFAEdge { literal, to });
    }
}

/// The state whose identifier equals `key`, if any.
fn find_state(nodes: &Vec<DFANode>, key: &Vec<usize>) -> (r: Option<usize>)
    ensures
        match r {
            Some(t) => (t as int) < nodes@.len() && nodes@[t as int].id@ == key@,
            None => forall|t: int| 0 <= t < nodes@.len() ==> (#[trigger] nodes@[t].id@) != key@,
        },
{
    let mut t: usize = 0;
    while t < nodes.len()
        invariant
            t <= nodes@.len(),
            forall|k: int| 0 <= k < t ==> (#[trigger] nodes@[k].id@) != key@,
        decreases nodes@.len() - t,
    {
        if indices_eq(&nodes[t].id, key) {
            return Some(t);
        }
        t = t + 1;
    }
    None
}

/// Appending one edge for a fresh character to one state keeps the automaton
/// well formed, deterministic, and inside the character set.
proof fn lemma_add_edge_preserves(
    pre: Seq<DFANode>,
    post: Seq<DFANode>,
    at: int,
    e: DFAEdge,
    chars: Seq<char>,
    li: int,
)
    requires
        0 <= at < pre.len(),
        post.len() == pre.len(),
        forall|s: int| 0 <= s < pre.len() && s != at ==> post[s] == pre[s],
        post[at].edges@ == pre[at].edges@.push(e),
        (e.to as int) < pre.len(),
        0 <= li < chars.len(),
        e.literal == chars[li],
        chars.no_duplicates(),
        forall|s: int| 0 <= s < pre.len() ==> dfa_edges_wf(#[trigger] pre[s], pre.len() as int),
        forall|s: int| 0 <= s < pre.len() ==> dfa_edges_deterministic(#[trigger] pre[s]),
        forall|s: int| 0 <= s < pre.len() ==> dfa_labels_in(#[trigger] pre[s], chars),
        forall|j: int|
            0 <= j < pre[at].edges@.len() ==> chars.subrange(0, li).contains(
                (#[trigger] pre[at].edges@[j]).literal,
            ),
    ensures
        forall|s: int| 0 <= s < post.len() ==> dfa_edges_wf(#[trigger] post[s], post.len() as int),
        forall|s: int| 0 <= s < post.len() ==> dfa_edges_deterministic(#[trigger] post[s]),
        forall|s: int| 0 <= s < post.len() ==> dfa_labels_in(#[trigger] post[s], chars),
        forall|j: int|
            0 <= j < post[at].edges@.len() ==> chars.subrange(0, li + 1).contains(
                (#[trigger] post[at].edges@[j]).literal,
            ),
{
    assert(!chars.subrange(0, li).contains(chars[li])) by {
        if chars.subrange(0, li).contains(chars[li]) {
            let k = choose|k: int| 0 <= k < li && chars.subrange(0, li)[k] == chars[li];
            assert(chars[k] == chars[li]);
        }
    }
    assert(chars.subrange(0, li + 1) =~= chars.subrange(0, li).push(chars[li]));
    assert forall|s: int|
        0 <= s < post.len() implies dfa_edges_wf(#[trigger] post[s], post.len() as int) by {
        if s != at {
            assert(post[s] == pre[s]);
            assert(dfa_edges_wf(pre[s], pre.len() as int));
        } else {
            assert(dfa_edges_wf(pre[at], pre.len() as int));
            assert forall|j: int|
                0 <= j < post[at].edges@.len() implies (((#[trigger] post[at].edges@[j]).to) as int)
                < post.len() by {
                if j < pre[at].edges@.len() {
                    assert(post[at].edges@[j] == pre[at].edges@[j]);
                } else {
                    assert(post[at].edges@[j] == e);
                }
            }
        }
    }
    assert forall|s: int|
        0 <= s < post.len() implies dfa_edges_deterministic(#[trigger] post[s]) by {
        if s != at {
            assert(post[s] == pre[s]);
            assert(dfa_edges_deterministic(pre[s]));
        } else {
            assert(dfa_edges_deterministic(pre[at]));
            assert forall|j1: int, j2: int|
                0 <= j1 < j2 < post[at].edges@.len() implies (
            #[trigger] post[at].edges@[j1]).literal != (#[trigger] post[at].edges@[j2]).literal by {
                if j2 == post[at].edges@.len() - 1 {
                    assert(post[at].edges@[j1] == pre[at].edges@[j1]);
                    assert(chars.subrange(0, li).contains(pre[at].edges@[j1].literal));
                    assert(post[at].edges@[j2] == e);
                } else {
                    assert(post[at].edges@[j1] == pre[at].edges@[j1]);
                    assert(post[at].edges@[j2] == pre[at].edges@[j2]);
                }
            }
        }
    }
    assert forall|s: int| 0 <= s < post.len() implies dfa_labels_in(#[trigger] post[s], chars) by {
        if s != at {
            assert(post[s] == pre[s]);
            assert(dfa_labels_in(pre[s], chars));
        } else {
            assert(dfa_labels_in(pre[at], chars));
            assert forall|j: int|
                0 <= j < post[at].edges@.len() implies chars.contains(
                (#[trigger] post[at].edges@[j]).literal,
            ) by {
                if j < pre[at].edges@.len() {
                    assert(post[at].edges@[j] == pre[at].edges@[j]);
                } else {
                    assert(post[at].edges@[j] == e);
                    assert(chars.contains(chars[li]));
                }
            }
        }
    }
    assert forall|j: int|
        0 <= j < post[at].edges@.len() implies chars.subrange(0, li + 1).contains(
        (#[trigger] post[at].edges@[j]).literal,
    ) by {
        if j < pre[at].edges@.len() {
            assert(post[at].edges@[j] == pre[at].edges@[j]);
            assert(chars.subrange(0, li).contains(pre[at].edges@[j].literal));
        } else {
            assert(post[at].edges@[j] == e);
        }
    }
}

impl DFA {
    /// Subset construction. The result is well formed: it has a start state,
    /// edge targets stay in range, and per state and character there is at
    /// most one edge; every edge label comes from the nondeterministic
    /// automaton's character set.
    #[verifier::rlimit(100)]
    pub fn from_nfa(nfa: &NFA) -> (r: Self)
        requires
            nfa.wf(),
        ensures
            dfa_wf(r),
            forall|s: int|
                0 <= s < r.nodes@.len() ==> dfa_labels_in(
                    #[trigger] r.nodes@[s],
                    nfa.character_set@,
                ),
            dfa_simulates(r, *nfa),
            forall|s: int|
                0 <= s < r.nodes@.len() ==> strictly_sorted((#[trigger] r.nodes@[s]).id@)
                    && r.nodes@[s].id@.len() >= 1,
            forall|s1: int, s2: int|
                0 <= s1 < s2 < r.nodes@.len() ==> (#[trigger] r.nodes@[s1].id@) != (
                #[trigger] r.nodes@[s2].id@),
    {
        let ghost n = nfa.nodes@.len() as nat;
        let ghost nn = nfa.nodes@;
        let initial_closure = nfa.epsilon_closure(nfa.start());
        let initial_node = DFANode::from_eclosure(&initial_closure);
        let mut nodes: Vec<DFANode> = Vec::new();
        nodes.push(initial_node);
        let mut stack: Vec<(EpsilonClosure, usize)> = Vec::new();
        stack.push((initial_closure, 0));
        proof {
            lemma_closure_id_bounded(initial_closure, n as int);
            let keys = nodes@.map_values(|nd: DFANode| nd.id@);
            assert(keys.len() == 1 && keys[0] == nodes@[0].id@);
            lemma_distinct_sorted_keys_bound(keys, n);
            assert forall|y: usize| #[trigger] nodes@[0].id@.contains(y) <==> y == nfa.start.0 by {
                assert(initial_closure.id@.contains(y) <==> seq![nfa.start.0].contains(y));
                assert(seq![nfa.start.0].contains(y) <==> y == nfa.start.0) by {
                    if seq![nfa.start.0].contains(y) {
                        let k = choose|k: int| 0 <= k < 1 && seq![nfa.start.0][k] == y;
                    }
                    if y == nfa.start.0 {
                        assert(seq![nfa.start.0][0] == y);
                    }
                }
            }
            assert forall|y: usize|
                #[trigger] initial_closure.nodes@.contains(y) <==> dfa_state_set(
                    nodes@,
                    nn,
                    0,
                ).contains(y) by {
                assert(initial_closure.nodes@.contains(y) <==> eps_reachable(
                    nn,
                    seq![nfa.start.0].to_set(),
                    y,
                ));
                assert(nodes@[0].id@.to_set() =~= seq![nfa.start.0].to_set()) by {
                    assert forall|z: usize|
                        nodes@[0].id@.to_set().contains(z) <==> seq![nfa.start.0].to_set()
                            .contains(z) by {
                        assert(initial_closure.id@.contains(z) <==> seq![nfa.start.0].contains(z));
                    }
                }
            }
            crate::nfa::lemma_has_accepting_congruence(
                nn,
                initial_closure.nodes@.to_set(),
                dfa_state_set(nodes@, nn, 0),
            );
            assert(((stack@[0].1) as int) == 0);
            assert(on_stack(stack@, 0));
            assert(nodes@[0].id@.contains(nfa.start.0));
            assert(nodes@[0].id@.len() >= 1);
        }
        while stack.len() > 0
            invariant
                nfa.wf(),
                n == nfa.nodes@.len(),
                nn == nfa.nodes@,
                nodes@.len() >= 1,
                forall|s: int|
                    0 <= s < nodes@.len() ==> dfa_edges_wf(
                        #[trigger] nodes@[s],
                        nodes@.len() as int,
                    ),
                forall|s: int| 0 <= s < nodes@.len() ==> dfa_edges_deterministic(#[trigger] nodes@[s]),
                forall|s: int|
                    0 <= s < nodes@.len() ==> dfa_labels_in(#[trigger] nodes@[s], nfa.character_set@),
                forall|s: int| 0 <= s < nodes@.len() ==> strictly_sorted((#[trigger] nodes@[s]).id@),
                forall|s: int| 0 <= s < nodes@.len() ==> ((#[trigger] nodes@[s]).id@.len() >= 1),
                forall|s: int, k: int|
                    0 <= s < nodes@.len() && 0 <= k < nodes@[s].id@.len() ==> (((
                    #[trigger] nodes@[s].id@[k]) as nat) < n),
                forall|s1: int, s2: int|
                    0 <= s1 < s2 < nodes@.len() ==> (#[trigger] nodes@[s1].id@) != (
                    #[trigger] nodes@[s2].id@),
                nodes@.len() <= vstd::arithmetic::power2::pow2(n),
                forall|k: int| 0 <= k < stack@.len() ==> ((#[trigger] stack@[k].1) as int)
                    < nodes@.len(),
                forall|k1: int, k2: int|
                    0 <= k1 < k2 < stack@.len() ==> (#[trigger] stack@[k1].1) != (
                    #[trigger] stack@[k2].1),
                forall|k: int|
                    0 <= k < stack@.len() ==> (#[trigger] nodes@[stack@[k].1 as int].edges@.len())
                        == 0,
                forall|k: int| 0 <= k < stack@.len() ==> closure_wf((#[trigger] stack@[k]).0, n as int),
                forall|y: usize| #[trigger] nodes@[0].id@.contains(y) <==> y == nfa.start.0,
                forall|s: int|
                    0 <= s < nodes@.len() ==> ((#[trigger] nodes@[s].is_accepting)
                        <==> has_accepting(nn, dfa_state_set(nodes@, nn, s))),
                forall|k: int|
                    0 <= k < stack@.len() ==> (#[trigger] stack@[k]).0.id@ == nodes@[stack@[k].1 as int].id@,
                forall|k: int, y: usize|
                    0 <= k < stack@.len() ==> ((#[trigger] stack@[k].0.nodes@.contains(y))
                        <==> dfa_state_set(nodes@, nn, stack@[k].1 as int).contains(y)),
                forall|s: int|
                    0 <= s < nodes@.len() && !on_stack(stack@, s)
                        ==> #[trigger] fully_corresponds(nodes@, nn, s),
            decreases
                    vstd::arithmetic::power2::pow2(n) - nodes@.len() + stack@.len(),
        {
            let ghost stack_at_pop = stack@;
            let entry = match stack.pop() {
                Some(e) => e,
                None => {
                    proof {
                        assert(false);
                    }
                    (EpsilonClosure::new(Vec::new(), Vec::new(), false), 0)
                },
            };
            let eclosure = entry.0;
            let cur_idx = entry.1;
            proof {
                assert(stack_at_pop[stack_at_pop.len() - 1] == entry);
                assert(closure_wf(eclosure, n as int));
                assert(eclosure.id@ == nodes@[cur_idx as int].id@);
                assert forall|y: usize|
                    #[trigger] eclosure.nodes@.contains(y) <==> dfa_state_set(
                        nodes@,
                        nn,
                        cur_idx as int,
                    ).contains(y) by {
                    assert(stack_at_pop[stack_at_pop.len() - 1].0.nodes@.contains(y)
                        <==> dfa_state_set(nodes@, nn, stack_at_pop[stack_at_pop.len() - 1].1 as int).contains(y));
                }
                assert forall|k: int|
                    0 <= k < stack@.len() implies (#[trigger] stack@[k].1) != cur_idx by {
                    assert(stack@[k] == stack_at_pop[k]);
                    assert(stack_at_pop[k].1 != stack_at_pop[stack_at_pop.len() - 1].1);
                }
                assert forall|s: int|
                    0 <= s < nodes@.len() && s != cur_idx && !on_stack(stack@, s) implies
                    #[trigger] fully_corresponds(nodes@, nn, s) by {
                    assert(!on_stack(stack_at_pop, s)) by {
                        if on_stack(stack_at_pop, s) {
                            let k = choose|k: int|
                                0 <= k < stack_at_pop.len() && ((
                            #[trigger] stack_at_pop[k].1) as int) == s;
                            if k < stack@.len() {
                                assert(stack@[k] == stack_at_pop[k]);
                                assert(((stack@[k].1) as int) == s);
                                assert(on_stack(stack@, s));
                            } else {
                                assert(k == stack_at_pop.len() - 1);
                            }
                        }
                    }
                }
            }
            let ghost diff = nodes@.len() - stack@.len();
            let mut li: usize = 0;
            while li < nfa.character_set.len()
                invariant
                    nfa.wf(),
                    n == nfa.nodes@.len(),
                    nn == nfa.nodes@,
                    nodes@.len() >= 1,
                    li <= nfa.character_set@.len(),
                    (cur_idx as int) < nodes@.len(),
                    closure_wf(eclosure, n as int),
                    nodes@.len() - stack@.len() == diff,
                    forall|s: int|
                        0 <= s < nodes@.len() ==> dfa_edges_wf(
                            #[trigger] nodes@[s],
                            nodes@.len() as int,
                        ),
                    forall|s: int|
                        0 <= s < nodes@.len() ==> dfa_edges_deterministic(#[trigger] nodes@[s]),
                    forall|s: int|
                        0 <= s < nodes@.len() ==> dfa_labels_in(
                            #[trigger] nodes@[s],
                            nfa.character_set@,
                        ),
                    forall|j: int|
                        0 <= j < nodes@[cur_idx as int].edges@.len()
                            ==> nfa.character_set@.subrange(0, li as int).contains(
                            (#[trigger] nodes@[cur_idx as int].edges@[j]).literal,
                        ),
                    forall|s: int|
                        0 <= s < nodes@.len() ==> strictly_sorted((#[trigger] nodes@[s]).id@),
                    forall|s: int|
                        0 <= s < nodes@.len() ==> ((#[trigger] nodes@[s]).id@.len() >= 1),
                    forall|s: int, k: int|
                        0 <= s < nodes@.len() && 0 <= k < nodes@[s].id@.len() ==> (((
                        #[trigger] nodes@[s].id@[k]) as nat) < n),
                    forall|s1: int, s2: int|
                        0 <= s1 < s2 < nodes@.len() ==> (#[trigger] nodes@[s1].id@) != (
                        #[trigger] nodes@[s2].id@),
                    nodes@.len() <= vstd::arithmetic::power2::pow2(n),
                    forall|k: int| 0 <= k < stack@.len() ==> ((#[trigger] stack@[k].1) as int)
                        < nodes@.len(),
                    forall|k1: int, k2: int|
                        0 <= k1 < k2 < stack@.len() ==> (#[trigger] stack@[k1].1) != (
                        #[trigger] stack@[k2].1),
                    forall|k: int| 0 <= k < stack@.len() ==> (#[trigger] stack@[k].1) != cur_idx,
                    forall|k: int|
                        0 <= k < stack@.len() ==> (
                        #[trigger] nodes@[stack@[k].1 as int].edges@.len()) == 0,
                    forall|k: int|
                        0 <= k < stack@.len() ==> closure_wf((#[trigger] stack@[k]).0, n as int),
                    forall|y: usize| #[trigger] nodes@[0].id@.contains(y) <==> y == nfa.start.0,
                    forall|s: int|
                        0 <= s < nodes@.len() ==> ((#[trigger] nodes@[s].is_accepting)
                            <==> has_accepting(nn, dfa_state_set(nodes@, nn, s))),
                    forall|k: int|
                        0 <= k < stack@.len() ==> (#[trigger] stack@[k]).0.id@ == nodes@[stack@[k].1 as int].id@,
                    forall|k: int, y: usize|
                        0 <= k < stack@.len() ==> ((#[trigger] stack@[k].0.nodes@.contains(y))
                            <==> dfa_state_set(nodes@, nn, stack@[k].1 as int).contains(y)),
                    forall|s: int|
                        0 <= s < nodes@.len() && s != cur_idx && !on_stack(stack@, s)
                            ==> #[trigger] fully_corresponds(nodes@, nn, s),
                    forall|c: char|
                        nfa.character_set@.subrange(0, li as int).contains(c)
                            ==> #[trigger] state_corresponds(nodes@, nn, cur_idx as int, c),
                    forall|y: usize|
                        #[trigger] eclosure.nodes@.contains(y) <==> dfa_state_set(
                            nodes@,
                            nn,
                            cur_idx as int,
                        ).contains(y),
                decreases nfa.character_set@.len() - li,
            {
                let ghost pre_nodes = nodes@;
                let ghost pre_stack = stack@;
                let literal = nfa.character_set[li];
                let move_set = nfa.compute_move_set(&eclosure, literal);
                proof {
                    // the move set computed from the closure is the move set of
                    // the state this node stands for
                    assert(eclosure.nodes@.to_set() =~= dfa_state_set(nodes@, nn, cur_idx as int))
                        by {
                        assert(forall|y: usize|
                            eclosure.nodes@.to_set().contains(y) <==> #[trigger] eclosure.nodes@
                                .contains(y));
                    }
                }
                if move_set.len() > 0 {
                    let key = EpsilonClosure::id_for_set(&move_set);
                    let target_idx: usize = match find_state(&nodes, &key) {
                        Some(t) => t,
                        None => {
                            let next_closure = nfa.epsilon_closure_set(move_set);
                            proof {
                                lemma_sorted_same_members(next_closure.id@, key@);
                            }
                            let t = nodes.len();
                            let next_node = DFANode::from_eclosure(&next_closure);
                            nodes.push(next_node);
                            stack.push((next_closure, t));
                            proof {
                                lemma_closure_id_bounded(next_closure, n as int);
                                assert(next_closure.id@.contains(move_set@[0]));
                                assert forall|s: int|
                                    0 <= s < nodes@.len() implies ((#[trigger] nodes@[s]).id@.len()
                                    >= 1) by {
                                    if s < pre_nodes.len() {
                                        assert(nodes@[s] == pre_nodes[s]);
                                    } else {
                                        assert(nodes@[s].id@ == next_closure.id@);
                                    }
                                }
                                assert forall|s: int|
                                    0 <= s < nodes@.len() implies dfa_edges_wf(
                                    #[trigger] nodes@[s],
                                    nodes@.len() as int,
                                ) && dfa_edges_deterministic(nodes@[s]) && dfa_labels_in(
                                    nodes@[s],
                                    nfa.character_set@,
                                ) && strictly_sorted(nodes@[s].id@) by {
                                    if s < pre_nodes.len() {
                                        assert(nodes@[s] == pre_nodes[s]);
                                        assert(dfa_edges_wf(pre_nodes[s], pre_nodes.len() as int));
                                        assert(dfa_edges_deterministic(pre_nodes[s]));
                                        assert(dfa_labels_in(pre_nodes[s], nfa.character_set@));
                                    } else {
                                        assert(nodes@[s] == next_node);
                                        assert(nodes@[s].edges@.len() == 0);
                                    }
                                }
                                assert forall|s1: int, s2: int|
                                    0 <= s1 < s2 < nodes@.len() implies (
                                #[trigger] nodes@[s1].id@) != (#[trigger] nodes@[s2].id@) by {
                                    if s2 == t {
                                        assert(nodes@[s1].id@ == pre_nodes[s1].id@);
                                        assert(nodes@[s2].id@ == key@);
                                    } else {
                                        assert(nodes@[s1].id@ == pre_nodes[s1].id@);
                                        assert(nodes@[s2].id@ == pre_nodes[s2].id@);
                                    }
                                }
                                assert forall|s: int, k: int|
                                    0 <= s < nodes@.len() && 0 <= k < nodes@[s].id@.len() implies (((
                                #[trigger] nodes@[s].id@[k]) as nat) < n) by {
                                    if s < pre_nodes.len() {
                                        assert(nodes@[s] == pre_nodes[s]);
                                    } else {
                                        assert(nodes@[s].id@ == next_closure.id@);
                                    }
                                }
                                lemma_distinct_sorted_keys_bound(
                                    nodes@.map_values(|nd: DFANode| nd.id@),
                                    n,
                                );
                                assert forall|k1: int, k2: int|
                                    0 <= k1 < k2 < stack@.len() implies (#[trigger] stack@[k1].1)
                                    != (#[trigger] stack@[k2].1) by {
                                    if k2 == stack@.len() - 1 {
                                        assert(stack@[k1] == pre_stack[k1]);
                                        assert((stack@[k1].1 as int) < pre_nodes.len());
                                    } else {
                                        assert(stack@[k1] == pre_stack[k1]);
                                        assert(stack@[k2] == pre_stack[k2]);
                                    }
                                }
                                assert forall|k: int|
                                    0 <= k < stack@.len() implies (
                                #[trigger] nodes@[stack@[k].1 as int].edges@.len()) == 0 by {
                                    if k < pre_stack.len() {
                                        assert(stack@[k] == pre_stack[k]);
                                        assert(nodes@[stack@[k].1 as int]
                                            == pre_nodes[stack@[k].1 as int]);
                                    } else {
                                        assert(stack@[k].1 == t);
                                        assert(nodes@[t as int] == next_node);
                                    }
                                }
                                // the fresh state stands for the closure of the move set
                                assert(nodes@[t as int].id@ == next_closure.id@);
                                assert forall|y: usize|
                                    #[trigger] next_closure.nodes@.contains(y) <==> dfa_state_set(
                                        nodes@,
                                        nn,
                                        t as int,
                                    ).contains(y) by {
                                    assert(next_closure.nodes@.contains(y) <==> eps_reachable(
                                        nn,
                                        move_set@.to_set(),
                                        y,
                                    ));
                                    assert(nodes@[t as int].id@.to_set() =~= move_set@.to_set())
                                        by {
                                        assert forall|z: usize|
                                            nodes@[t as int].id@.to_set().contains(z)
                                                <==> move_set@.to_set().contains(z) by {
                                            assert(next_closure.id@.contains(z)
                                                <==> move_set@.contains(z));
                                        }
                                    }
                                }
                                crate::nfa::lemma_has_accepting_congruence(
                                    nn,
                                    next_closure.nodes@.to_set(),
                                    dfa_state_set(nodes@, nn, t as int),
                                );
                                assert forall|s: int|
                                    0 <= s < nodes@.len() implies ((
                                #[trigger] nodes@[s].is_accepting) <==> has_accepting(
                                    nn,
                                    dfa_state_set(nodes@, nn, s),
                                )) by {
                                    if s < pre_nodes.len() {
                                        assert(nodes@[s] == pre_nodes[s]);
                                        assert(dfa_state_set(nodes@, nn, s) == dfa_state_set(
                                            pre_nodes,
                                            nn,
                                            s,
                                        ));
                                    }
                                }
                                assert forall|k: int, y: usize|
                                    0 <= k < stack@.len() implies ((
                                #[trigger] stack@[k].0.nodes@.contains(y)) <==> dfa_state_set(
                                    nodes@,
                                    nn,
                                    stack@[k].1 as int,
                                ).contains(y)) by {
                                    if k < pre_stack.len() {
                                        assert(stack@[k] == pre_stack[k]);
                                        assert(nodes@[stack@[k].1 as int]
                                            == pre_nodes[stack@[k].1 as int]);
                                        assert(dfa_state_set(nodes@, nn, stack@[k].1 as int)
                                            == dfa_state_set(pre_nodes, nn, stack@[k].1 as int));
                                    } else {
                                        assert(stack@[k] == (next_closure, t));
                                    }
                                }
                                assert forall|k: int|
                                    0 <= k < stack@.len() implies (#[trigger] stack@[k]).0.id@
                                    == nodes@[stack@[k].1 as int].id@ by {
                                    if k < pre_stack.len() {
                                        assert(stack@[k] == pre_stack[k]);
                                        assert(nodes@[stack@[k].1 as int]
                                            == pre_nodes[stack@[k].1 as int]);
                                    } else {
                                        assert(stack@[k] == (next_closure, t));
                                    }
                                }
                                assert forall|s: int|
                                    0 <= s < nodes@.len() && s != cur_idx && !on_stack(stack@, s)
                                    implies #[trigger] fully_corresponds(nodes@, nn, s) by {
                                    assert(s != t) by {
                                        if s == t {
                                            assert(((stack@[stack@.len() - 1].1) as int) == s);
                                            assert(on_stack(stack@, s));
                                        }
                                    }
                                    assert(!on_stack(pre_stack, s)) by {
                                        if on_stack(pre_stack, s) {
                                            let k = choose|k: int|
                                                0 <= k < pre_stack.len() && ((
                                            #[trigger] pre_stack[k].1) as int) == s;
                                            assert(stack@[k] == pre_stack[k]);
                                            assert(((stack@[k].1) as int) == s);
                                            assert(on_stack(stack@, s));
                                        }
                                    }
                                    assert(fully_corresponds(pre_nodes, nn, s));
                                    assert(nodes@[s] == pre_nodes[s]);
                                    assert forall|tt: int|
                                        0 <= tt < pre_nodes.len() implies (
                                    #[trigger] nodes@[tt]).id@ == pre_nodes[tt].id@ by {
                                        assert(nodes@[tt] == pre_nodes[tt]);
                                    }
                                    lemma_corr_stable(pre_nodes, nodes@, nn, s);
                                }
                                assert forall|c: char|
                                    nfa.character_set@.subrange(0, li as int).contains(c) implies
                                    #[trigger] state_corresponds(nodes@, nn, cur_idx as int, c) by {
                                    assert(state_corresponds(pre_nodes, nn, cur_idx as int, c));
                                    assert(nodes@[cur_idx as int] == pre_nodes[cur_idx as int]);
                                    assert forall|tt: int|
                                        0 <= tt < pre_nodes.len() implies (
                                    #[trigger] nodes@[tt]).id@ == pre_nodes[tt].id@ by {
                                        assert(nodes@[tt] == pre_nodes[tt]);
                                    }
                                    lemma_corr_stable_char(pre_nodes, nodes@, nn, cur_idx as int, c);
                                }
                                assert forall|y: usize|
                                    #[trigger] eclosure.nodes@.contains(y) <==> dfa_state_set(
                                        nodes@,
                                        nn,
                                        cur_idx as int,
                                    ).contains(y) by {
                                    assert(nodes@[cur_idx as int] == pre_nodes[cur_idx as int]);
                                    assert(dfa_state_set(nodes@, nn, cur_idx as int)
                                        == dfa_state_set(pre_nodes, nn, cur_idx as int));
                                }
                            }
                            t
                        },
                    };
                    let ghost mid_nodes = nodes@;
                    nodes[cur_idx].add_edge(literal, target_idx);
                    proof {
                        let cs = nfa.character_set@;
                        let e = DFAEdge { literal, to: target_idx };
                        assert(nodes@[cur_idx as int].edges@ == mid_nodes[cur_idx as int].edges@
                            .push(e));
                        assert(forall|s: int|
                            0 <= s < mid_nodes.len() && s != cur_idx ==> nodes@[s]
                                == mid_nodes[s]);
                        lemma_add_edge_preserves(
                            mid_nodes,
                            nodes@,
                            cur_idx as int,
                            e,
                            cs,
                            li as int,
                        );
                        assert forall|s1: int, s2: int|
                            0 <= s1 < s2 < nodes@.len() implies (#[trigger] nodes@[s1].id@) != (
                        #[trigger] nodes@[s2].id@) by {
                            assert(nodes@[s1].id@ == mid_nodes[s1].id@);
                            assert(nodes@[s2].id@ == mid_nodes[s2].id@);
                        }
                        assert forall|s: int, k: int|
                            0 <= s < nodes@.len() && 0 <= k < nodes@[s].id@.len() implies (((
                        #[trigger] nodes@[s].id@[k]) as nat) < n) by {
                            assert(nodes@[s].id@ == mid_nodes[s].id@);
                        }
                        assert forall|s: int|
                            0 <= s < nodes@.len() implies strictly_sorted(
                            (#[trigger] nodes@[s]).id@,
                        ) && nodes@[s].id@.len() >= 1 by {
                            assert(nodes@[s].id@ == mid_nodes[s].id@);
                        }
                        assert forall|k: int|
                            0 <= k < stack@.len() implies (
                        #[trigger] nodes@[stack@[k].1 as int].edges@.len()) == 0 by {
                            assert(stack@[k].1 != cur_idx);
                            assert(nodes@[stack@[k].1 as int] == mid_nodes[stack@[k].1 as int]);
                        }
                        // identifiers, hence state sets, are untouched by the edge
                        assert forall|s: int|
                            0 <= s < nodes@.len() implies dfa_state_set(nodes@, nn, s)
                            == dfa_state_set(mid_nodes, nn, s) by {
                            assert(nodes@[s].id@ == mid_nodes[s].id@);
                        }
                        assert forall|s: int|
                            0 <= s < nodes@.len() implies ((#[trigger] nodes@[s].is_accepting)
                            <==> has_accepting(nn, dfa_state_set(nodes@, nn, s))) by {
                            assert(nodes@[s].is_accepting == mid_nodes[s].is_accepting);
                            assert(dfa_state_set(nodes@, nn, s) == dfa_state_set(mid_nodes, nn, s));
                        }
                        assert forall|k: int, y: usize|
                            0 <= k < stack@.len() implies ((
                        #[trigger] stack@[k].0.nodes@.contains(y)) <==> dfa_state_set(
                            nodes@,
                            nn,
                            stack@[k].1 as int,
                        ).contains(y)) by {
                            assert(dfa_state_set(nodes@, nn, stack@[k].1 as int)
                                == dfa_state_set(mid_nodes, nn, stack@[k].1 as int));
                        }
                        assert forall|k: int|
                            0 <= k < stack@.len() implies (#[trigger] stack@[k]).0.id@
                            == nodes@[stack@[k].1 as int].id@ by {
                            assert(nodes@[stack@[k].1 as int].id@
                                == mid_nodes[stack@[k].1 as int].id@);
                        }
                        assert forall|s: int|
                            0 <= s < nodes@.len() && s != cur_idx && !on_stack(stack@, s) implies
                            #[trigger] fully_corresponds(nodes@, nn, s) by {
                            assert(fully_corresponds(mid_nodes, nn, s));
                            assert(nodes@[s] == mid_nodes[s]);
                            assert(forall|tt: int|
                                0 <= tt < mid_nodes.len() ==> (#[trigger] nodes@[tt]).id@
                                    == mid_nodes[tt].id@);
                            lemma_corr_stable(mid_nodes, nodes@, nn, s);
                        }
                        // the fresh edge implements the step for this character
                        assert(!cs.subrange(0, li as int).contains(literal)) by {
                            if cs.subrange(0, li as int).contains(literal) {
                                let k = choose|k: int|
                                    0 <= k < li && cs.subrange(0, li as int)[k] == cs[li as int];
                                assert(cs[k] == cs[li as int]);
                            }
                        }
                        assert(forall|j: int|
                            0 <= j < mid_nodes[cur_idx as int].edges@.len() ==> (
                            #[trigger] mid_nodes[cur_idx as int].edges@[j]).literal != literal);
                        lemma_edge_from_push_hit(mid_nodes[cur_idx as int].edges@, e, 0);
                        assert(dfa_edge_from(nodes@[cur_idx as int].edges@, literal, 0) == Some(
                            target_idx,
                        ));
                        assert(state_corresponds(nodes@, nn, cur_idx as int, literal)) by {
                            assert forall|y: usize|
                                #[trigger] nodes@[target_idx as int].id@.contains(y)
                                    <==> move_targets(
                                    nn,
                                    dfa_state_set(nodes@, nn, cur_idx as int),
                                    literal,
                                ).contains(y) by {
                                assert(nodes@[target_idx as int].id@ == mid_nodes[target_idx as int].id@);
                                assert(mid_nodes[target_idx as int].id@.contains(y) <==> key@
                                    .contains(y));
                                assert(key@.contains(y) <==> move_set@.contains(y));
                                assert(move_set@.contains(y) <==> move_targets(
                                    nn,
                                    eclosure.nodes@.to_set(),
                                    literal,
                                ).contains(y));
                                assert(eclosure.nodes@.to_set() =~= dfa_state_set(
                                    nodes@,
                                    nn,
                                    cur_idx as int,
                                )) by {
                                    assert(forall|z: usize|
                                        eclosure.nodes@.to_set().contains(z)
                                            <==> #[trigger] eclosure.nodes@.contains(z));
                                    assert(dfa_state_set(nodes@, nn, cur_idx as int)
                                        == dfa_state_set(pre_nodes, nn, cur_idx as int)) by {
                                        assert(nodes@[cur_idx as int].id@
                                            == pre_nodes[cur_idx as int].id@);
                                    }
                                }
                            }
                        }
                        assert forall|c: char|
                            cs.subrange(0, li + 1 as int).contains(c) implies
                            #[trigger] state_corresponds(nodes@, nn, cur_idx as int, c) by {
                            assert(cs.subrange(0, li + 1 as int) =~= cs.subrange(
                                0,
                                li as int,
                            ).push(cs[li as int]));
                            if c == literal {
                            } else {
                                assert(cs.subrange(0, li as int).contains(c));
                                assert(state_corresponds(pre_nodes, nn, cur_idx as int, c));
                                assert(state_corresponds(mid_nodes, nn, cur_idx as int, c)) by {
                                    if mid_nodes != pre_nodes {
                                        assert(mid_nodes[cur_idx as int]
                                            == pre_nodes[cur_idx as int]);
                                        assert(forall|tt: int|
                                            0 <= tt < pre_nodes.len() ==> (
                                            #[trigger] mid_nodes[tt]).id@ == pre_nodes[tt].id@);
                                        lemma_corr_stable_char(
                                            pre_nodes,
                                            mid_nodes,
                                            nn,
                                            cur_idx as int,
                                            c,
                                        );
                                    }
                                }
                                lemma_edge_from_push_other(
                                    mid_nodes[cur_idx as int].edges@,
                                    e,
                                    c,
                                    0,
                                );
                                assert(dfa_edge_from(nodes@[cur_idx as int].edges@, c, 0)
                                    == dfa_edge_from(mid_nodes[cur_idx as int].edges@, c, 0));
                                assert(dfa_state_set(nodes@, nn, cur_idx as int) == dfa_state_set(
                                    mid_nodes,
                                    nn,
                                    cur_idx as int,
                                ));
                                match dfa_edge_from(mid_nodes[cur_idx as int].edges@, c, 0) {
                                    Some(t2) => {
                                        assert((t2 as int) < mid_nodes.len());
                                        assert(nodes@[t2 as int].id@ == mid_nodes[t2 as int].id@);
                                    },
                                    None => {},
                                }
                            }
                        }
                        assert forall|y: usize|
                            #[trigger] eclosure.nodes@.contains(y) <==> dfa_state_set(
                                nodes@,
                                nn,
                                cur_idx as int,
                            ).contains(y) by {
                            assert(dfa_state_set(nodes@, nn, cur_idx as int) == dfa_state_set(
                                mid_nodes,
                                nn,
                                cur_idx as int,
                            ));
                            assert(dfa_state_set(mid_nodes, nn, cur_idx as int) == dfa_state_set(
                                pre_nodes,
                                nn,
                                cur_idx as int,
                            )) by {
                                assert(mid_nodes[cur_idx as int].id@
                                    == pre_nodes[cur_idx as int].id@);
                            }
                        }
                    }
                } else {
                    proof {
                        let cs = nfa.character_set@;
                        assert(cs.subrange(0, li + 1 as int) =~= cs.subrange(0, li as int).push(
                            cs[li as int],
                        ));
                        // no move: the state keeps no edge for this character
                        assert(!cs.subrange(0, li as int).contains(literal)) by {
                            if cs.subrange(0, li as int).contains(literal) {
                                let k = choose|k: int|
                                    0 <= k < li && cs.subrange(0, li as int)[k] == cs[li as int];
                                assert(cs[k] == cs[li as int]);
                            }
                        }
                        assert(forall|j: int|
                            0 <= j < nodes@[cur_idx as int].edges@.len() ==> (
                            #[trigger] nodes@[cur_idx as int].edges@[j]).literal != literal);
                        lemma_edge_from_none(nodes@[cur_idx as int].edges@, literal, 0);
                        assert(state_corresponds(nodes@, nn, cur_idx as int, literal)) by {
                            assert forall|y: usize|
                                !move_targets(
                                    nn,
                                    dfa_state_set(nodes@, nn, cur_idx as int),
                                    literal,
                                ).contains(y) by {
                                assert(eclosure.nodes@.to_set() =~= dfa_state_set(
                                    nodes@,
                                    nn,
                                    cur_idx as int,
                                )) by {
                                    assert(forall|z: usize|
                                        eclosure.nodes@.to_set().contains(z)
                                            <==> #[trigger] eclosure.nodes@.contains(z));
                                }
                                assert(!move_set@.contains(y));
                            }
                        }
                        assert forall|c: char|
                            cs.subrange(0, li + 1 as int).contains(c) implies
                            #[trigger] state_corresponds(nodes@, nn, cur_idx as int, c) by {}
                    }
                }
                proof {
                    assert(nfa.character_set@.subrange(0, li + 1 as int) =~= nfa.character_set@
                        .subrange(0, li as int).push(nfa.character_set@[li as int]));
                }
                li = li + 1;
            }
            proof {
                let cs = nfa.character_set@;
                assert(cs.subrange(0, cs.len() as int) =~= cs);
                // the state now implements the step for every character: for a
                // character outside the set there is no edge and no move
                assert forall|c: char|
                    #[trigger] state_corresponds(nodes@, nn, cur_idx as int, c) by {
                    if cs.contains(c) {
                        assert(cs.subrange(0, cs.len() as int).contains(c));
                    } else {
                        assert(forall|j: int|
                            0 <= j < nodes@[cur_idx as int].edges@.len() ==> (
                            #[trigger] nodes@[cur_idx as int].edges@[j]).literal != c);
                        lemma_edge_from_none(nodes@[cur_idx as int].edges@, c, 0);
                        lemma_uncovered_char_moves_nowhere(
                            nn,
                            cs,
                            dfa_state_set(nodes@, nn, cur_idx as int),
                            c,
                        );
                    }
                }
                assert(fully_corresponds(nodes@, nn, cur_idx as int));
            }
        }
        proof {
            assert forall|s: int, c: char|
                0 <= s < nodes@.len() implies #[trigger] state_corresponds(nodes@, nn, s, c) by {
                assert(!on_stack(stack@, s)) by {
                    if on_stack(stack@, s) {
                        let k = choose|k: int|
                            0 <= k < stack@.len() && ((#[trigger] stack@[k].1) as int) == s;
                    }
                }
                assert(fully_corresponds(nodes@, nn, s));
            }
        }
        DFA { nodes, start: 0 }
    }

    /// Runs the automaton over the whole input: follow the matching edge for
    /// each character, reject when none exists, and accept exactly when the
    /// final state is accepting.
    pub fn accepts(&self, input: &str) -> (r: bool)
        requires
            dfa_wf(*self),
        ensures
            r == spec_dfa_accepts(*self, input@),
    {
        let len = input.unicode_len();
        let mut current: usize = self.start;
        proof {
            assert(input@.subrange(0, 0) =~= Seq::<char>::empty());
        }
        let mut i: usize = 0;
        while i < len
            invariant
                dfa_wf(*self),
                i <= len,
                len == input@.len(),
                (current as int) < self.nodes@.len(),
                spec_dfa_run(*self, self.start as int, input@.subrange(0, i as int)) == Some(
                    current as int,
                ),
            decreases len - i,
        {
            let c = input.get_char(i);
            let next = self.find_edge(current, c);
            proof {
                assert(input@.subrange(0, i + 1 as int) =~= input@.subrange(0, i as int) + seq![
                    input@[i as int],
                ]);
                lemma_dfa_run_append(
                    *self,
                    self.start as int,
                    input@.subrange(0, i as int),
                    seq![input@[i as int]],
                );
                let single = seq![input@[i as int]];
                assert(single[0] == input@[i as int]);
                assert(single.drop_first() =~= Seq::<char>::empty());
            }
            match next {
                Some(t) => {
                    proof {
                        let single = seq![input@[i as int]];
                        assert(spec_dfa_step(*self, current as int, input@[i as int]) == Some(t));
                        assert(spec_dfa_run(*self, t as int, single.drop_first()) == Some(
                            t as int,
                        ));
                        assert(spec_dfa_run(*self, current as int, single) == Some(t as int));
                    }
                    current = t;
                },
                None => {
                    proof {
                        assert(input@ =~= input@.subrange(0, i as int) + input@.subrange(
                            i as int,
                            len as int,
                        ));
                        lemma_dfa_run_append(
                            *self,
                            self.start as int,
                            input@.subrange(0, i as int),
                            input@.subrange(i as int, len as int),
                        );
                        let rest = input@.subrange(i as int, len as int);
                        assert(rest[0] == input@[i as int]);
                        assert(spec_dfa_run(*self, current as int, rest) is None);
                    }
                    return false;
                },
            }
            i = i + 1;
        }
        assert(input@.subrange(0, len as int) =~= input@);
        self.nodes[current].is_accepting
    }

    /// The target of this state's edge for `c`, if it has one.
    pub(crate) fn find_edge(&self, state: usize, c: char) -> (r: Option<usize>)
        requires
            dfa_wf(*self),
            (state as int) < self.nodes@.len(),
        ensures
            r == spec_dfa_step(*self, state as int, c),
            r matches Some(t) ==> (t as int) < self.nodes@.len(),
    {
        let edges = &self.nodes[state].edges;
        let mut j: usize = 0;
        while j < edges.len()
            invariant
                dfa_wf(*self),
                (state as int) < self.nodes@.len(),
                edges@ == self.nodes@[state as int].edges@,
                j <= edges@.len(),
                dfa_edge_from(edges@, c, 0) == dfa_edge_from(edges@, c, j as int),
            decreases edges@.len() - j,
        {
            if edges[j].literal == c {
                return Some(edges[j].to);
            }
            j = j + 1;
        }
        None
    }
}

} // verus!
