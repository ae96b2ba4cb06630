//! The nondeterministic finite automaton with epsilon transitions: Thompson
//! construction over the syntax tree, epsilon closures, move sets, and the
//! subset simulation that decides acceptance directly on the automaton.

use vstd::prelude::*;
use crate::alphabet::Alphabet;
use crate::ast::{AstNode, ComputeCharacters, RepetitionKind, ast_char_in, ast_wf};
use crate::util::{insert_sorted, lemma_dupfree_bounded_len, push_if_absent, push_if_absent_char,
    merge_chars, strictly_sorted};

verus! {

broadcast use vstd::seq_lib::lemma_seq_contains_after_push;

/// The index of a node in the automaton's arena.
#[derive(Clone, PartialEq, Eq, Copy, Debug, Structural)]
pub struct NFANodeIdx(pub usize);

#[derive(Debug)]
pub enum NFAEdge {
    Epsilon { to: NFANodeIdx },
    Literal { literal: char, to: NFANodeIdx },
}

#[derive(Debug)]
pub struct NFANode {
    pub is_accepting: bool,
    pub edges: Vec<NFAEdge>,
}

/// An automaton: an arena of nodes, a start index, and the set of characters
/// that label any edge.
#[derive(Debug)]
pub struct NFA {
    pub nodes: Vec<NFANode>,
    pub start: NFANodeIdx,
    pub character_set: Vec<char>,
}

/// The epsilon closure of a set of nodes: a canonical identifier derived from
/// the seed set, the closure members, and whether any member is accepting.
pub struct EpsilonClosure {
    pub id: Vec<usize>,
    pub is_accepting: bool,
    pub nodes: Vec<usize>,
}

/// Accumulates nodes, edges and the character set during construction.
pub struct Builder {
    pub nodes: Vec<NFANode>,
    pub character_set: Vec<char>,
    pub start: Option<NFANodeIdx>,
}

pub open spec fn edge_target(e: NFAEdge) -> usize {
    match e {
        NFAEdge::Epsilon { to } => to.0,
        NFAEdge::Literal { literal, to } => to.0,
    }
}

pub open spec fn node_wf(nd: NFANode, n: int) -> bool {
    forall|j: int| 0 <= j < nd.edges@.len() ==> (edge_target(#[trigger] nd.edges@[j]) as int) < n
}

pub open spec fn nodes_wf(nodes: Seq<NFANode>) -> bool {
    forall|i: int| 0 <= i < nodes.len() ==> node_wf(#[trigger] nodes[i], nodes.len() as int)
}

/// Every literal edge label of the automaton occurs in `chars`.
pub open spec fn labels_covered(nodes: Seq<NFANode>, chars: Seq<char>) -> bool {
    forall|i: int, j: int|
        0 <= i < nodes.len() && 0 <= j < nodes[i].edges@.len() ==> ((
        #[trigger] nodes[i].edges@[j]) matches NFAEdge::Literal { literal, to } ==> chars.contains(
            literal,
        ))
}

/// A character outside the character set moves nowhere: no member of any set
/// has a transition on it.
pub proof fn lemma_uncovered_char_moves_nowhere(
    nodes: Seq<NFANode>,
    chars: Seq<char>,
    s: Set<usize>,
    c: char,
)
    requires
        labels_covered(nodes, chars),
        !chars.contains(c),
    ensures
        forall|t: usize| !move_targets(nodes, s, c).contains(t),
{
    assert forall|t: usize| !move_targets(nodes, s, c).contains(t) by {
        if move_targets(nodes, s, c).contains(t) {
            let m = choose|m: usize| #[trigger] s.contains(m) && has_labelled_edge(nodes, m, c, t);
            let j = choose|j: int|
                0 <= j < nodes[m as int].edges@.len() && ((#[trigger] nodes[m as int].edges@[j])
                    matches NFAEdge::Literal { literal, to } && literal == c && to.0 == t);
            assert(nodes[m as int].edges@[j] matches NFAEdge::Literal { literal, to }
                ==> chars.contains(literal));
        }
    }
}

/// The first transition out of `nd` labelled `literal`, scanning edges from
/// position `j` on.
pub open spec fn find_transition_from(edges: Seq<NFAEdge>, literal: char, j: int) -> Option<usize>
    decreases edges.len() - j,
{
    if 0 <= j < edges.len() {
        match edges[j] {
            NFAEdge::Literal { literal: l, to } => if l == literal {
                Some(to.0)
            } else {
                find_transition_from(edges, literal, j + 1)
            },
            NFAEdge::Epsilon { to } => find_transition_from(edges, literal, j + 1),
        }
    } else {
        None
    }
}

pub open spec fn spec_find_transition(nd: NFANode, literal: char) -> Option<usize> {
    find_transition_from(nd.edges@, literal, 0)
}

pub proof fn lemma_find_transition_in_range(edges: Seq<NFAEdge>, literal: char, j: int, n: int)
    requires
        forall|k: int| 0 <= k < edges.len() ==> (edge_target(#[trigger] edges[k]) as int) < n,
        find_transition_from(edges, literal, j) is Some,
    ensures
        (find_transition_from(edges, literal, j).unwrap() as int) < n,
    decreases edges.len() - j,
{
    if 0 <= j < edges.len() {
        match edges[j] {
            NFAEdge::Literal { literal: l, to } => if l == literal {
            } else {
                lemma_find_transition_in_range(edges, literal, j + 1, n);
            },
            NFAEdge::Epsilon { to } => {
                lemma_find_transition_in_range(edges, literal, j + 1, n);
            },
        }
    }
}

/// An epsilon edge from `a` to `b`.
pub open spec fn is_eps_edge(nodes: Seq<NFANode>, a: usize, b: usize) -> bool {
    (a as int) < nodes.len() && exists|j: int|
        0 <= j < nodes[a as int].edges@.len() && ((#[trigger] nodes[a as int].edges@[j]) matches
            NFAEdge::Epsilon { to } && to.0 == b)
}

/// A path of epsilon edges from some member of `seed` to its last node.
pub open spec fn is_eps_path(nodes: Seq<NFANode>, p: Seq<usize>, seed: Set<usize>, t: usize) -> bool {
    p.len() >= 1 && seed.contains(p[0]) && p[p.len() - 1] == t && forall|k: int|
        0 <= k < p.len() - 1 ==> is_eps_edge(nodes, #[trigger] p[k], p[k + 1])
}

/// Membership in the epsilon closure of `seed`.
pub open spec fn eps_reachable(nodes: Seq<NFANode>, seed: Set<usize>, t: usize) -> bool {
    exists|p: Seq<usize>| is_eps_path(nodes, p, seed, t)
}

/// The epsilon closure of `seed`: everything an epsilon path reaches.
pub open spec fn closure_of(nodes: Seq<NFANode>, seed: Set<usize>) -> Set<usize> {
    Set::new(|t: usize| eps_reachable(nodes, seed, t))
}

/// A labelled edge from `m` to `t` on `c`.
pub open spec fn has_labelled_edge(nodes: Seq<NFANode>, m: usize, c: char, t: usize) -> bool {
    (m as int) < nodes.len() && exists|j: int|
        0 <= j < nodes[m as int].edges@.len() && ((#[trigger] nodes[m as int].edges@[j]) matches
            NFAEdge::Literal { literal, to } && literal == c && to.0 == t)
}

/// The move set: the targets of every edge labelled `c` out of a member of
/// `s`.
pub open spec fn move_targets(nodes: Seq<NFANode>, s: Set<usize>, c: char) -> Set<usize> {
    Set::new(|t: usize| exists|m: usize| #[trigger] s.contains(m) && has_labelled_edge(nodes, m, c, t))
}

/// No node carries two edges with one label; the construction keeps this, and
/// under it a node's first matching edge is its only one.
pub open spec fn node_label_deterministic(nd: NFANode) -> bool {
    forall|j1: int, j2: int|
        0 <= j1 < nd.edges@.len() && 0 <= j2 < nd.edges@.len() && j1 != j2 ==> (match (
        #[trigger] nd.edges@[j1],
        #[trigger] nd.edges@[j2],
        ) {
            (
                NFAEdge::Literal { literal: l1, to: t1 },
                NFAEdge::Literal { literal: l2, to: t2 },
            ) => l1 != l2,
            _ => true,
        })
}

/// Whether the node already has an edge labelled `c`.
pub open spec fn node_has_label(nd: NFANode, c: char) -> bool {
    exists|j: int|
        0 <= j < nd.edges@.len() && ((#[trigger] nd.edges@[j]) matches NFAEdge::Literal {
            literal,
            to,
        } && literal == c)
}

pub open spec fn labels_deterministic(nodes: Seq<NFANode>) -> bool {
    forall|i: int| 0 <= i < nodes.len() ==> node_label_deterministic(#[trigger] nodes[i])
}

/// How many fresh node pairs the construction allocates for a tree: one pair
/// per node except concatenations, which allocate none.
pub open spec fn ast_alloc_count(node: AstNode) -> nat
    decreases node,
{
    match node {
        AstNode::Alternation(b) => 1 + ast_alloc_count(*b.left) + ast_alloc_count(*b.right),
        AstNode::Concat(b) => ast_alloc_count(*b.left) + ast_alloc_count(*b.right),
        AstNode::Repetition(b) => 1 + ast_alloc_count(*b.child),
        _ => 1,
    }
}

/// Some node carries an edge labelled `c`.
pub open spec fn char_has_edge(nodes: Seq<NFANode>, c: char) -> bool {
    exists|i: int| 0 <= i < nodes.len() && node_has_label(#[trigger] nodes[i], c)
}

proof fn lemma_edge_push_index(s: Seq<NFAEdge>, v: NFAEdge, j: int)
    requires
        0 <= j <= s.len(),
    ensures
        j < s.len() ==> s.push(v)[j] == s[j],
        j == s.len() ==> s.push(v)[j] == v,
{
}

/// Appending one edge to one node keeps every labelled edge there is.
proof fn lemma_connect_keeps_labels(pre: Seq<NFANode>, post: Seq<NFANode>, at: int, edge: NFAEdge)
    requires
        0 <= at < pre.len(),
        post.len() == pre.len(),
        forall|i: int| 0 <= i < pre.len() && i != at ==> post[i] == pre[i],
        post[at].edges@ == pre[at].edges@.push(edge),
    ensures
        forall|c: char| #[trigger] char_has_edge(pre, c) ==> char_has_edge(post, c),
{
    assert forall|c: char| #[trigger] char_has_edge(pre, c) implies char_has_edge(post, c) by {
        let i = choose|i: int| 0 <= i < pre.len() && node_has_label(#[trigger] pre[i], c);
        if i != at {
            assert(post[i] == pre[i]);
            assert(node_has_label(post[i], c));
        } else {
            let j = choose|j: int|
                0 <= j < pre[at].edges@.len() && ((#[trigger] pre[at].edges@[j]) matches
                    NFAEdge::Literal { literal, to } && literal == c);
            lemma_edge_push_index(pre[at].edges@, edge, j);
            assert(post[at].edges@[j] == pre[at].edges@[j]);
            assert(node_has_label(post[at], c));
        }
    }
}

/// Every edge is a labelled edge whose label lies in `chars`.
pub open spec fn edges_labels_in(edges: Seq<NFAEdge>, chars: Seq<char>) -> bool {
    forall|j: int|
        0 <= j < edges.len() ==> ((#[trigger] edges[j]) matches NFAEdge::Literal { literal, to }
            && chars.contains(literal))
}

/// The next character of a duplicate-free list labels no edge yet.
proof fn lemma_fresh_label(nd: NFANode, chars: Seq<char>, i: int)
    requires
        0 <= i < chars.len(),
        chars.no_duplicates(),
        edges_labels_in(nd.edges@, chars.subrange(0, i)),
    ensures
        !node_has_label(nd, chars[i]),
{
    if node_has_label(nd, chars[i]) {
        let j = choose|j: int|
            0 <= j < nd.edges@.len() && ((#[trigger] nd.edges@[j]) matches NFAEdge::Literal {
                literal,
                to,
            } && literal == chars[i]);
        assert(nd.edges@[j] matches NFAEdge::Literal { literal, to } && chars.subrange(
            0,
            i,
        ).contains(literal));
        let k = choose|k: int| 0 <= k < i && chars.subrange(0, i)[k] == chars[i];
        assert(chars[k] == chars[i]);
    }
}

/// Appending an edge labelled with the next character keeps all labels inside
/// the grown prefix.
proof fn lemma_alteration_step(
    pre: Seq<NFAEdge>,
    post: Seq<NFAEdge>,
    c: char,
    to: NFANodeIdx,
    chars: Seq<char>,
    i: int,
)
    requires
        0 <= i < chars.len(),
        c == chars[i],
        post == pre.push(NFAEdge::Literal { literal: c, to }),
        edges_labels_in(pre, chars.subrange(0, i)),
    ensures
        edges_labels_in(post, chars.subrange(0, i + 1)),
{
    assert(chars.subrange(0, i + 1) =~= chars.subrange(0, i).push(chars[i]));
    assert forall|j: int|
        0 <= j < post.len() implies ((#[trigger] post[j]) matches NFAEdge::Literal { literal, to }
            && chars.subrange(0, i + 1).contains(literal)) by {
        if j < pre.len() {
            assert(post[j] == pre[j]);
            assert(pre[j] matches NFAEdge::Literal { literal, to } && chars.subrange(
                0,
                i,
            ).contains(literal));
        } else {
            assert(post[j] == NFAEdge::Literal { literal: c, to });
            assert(chars.subrange(0, i + 1).contains(chars[i]));
        }
    }
}

/// A found transition is a labelled edge.
proof fn lemma_find_transition_sound(nd: NFANode, c: char, j: int, t: usize)
    requires
        find_transition_from(nd.edges@, c, j) == Some(t),
        0 <= j,
    ensures
        exists|jj: int|
            j <= jj < nd.edges@.len() && ((#[trigger] nd.edges@[jj]) matches NFAEdge::Literal {
                literal,
                to,
            } && literal == c && to.0 == t),
    decreases nd.edges@.len() - j,
{
    if j < nd.edges@.len() {
        match nd.edges@[j] {
            NFAEdge::Literal { literal: l, to } => if l == c {
                assert((nd.edges@[j]) matches NFAEdge::Literal { literal, to: tt } && literal == c
                    && tt.0 == t);
            } else {
                lemma_find_transition_sound(nd, c, j + 1, t);
            },
            NFAEdge::Epsilon { to } => {
                lemma_find_transition_sound(nd, c, j + 1, t);
            },
        }
    }
}

/// Under label determinism the scan finds the one labelled edge there is.
proof fn lemma_find_transition_complete(nd: NFANode, c: char, j: int, je: int, t: usize)
    requires
        node_label_deterministic(nd),
        0 <= j <= je < nd.edges@.len(),
        nd.edges@[je] matches NFAEdge::Literal { literal, to } && literal == c && to.0 == t,
    ensures
        find_transition_from(nd.edges@, c, j) == Some(t),
    decreases nd.edges@.len() - j,
{
    match nd.edges@[j] {
        NFAEdge::Literal { literal: l, to } => if l == c {
            assert(j == je);
        } else {
            assert(j != je);
            lemma_find_transition_complete(nd, c, j + 1, je, t);
        },
        NFAEdge::Epsilon { to } => {
            assert(j != je);
            lemma_find_transition_complete(nd, c, j + 1, je, t);
        },
    }
}

/// One simulation step: move on `c`, then close under epsilon edges.
pub open spec fn step_state(nodes: Seq<NFANode>, s: Set<usize>, c: char) -> Set<usize> {
    closure_of(nodes, move_targets(nodes, s, c))
}

/// The state set after consuming `input`, starting from state set `s`.
pub open spec fn spec_nfa_run(nodes: Seq<NFANode>, s: Set<usize>, input: Seq<char>) -> Set<usize>
    decreases input.len(),
{
    if input.len() == 0 {
        s
    } else {
        spec_nfa_run(nodes, step_state(nodes, s, input[0]), input.drop_first())
    }
}

/// `e` is the only accepting node.
pub open spec fn exactly_one_accepting(nodes: Seq<NFANode>, e: int) -> bool {
    forall|i: int| 0 <= i < nodes.len() ==> ((#[trigger] nodes[i].is_accepting) <==> i == e)
}

pub open spec fn has_accepting(nodes: Seq<NFANode>, s: Set<usize>) -> bool {
    exists|t: usize| #[trigger] s.contains(t) && (t as int) < nodes.len() && nodes[t as int].is_accepting
}

/// The state set a simulation starts from: the closure of the start node.
pub open spec fn start_state(nfa: NFA) -> Set<usize> {
    closure_of(nfa.nodes@, Set::empty().insert(nfa.start.0))
}

/// Whether the automaton accepts `input` under subset simulation.
pub open spec fn spec_nfa_accepts(nfa: NFA, input: Seq<char>) -> bool {
    has_accepting(nfa.nodes@, spec_nfa_run(nfa.nodes@, start_state(nfa), input))
}

/// A set reachable in one step stays reachable after one more epsilon edge.
proof fn lemma_eps_reachable_step(nodes: Seq<NFANode>, seed: Set<usize>, m: usize, b: usize)
    requires
        eps_reachable(nodes, seed, m),
        is_eps_edge(nodes, m, b),
    ensures
        eps_reachable(nodes, seed, b),
{
    let p = choose|p: Seq<usize>| is_eps_path(nodes, p, seed, m);
    let q = p.push(b);
    assert(q[q.len() - 1] == b);
    assert(q[0] == p[0]);
    assert forall|k: int| 0 <= k < q.len() - 1 implies is_eps_edge(nodes, #[trigger] q[k], q[k + 1]) by {
        if k < p.len() - 1 {
            assert(is_eps_edge(nodes, p[k], p[k + 1]));
        } else {
            assert(q[k] == p[p.len() - 1] && q[k + 1] == b);
        }
    }
    assert(is_eps_path(nodes, q, seed, b));
}

proof fn lemma_eps_reachable_base(nodes: Seq<NFANode>, seed: Set<usize>, t: usize)
    requires
        seed.contains(t),
    ensures
        eps_reachable(nodes, seed, t),
{
    let p = seq![t];
    assert(is_eps_path(nodes, p, seed, t));
}

/// A set that contains the seed and is closed under epsilon edges contains the
/// whole closure; by induction over the path.
proof fn lemma_closed_contains_path(
    nodes: Seq<NFANode>,
    members: Seq<usize>,
    seed: Set<usize>,
    p: Seq<usize>,
)
    requires
        forall|y: usize| seed.contains(y) ==> members.contains(y),
        forall|m: usize, b: usize|
            #[trigger] members.contains(m) && is_eps_edge(nodes, m, b) ==> #[trigger] members.contains(b),
        p.len() >= 1,
        seed.contains(p[0]),
        forall|k: int| 0 <= k < p.len() - 1 ==> is_eps_edge(nodes, #[trigger] p[k], p[k + 1]),
    ensures
        members.contains(p[p.len() - 1]),
    decreases p.len(),
{
    if p.len() == 1 {
    } else {
        let q = p.drop_last();
        assert(q[0] == p[0]);
        assert forall|k: int| 0 <= k < q.len() - 1 implies is_eps_edge(nodes, #[trigger] q[k], q[k + 1]) by {
            assert(is_eps_edge(nodes, p[k], p[k + 1]));
        }
        lemma_closed_contains_path(nodes, members, seed, q);
        assert(members.contains(p[p.len() - 2]));
        assert(is_eps_edge(nodes, p[p.len() - 2], p[p.len() - 1]));
    }
}

/// Running from a state set without members stays without members.
pub(crate) proof fn lemma_run_of_empty(nodes: Seq<NFANode>, s: Set<usize>, input: Seq<char>)
    requires
        forall|t: usize| !s.contains(t),
    ensures
        forall|t: usize| !spec_nfa_run(nodes, s, input).contains(t),
    decreases input.len(),
{
    if input.len() == 0 {
    } else {
        let m = move_targets(nodes, s, input[0]);
        assert(forall|t: usize| !m.contains(t));
        let cl = closure_of(nodes, m);
        assert forall|t: usize| !cl.contains(t) by {
            if eps_reachable(nodes, m, t) {
                let p = choose|p: Seq<usize>| is_eps_path(nodes, p, m, t);
                assert(m.contains(p[0]));
            }
        }
        lemma_run_of_empty(nodes, cl, input.drop_first());
        assert(spec_nfa_run(nodes, s, input) == spec_nfa_run(nodes, cl, input.drop_first()));
    }
}

/// Two state sets with the same members hold an accepting node together.
pub(crate) proof fn lemma_has_accepting_congruence(nodes: Seq<NFANode>, s1: Set<usize>, s2: Set<usize>)
    requires
        forall|t: usize| #[trigger] s1.contains(t) <==> #[trigger] s2.contains(t),
    ensures
        has_accepting(nodes, s1) <==> has_accepting(nodes, s2),
{
    if has_accepting(nodes, s1) {
        let t = choose|t: usize|
            #[trigger] s1.contains(t) && (t as int) < nodes.len() && nodes[t as int].is_accepting;
        assert(s2.contains(t));
    }
    if has_accepting(nodes, s2) {
        let t = choose|t: usize|
            #[trigger] s2.contains(t) && (t as int) < nodes.len() && nodes[t as int].is_accepting;
        assert(s1.contains(t));
    }
}

/// Running over `a + b` is running over `a`, then over `b`.
proof fn lemma_run_append(nodes: Seq<NFANode>, s: Set<usize>, a: Seq<char>, b: Seq<char>)
    ensures
        spec_nfa_run(nodes, s, a + b) == spec_nfa_run(nodes, spec_nfa_run(nodes, s, a), b),
    decreases a.len(),
{
    if a.len() == 0 {
        assert(a + b =~= b);
        assert(spec_nfa_run(nodes, s, a) == s);
    } else {
        assert((a + b)[0] == a[0]);
        assert((a + b).drop_first() =~= a.drop_first() + b);
        lemma_run_append(nodes, step_state(nodes, s, a[0]), a.drop_first(), b);
    }
}

impl NFAEdge {
    pub fn to(&self) -> (r: NFANodeIdx)
        ensures
            r.0 == edge_target(*self),
    {
        match self {
            NFAEdge::Epsilon { to } => *to,
            NFAEdge::Literal { to, .. } => *to,
        }
    }
}

impl NFANode {
    pub fn new() -> (r: Self)
        ensures
            r.is_accepting == false,
            r.edges@ =~= Seq::<NFAEdge>::empty(),
    {
        NFANode { is_accepting: false, edges: Vec::new() }
    }

    pub fn add_edge(&mut self, edge: NFAEdge)
        ensures
            final(self).is_accepting == old(self).is_accepting,
            final(self).edges@ == old(self).edges@.push(edge),
    {
        self.edges.push(edge);
    }

    pub(crate) fn mark_accepting(&mut self)
        ensures
            final(self).is_accepting == true,
            final(self).edges@ == old(self).edges@,
    {
        self.is_accepting = true;
    }

    /// The target of the first edge out of this node labelled `literal`, if
    /// any.
    pub fn find_transition(&self, literal: char) -> (r: Option<NFANodeIdx>)
        ensures
            match r {
                Some(idx) => spec_find_transition(*self, literal) == Some(idx.0),
                None => spec_find_transition(*self, literal) is None,
            },
    {
        let mut j: usize = 0;
        while j < self.edges.len()
            invariant
                j <= self.edges@.len(),
                find_transition_from(self.edges@, literal, 0) == find_transition_from(
                    self.edges@,
                    literal,
                    j as int,
                ),
            decreases self.edges@.len() - j,
        {
            match &self.edges[j] {
                NFAEdge::Literal { literal: l, to } => {
                    if *l == literal {
                        return Some(*to);
                    }
                },
                _ => {},
            }
            j = j + 1;
        }
        None
    }
}

impl EpsilonClosure {
    pub fn new(id: Vec<usize>, nodes: Vec<usize>, is_accepting: bool) -> (r: Self)
        ensures
            r.id == id,
            r.nodes == nodes,
            r.is_accepting == is_accepting,
    {
        EpsilonClosure { id, is_accepting, nodes }
    }

    /// The canonical identifier of a set of node indices: its members in
    /// strictly ascending order.
    pub fn id_for_set(set: &Vec<usize>) -> (r: Vec<usize>)
        ensures
            strictly_sorted(r@),
            forall|y: usize| #[trigger] r@.contains(y) <==> set@.contains(y),
    {
        let mut r: Vec<usize> = Vec::new();
        let mut i: usize = 0;
        while i < set.len()
            invariant
                i <= set@.len(),
                strictly_sorted(r@),
                forall|y: usize| #[trigger] r@.contains(y) <==> set@.subrange(0, i as int).contains(y),
            decreases set@.len() - i,
        {
            let ghost pre = r@;
            let x = set[i];
            insert_sorted(&mut r, x);
            assert(set@.subrange(0, i + 1 as int) =~= set@.subrange(0, i as int).push(
                set@[i as int],
            ));
            assert forall|y: usize|
                #[trigger] r@.contains(y) <==> set@.subrange(0, i + 1 as int).contains(y) by {
                assert(set@.subrange(0, i + 1 as int).contains(y) <==> set@.subrange(
                    0,
                    i as int,
                ).contains(y) || y == set@[i as int]);
            }
            i = i + 1;
        }
        assert(set@.subrange(0, set@.len() as int) =~= set@);
        r
    }
}

/// Well-formedness of a closure value against an automaton of `n` nodes.
pub open spec fn closure_wf(ec: EpsilonClosure, n: int) -> bool {
    &&& ec.nodes@.no_duplicates()
    &&& forall|k: int| 0 <= k < ec.nodes@.len() ==> (#[trigger] ec.nodes@[k] as int) < n
    &&& strictly_sorted(ec.id@)
    &&& forall|y: usize| #[trigger] ec.id@.contains(y) ==> ec.nodes@.contains(y)
}

/// Every index in a closure's identifier is an index of the automaton.
pub proof fn lemma_closure_id_bounded(ec: EpsilonClosure, n: int)
    requires
        closure_wf(ec, n),
    ensures
        forall|k: int| 0 <= k < ec.id@.len() ==> ((#[trigger] ec.id@[k]) as int) < n,
{
    assert forall|k: int| 0 <= k < ec.id@.len() implies ((#[trigger] ec.id@[k]) as int) < n by {
        assert(ec.id@.contains(ec.id@[k]));
        assert(ec.nodes@.contains(ec.id@[k]));
        let m = choose|m: int| 0 <= m < ec.nodes@.len() && ec.nodes@[m] == ec.id@[k];
    }
}

impl NFA {
    pub open spec fn wf(self) -> bool {
        &&& nodes_wf(self.nodes@)
        &&& (self.start.0 as int) < self.nodes@.len()
        &&& self.character_set@.no_duplicates()
        &&& labels_covered(self.nodes@, self.character_set@)
        &&& labels_deterministic(self.nodes@)
    }

    /// Thompson construction over a well-formed tree. The character set of the
    /// automaton is exactly the set of characters the tree mentions after
    /// class expansion, and exactly one node is accepting.
    pub fn from_ast(root: &AstNode) -> (r: Self)
        requires
            ast_wf(*root),
        ensures
            r.wf(),
            forall|c: char| #[trigger] r.character_set@.contains(c) <==> ast_char_in(*root, c),
            forall|c: char|
                #[trigger] r.character_set@.contains(c) ==> char_has_edge(r.nodes@, c),
            r.nodes@.len() == 2 * ast_alloc_count(*root),
            exists|e: int| 0 <= e < r.nodes@.len() && #[trigger] exactly_one_accepting(r.nodes@, e),
    {
        let mut builder = Builder::new();
        builder.from_ast(root);
        builder.build()
    }

    /// Subset simulation: step the closure of the start node through the
    /// input; reject as soon as no move is possible; accept when the final
    /// state set holds an accepting node.
    pub fn accepts(&self, input: &str) -> (r: bool)
        requires
            self.wf(),
        ensures
            r == spec_nfa_accepts(*self, input@),
    {
        let len = input.unicode_len();
        let mut current = self.epsilon_closure(self.start);
        proof {
            assert(Set::empty().insert(self.start.0) =~= seq![self.start.0].to_set());
            assert(input@.subrange(0, 0) =~= Seq::<char>::empty());
            assert(spec_nfa_run(self.nodes@, start_state(*self), input@.subrange(0, 0))
                == start_state(*self));
            assert forall|t: usize|
                #[trigger] current.nodes@.contains(t) <==> start_state(*self).contains(t) by {
                assert(current.nodes@.contains(t) <==> eps_reachable(
                    self.nodes@,
                    seq![self.start.0].to_set(),
                    t,
                ));
            }
            lemma_has_accepting_congruence(
                self.nodes@,
                current.nodes@.to_set(),
                start_state(*self),
            );
        }
        let mut i: usize = 0;
        while i < len
            invariant
                self.wf(),
                i <= len,
                len == input@.len(),
                closure_wf(current, self.nodes@.len() as int),
                forall|t: usize|
                    #[trigger] current.nodes@.contains(t) <==> spec_nfa_run(
                        self.nodes@,
                        start_state(*self),
                        input@.subrange(0, i as int),
                    ).contains(t),
                current.is_accepting <==> has_accepting(
                    self.nodes@,
                    spec_nfa_run(self.nodes@, start_state(*self), input@.subrange(0, i as int)),
                ),
            decreases len - i,
        {
            let ghost run_i = spec_nfa_run(
                self.nodes@,
                start_state(*self),
                input@.subrange(0, i as int),
            );
            let c = input.get_char(i);
            let move_set = self.compute_move_set(&current, c);
            proof {
                assert(input@.subrange(0, i + 1 as int) =~= input@.subrange(0, i as int).push(
                    input@[i as int],
                ));
                lemma_run_append(
                    self.nodes@,
                    start_state(*self),
                    input@.subrange(0, i as int),
                    seq![input@[i as int]],
                );
                assert(input@.subrange(0, i as int) + seq![input@[i as int]] =~= input@.subrange(
                    0,
                    i + 1 as int,
                ));
                // one step over a single character
                assert(spec_nfa_run(self.nodes@, run_i, seq![input@[i as int]]) == step_state(
                    self.nodes@,
                    run_i,
                    input@[i as int],
                )) by {
                    let single = seq![input@[i as int]];
                    let stepped = step_state(self.nodes@, run_i, input@[i as int]);
                    assert(single[0] == input@[i as int]);
                    assert(single.drop_first() =~= Seq::<char>::empty());
                    assert(spec_nfa_run(self.nodes@, stepped, Seq::<char>::empty()) == stepped);
                    assert(spec_nfa_run(self.nodes@, run_i, single) == spec_nfa_run(
                        self.nodes@,
                        stepped,
                        single.drop_first(),
                    ));
                }
                assert(move_targets(self.nodes@, current.nodes@.to_set(), c) =~= move_targets(
                    self.nodes@,
                    run_i,
                    c,
                )) by {
                    assert forall|t: usize|
                        move_targets(self.nodes@, current.nodes@.to_set(), c).contains(t)
                            <==> move_targets(self.nodes@, run_i, c).contains(t) by {
                        if move_targets(self.nodes@, current.nodes@.to_set(), c).contains(t) {
                            let m = choose|m: usize|
                                #[trigger] current.nodes@.to_set().contains(m) && has_labelled_edge(
                                    self.nodes@,
                                    m,
                                    c,
                                    t,
                                );
                            assert(run_i.contains(m));
                        }
                        if move_targets(self.nodes@, run_i, c).contains(t) {
                            let m = choose|m: usize|
                                #[trigger] run_i.contains(m) && has_labelled_edge(
                                    self.nodes@,
                                    m,
                                    c,
                                    t,
                                );
                            assert(current.nodes@.to_set().contains(m));
                        }
                    }
                }
            }
            if move_set.len() == 0 {
                proof {
                    let mt = move_targets(self.nodes@, run_i, c);
                    assert forall|t: usize| !mt.contains(t) by {
                        if mt.contains(t) {
                            assert(move_set@.contains(t));
                            let k = choose|k: int|
                                0 <= k < move_set@.len() && move_set@[k] == t;
                        }
                    }
                    let cl = closure_of(self.nodes@, mt);
                    assert forall|t: usize| !cl.contains(t) by {
                        if eps_reachable(self.nodes@, mt, t) {
                            let p = choose|p: Seq<usize>| is_eps_path(self.nodes@, p, mt, t);
                            assert(mt.contains(p[0]));
                        }
                    }
                    assert(input@ =~= input@.subrange(0, i as int) + input@.subrange(
                        i as int,
                        len as int,
                    ));
                    lemma_run_append(
                        self.nodes@,
                        start_state(*self),
                        input@.subrange(0, i as int),
                        input@.subrange(i as int, len as int),
                    );
                    let rest = input@.subrange(i as int, len as int);
                    assert(rest.len() >= 1);
                    assert(rest[0] == input@[i as int]);
                    assert(spec_nfa_run(self.nodes@, run_i, rest) == spec_nfa_run(
                        self.nodes@,
                        step_state(self.nodes@, run_i, rest[0]),
                        rest.drop_first(),
                    ));
                    lemma_run_of_empty(self.nodes@, cl, rest.drop_first());
                    assert(!spec_nfa_accepts(*self, input@));
                }
                return false;
            }
            let next = self.epsilon_closure_set(move_set);
            proof {
                let run_next = spec_nfa_run(
                    self.nodes@,
                    start_state(*self),
                    input@.subrange(0, i + 1 as int),
                );
                assert(run_next == step_state(self.nodes@, run_i, input@[i as int]));
                let mt = move_targets(self.nodes@, run_i, c);
                assert forall|t: usize|
                    #[trigger] next.nodes@.contains(t) <==> run_next.contains(t) by {
                    assert(next.nodes@.contains(t) <==> eps_reachable(
                        self.nodes@,
                        move_set@.to_set(),
                        t,
                    ));
                    assert(move_set@.to_set() =~= mt);
                }
                lemma_has_accepting_congruence(self.nodes@, next.nodes@.to_set(), run_next);
            }
            current = next;
            i = i + 1;
        }
        assert(input@.subrange(0, len as int) =~= input@);
        current.is_accepting
    }

    pub fn start(&self) -> (r: NFANodeIdx)
        ensures
            r == self.start,
    {
        self.start
    }

    pub fn node(&self, idx: NFANodeIdx) -> (r: &NFANode)
        requires
            (idx.0 as int) < self.nodes@.len(),
        ensures
            *r == self.nodes@[idx.0 as int],
    {
        &self.nodes[idx.0]
    }

    /// The characters that label any edge of the automaton.
    pub fn character_set_iter(&self) -> (r: &Vec<char>)
        ensures
            r@ == self.character_set@,
    {
        &self.character_set
    }

    /// The epsilon closure of a single node.
    pub fn epsilon_closure(&self, node: NFANodeIdx) -> (r: EpsilonClosure)
        requires
            self.wf(),
            (node.0 as int) < self.nodes@.len(),
        ensures
            closure_wf(r, self.nodes@.len() as int),
            forall|t: usize|
                #[trigger] r.nodes@.contains(t) <==> eps_reachable(
                    self.nodes@,
                    seq![node.0].to_set(),
                    t,
                ),
            r.is_accepting <==> has_accepting(self.nodes@, r.nodes@.to_set()),
            forall|y: usize| #[trigger] r.id@.contains(y) <==> seq![node.0].contains(y),
    {
        let mut seed: Vec<usize> = Vec::new();
        seed.push(node.0);
        assert(seed@ =~= seq![node.0]);
        self.epsilon_closure_set(seed)
    }

    /// The epsilon closure of a set of nodes, by worklist saturation.
    pub fn epsilon_closure_set(&self, node_set: Vec<usize>) -> (r: EpsilonClosure)
        requires
            self.wf(),
            forall|k: int| 0 <= k < node_set@.len() ==> (#[trigger] node_set@[k] as int)
                < self.nodes@.len(),
        ensures
            closure_wf(r, self.nodes@.len() as int),
            forall|t: usize|
                #[trigger] r.nodes@.contains(t) <==> eps_reachable(
                    self.nodes@,
                    node_set@.to_set(),
                    t,
                ),
            r.is_accepting <==> has_accepting(self.nodes@, r.nodes@.to_set()),
            forall|y: usize| #[trigger] r.id@.contains(y) <==> node_set@.contains(y),
    {
        let n = self.nodes.len();
        let id = EpsilonClosure::id_for_set(&node_set);
        let mut closure: Vec<usize> = Vec::new();
        let mut s: usize = 0;
        while s < node_set.len()
            invariant
                self.wf(),
                s <= node_set@.len(),
                forall|k: int| 0 <= k < node_set@.len() ==> (#[trigger] node_set@[k] as int)
                    < self.nodes@.len(),
                closure@.no_duplicates(),
                forall|k: int| 0 <= k < closure@.len() ==> (#[trigger] closure@[k] as int)
                    < self.nodes@.len(),
                forall|y: usize|
                    #[trigger] closure@.contains(y) <==> node_set@.subrange(0, s as int).contains(y),
            decreases node_set@.len() - s,
        {
            let ghost pre = closure@;
            let x = node_set[s];
            push_if_absent(&mut closure, x);
            assert(node_set@.subrange(0, s + 1 as int) =~= node_set@.subrange(0, s as int).push(
                node_set@[s as int],
            ));
            assert forall|y: usize|
                #[trigger] closure@.contains(y) <==> node_set@.subrange(0, s + 1 as int).contains(
                    y,
                ) by {
                assert(closure@.contains(y) <==> pre.contains(y) || y == x);
                assert(node_set@.subrange(0, s + 1 as int).contains(y) <==> node_set@.subrange(
                    0,
                    s as int,
                ).contains(y) || y == node_set@[s as int]);
            }
            s = s + 1;
        }
        assert(node_set@.subrange(0, node_set@.len() as int) =~= node_set@);
        let ghost seed = node_set@.to_set();
        proof {
            assert forall|k: int|
                0 <= k < closure@.len() implies eps_reachable(
                self.nodes@,
                seed,
                #[trigger] closure@[k],
            ) by {
                assert(closure@.contains(closure@[k]));
                assert(node_set@.contains(closure@[k]));
                lemma_eps_reachable_base(self.nodes@, seed, closure@[k]);
            }
            lemma_dupfree_bounded_len(closure@, self.nodes@.len() as nat);
        }
        let mut p: usize = 0;
        while p < closure.len()
            invariant
                self.wf(),
                seed == node_set@.to_set(),
                p <= closure@.len(),
                closure@.len() <= self.nodes@.len(),
                closure@.no_duplicates(),
                forall|k: int| 0 <= k < closure@.len() ==> (#[trigger] closure@[k] as int)
                    < self.nodes@.len(),
                forall|y: usize| node_set@.contains(y) ==> #[trigger] closure@.contains(y),
                forall|k: int|
                    0 <= k < closure@.len() ==> eps_reachable(
                        self.nodes@,
                        seed,
                        #[trigger] closure@[k],
                    ),
                forall|k: int, j: int|
                    0 <= k < p && 0 <= j < self.nodes@[closure@[k] as int].edges@.len() ==> ((
                    #[trigger] self.nodes@[closure@[k] as int].edges@[j]) matches NFAEdge::Epsilon {
                        to,
                    } ==> closure@.contains(to.0)),
            decreases self.nodes@.len() - p,
        {
            proof {
                lemma_dupfree_bounded_len(closure@, self.nodes@.len() as nat);
            }
            let idx = closure[p];
            let edge_count = self.nodes[idx].edges.len();
            let mut j: usize = 0;
            while j < edge_count
                invariant
                    self.wf(),
                    seed == node_set@.to_set(),
                    p < closure@.len(),
                    closure@[p as int] == idx,
                    (idx as int) < self.nodes@.len(),
                    edge_count == self.nodes@[idx as int].edges@.len(),
                    j <= edge_count,
                    closure@.no_duplicates(),
                    closure@.len() <= self.nodes@.len(),
                    forall|k: int| 0 <= k < closure@.len() ==> (#[trigger] closure@[k] as int)
                        < self.nodes@.len(),
                    forall|y: usize| node_set@.contains(y) ==> #[trigger] closure@.contains(y),
                    forall|k: int|
                        0 <= k < closure@.len() ==> eps_reachable(
                            self.nodes@,
                            seed,
                            #[trigger] closure@[k],
                        ),
                    forall|k: int, jj: int|
                        0 <= k < p && 0 <= jj < self.nodes@[closure@[k] as int].edges@.len() ==> ((
                        #[trigger] self.nodes@[closure@[k] as int].edges@[jj]) matches
                            NFAEdge::Epsilon { to } ==> closure@.contains(to.0)),
                    forall|jj: int|
                        0 <= jj < j ==> ((#[trigger] self.nodes@[idx as int].edges@[jj]) matches
                            NFAEdge::Epsilon { to } ==> closure@.contains(to.0)),
                decreases edge_count - j,
            {
                let ghost pre = closure@;
                match &self.nodes[idx].edges[j] {
                    NFAEdge::Epsilon { to } => {
                        proof {
                            assert(is_eps_edge(self.nodes@, idx, to.0));
                            lemma_eps_reachable_step(self.nodes@, seed, idx, to.0);
                            lemma_dupfree_bounded_len(closure@, self.nodes@.len() as nat);
                        }
                        push_if_absent(&mut closure, to.0);
                        proof {
                            assert forall|k: int|
                                0 <= k < closure@.len() implies eps_reachable(
                                self.nodes@,
                                seed,
                                #[trigger] closure@[k],
                            ) by {
                                if k < pre.len() {
                                    assert(closure@[k] == pre[k]);
                                } else {
                                    assert(closure@[k] == to.0);
                                }
                            }
                            lemma_dupfree_bounded_len(closure@, self.nodes@.len() as nat);
                        }
                    },
                    _ => {},
                }
                j = j + 1;
            }
            p = p + 1;
        }
        // the scan is complete: every member's epsilon targets are members
        let mut acc = false;
        let mut a: usize = 0;
        while a < closure.len()
            invariant
                self.wf(),
                a <= closure@.len(),
                forall|k: int| 0 <= k < closure@.len() ==> (#[trigger] closure@[k] as int)
                    < self.nodes@.len(),
                acc <==> exists|k: int|
                    0 <= k < a && self.nodes@[(#[trigger] closure@[k]) as int].is_accepting,
            decreases closure@.len() - a,
        {
            let idx = closure[a];
            if self.nodes[idx].is_accepting {
                acc = true;
                assert(self.nodes@[closure@[a as int] as int].is_accepting);
            }
            a = a + 1;
        }
        proof {
            // membership in the final vector is exactly epsilon reachability
            assert forall|t: usize|
                #[trigger] closure@.contains(t) <==> eps_reachable(self.nodes@, seed, t) by {
                if closure@.contains(t) {
                    let k = choose|k: int| 0 <= k < closure@.len() && closure@[k] == t;
                    assert(eps_reachable(self.nodes@, seed, closure@[k]));
                }
                if eps_reachable(self.nodes@, seed, t) {
                    let pth = choose|pth: Seq<usize>| is_eps_path(self.nodes@, pth, seed, t);
                    assert forall|m: usize, b: usize|
                        #[trigger] closure@.contains(m) && is_eps_edge(self.nodes@, m, b)
                            implies #[trigger] closure@.contains(b) by {
                        let k = choose|k: int| 0 <= k < closure@.len() && closure@[k] == m;
                        let jj = choose|jj: int|
                            0 <= jj < self.nodes@[m as int].edges@.len() && ((
                            #[trigger] self.nodes@[m as int].edges@[jj]) matches NFAEdge::Epsilon {
                                to,
                            } && to.0 == b);
                        assert((self.nodes@[closure@[k] as int].edges@[jj] matches
                            NFAEdge::Epsilon { to } && to.0 == b));
                    }
                    assert forall|y: usize| seed.contains(y) implies closure@.contains(y) by {
                        assert(node_set@.contains(y));
                    }
                    lemma_closed_contains_path(self.nodes@, closure@, seed, pth);
                }
            }
            // the accepting flag matches the accepting predicate
            assert(acc <==> has_accepting(self.nodes@, closure@.to_set())) by {
                if acc {
                    let k = choose|k: int|
                        0 <= k < closure@.len()
                            && self.nodes@[(#[trigger] closure@[k]) as int].is_accepting;
                    assert(closure@.to_set().contains(closure@[k]));
                }
                if has_accepting(self.nodes@, closure@.to_set()) {
                    let t = choose|t: usize|
                        #[trigger] closure@.to_set().contains(t) && (t as int)
                            < self.nodes@.len() && self.nodes@[t as int].is_accepting;
                    let k = choose|k: int| 0 <= k < closure@.len() && closure@[k] == t;
                }
            }
        }
        EpsilonClosure::new(id, closure, acc)
    }

    /// The move set of a closure on `literal`: the first `literal` transition
    /// of each member.
    pub fn compute_move_set(&self, closure: &EpsilonClosure, literal: char) -> (r: Vec<usize>)
        requires
            self.wf(),
            closure_wf(*closure, self.nodes@.len() as int),
        ensures
            r@.no_duplicates(),
            forall|k: int| 0 <= k < r@.len() ==> (#[trigger] r@[k] as int) < self.nodes@.len(),
            forall|t: usize|
                #[trigger] r@.contains(t) <==> move_targets(
                    self.nodes@,
                    closure.nodes@.to_set(),
                    literal,
                ).contains(t),
    {
        let mut move_set: Vec<usize> = Vec::new();
        let mut i: usize = 0;
        while i < closure.nodes.len()
            invariant
                self.wf(),
                closure_wf(*closure, self.nodes@.len() as int),
                i <= closure.nodes@.len(),
                move_set@.no_duplicates(),
                forall|k: int| 0 <= k < move_set@.len() ==> (#[trigger] move_set@[k] as int)
                    < self.nodes@.len(),
                forall|t: usize|
                    #[trigger] move_set@.contains(t) <==> exists|ki: int|
                        0 <= ki < i && spec_find_transition(
                            self.nodes@[(#[trigger] closure.nodes@[ki]) as int],
                            literal,
                        ) == Some(t),
            decreases closure.nodes@.len() - i,
        {
            let ghost pre = move_set@;
            let idx = closure.nodes[i];
            match self.nodes[idx].find_transition(literal) {
                Some(to) => {
                    proof {
                        lemma_find_transition_in_range(
                            self.nodes@[idx as int].edges@,
                            literal,
                            0,
                            self.nodes@.len() as int,
                        );
                    }
                    push_if_absent(&mut move_set, to.0);
                    assert forall|t: usize|
                        #[trigger] move_set@.contains(t) <==> exists|ki: int|
                            0 <= ki < i + 1 && spec_find_transition(
                                self.nodes@[(#[trigger] closure.nodes@[ki]) as int],
                                literal,
                            ) == Some(t) by {
                        assert(move_set@.contains(t) <==> pre.contains(t) || t == to.0);
                        if move_set@.contains(t) {
                            if pre.contains(t) {
                                let ki = choose|ki: int|
                                    0 <= ki < i && spec_find_transition(
                                        self.nodes@[(#[trigger] closure.nodes@[ki]) as int],
                                        literal,
                                    ) == Some(t);
                                assert(spec_find_transition(
                                    self.nodes@[closure.nodes@[ki] as int],
                                    literal,
                                ) == Some(t));
                            } else {
                                assert(spec_find_transition(
                                    self.nodes@[closure.nodes@[i as int] as int],
                                    literal,
                                ) == Some(t));
                            }
                        }
                        if exists|ki: int|
                            0 <= ki < i + 1 && spec_find_transition(
                                self.nodes@[(#[trigger] closure.nodes@[ki]) as int],
                                literal,
                            ) == Some(t) {
                            let ki = choose|ki: int|
                                0 <= ki < i + 1 && spec_find_transition(
                                    self.nodes@[(#[trigger] closure.nodes@[ki]) as int],
                                    literal,
                                ) == Some(t);
                            if ki < i {
                                assert(pre.contains(t));
                            }
                        }
                    }
                },
                None => {
                    assert forall|t: usize|
                        #[trigger] move_set@.contains(t) <==> exists|ki: int|
                            0 <= ki < i + 1 && spec_find_transition(
                                self.nodes@[(#[trigger] closure.nodes@[ki]) as int],
                                literal,
                            ) == Some(t) by {
                        if exists|ki: int|
                            0 <= ki < i + 1 && spec_find_transition(
                                self.nodes@[(#[trigger] closure.nodes@[ki]) as int],
                                literal,
                            ) == Some(t) {
                            let ki = choose|ki: int|
                                0 <= ki < i + 1 && spec_find_transition(
                                    self.nodes@[(#[trigger] closure.nodes@[ki]) as int],
                                    literal,
                                ) == Some(t);
                            assert(ki < i);
                        }
                    }
                },
            }
            i = i + 1;
        }
        proof {
            assert forall|t: usize|
                #[trigger] move_set@.contains(t) <==> move_targets(
                    self.nodes@,
                    closure.nodes@.to_set(),
                    literal,
                ).contains(t) by {
                if move_set@.contains(t) {
                    let ki = choose|ki: int|
                        0 <= ki < closure.nodes@.len() && spec_find_transition(
                            self.nodes@[(#[trigger] closure.nodes@[ki]) as int],
                            literal,
                        ) == Some(t);
                    let m = closure.nodes@[ki];
                    assert(closure.nodes@.to_set().contains(m));
                    lemma_find_transition_sound(self.nodes@[m as int], literal, 0, t);
                    assert(has_labelled_edge(self.nodes@, m, literal, t));
                    assert(move_targets(self.nodes@, closure.nodes@.to_set(), literal).contains(
                        t,
                    ));
                }
                if move_targets(self.nodes@, closure.nodes@.to_set(), literal).contains(t) {
                    let m = choose|m: usize|
                        #[trigger] closure.nodes@.to_set().contains(m) && has_labelled_edge(
                            self.nodes@,
                            m,
                            literal,
                            t,
                        );
                    let je = choose|je: int|
                        0 <= je < self.nodes@[m as int].edges@.len() && ((
                        #[trigger] self.nodes@[m as int].edges@[je]) matches NFAEdge::Literal {
                            literal: l,
                            to,
                        } && l == literal && to.0 == t);
                    assert(node_label_deterministic(self.nodes@[m as int]));
                    lemma_find_transition_complete(self.nodes@[m as int], literal, 0, je, t);
                    let ki = choose|ki: int|
                        0 <= ki < closure.nodes@.len() && closure.nodes@[ki] == m;
                    assert(spec_find_transition(
                        self.nodes@[(closure.nodes@[ki]) as int],
                        literal,
                    ) == Some(t));
                }
            }
        }
        move_set
    }
}

impl Builder {
    /// An automaton under construction is well formed when its edges stay in
    /// range, its character set is duplicate-free, and no node is accepting
    /// yet.
    pub open spec fn builder_wf(self) -> bool {
        &&& nodes_wf(self.nodes@)
        &&& self.character_set@.no_duplicates()
        &&& forall|i: int| 0 <= i < self.nodes@.len() ==> !(#[trigger] self.nodes@[i]).is_accepting
        &&& labels_covered(self.nodes@, self.character_set@)
        &&& labels_deterministic(self.nodes@)
    }

    pub fn new() -> (r: Self)
        ensures
            r.builder_wf(),
            r.nodes@.len() == 0,
            r.character_set@.len() == 0,
            r.start is None,
    {
        Builder { nodes: Vec::new(), character_set: Vec::new(), start: None }
    }

    /// Packs the built arena into an automaton.
    pub fn build(self) -> (r: NFA)
        requires
            self.start is Some,
        ensures
            r.nodes@ == self.nodes@,
            r.character_set@ == self.character_set@,
            Some(r.start) == self.start,
    {
        let start = match self.start {
            Some(s) => s,
            None => {
                proof {
                    assert(false);
                }
                NFANodeIdx(0)
            },
        };
        NFA { nodes: self.nodes, character_set: self.character_set, start }
    }

    /// Thompson construction: builds the subgraph of the whole tree, marks the
    /// subgraph's exit accepting and its entry as the automaton's start.
    pub fn from_ast(&mut self, root: &AstNode)
        requires
            old(self).builder_wf(),
            old(self).nodes@.len() == 0,
            old(self).character_set@.len() == 0,
            ast_wf(*root),
        ensures
            nodes_wf(final(self).nodes@),
            final(self).character_set@.no_duplicates(),
            labels_covered(final(self).nodes@, final(self).character_set@),
            labels_deterministic(final(self).nodes@),
            forall|c: char|
                #[trigger] final(self).character_set@.contains(c) ==> char_has_edge(
                    final(self).nodes@,
                    c,
                ),
            final(self).nodes@.len() == old(self).nodes@.len() + 2 * ast_alloc_count(*root),
            final(self).start matches Some(s) && (s.0 as int) < final(self).nodes@.len(),
            forall|c: char|
                #[trigger] final(self).character_set@.contains(c) <==> ast_char_in(*root, c),
            exists|e: int|
                0 <= e < final(self).nodes@.len() && #[trigger] exactly_one_accepting(
                    final(self).nodes@,
                    e,
                ),
    {
        proof {
            assert(forall|c: char| !old(self).character_set@.contains(c));
        }
        let (start, end) = self.build_node(root);
        self.start = Some(start);
        let ghost e = end.0 as int;
        let ghost pre_nodes = self.nodes@;
        self.nodes[end.0].mark_accepting();
        proof {
            assert(exactly_one_accepting(self.nodes@, e)) by {
                assert forall|i: int|
                    0 <= i < self.nodes@.len() implies ((#[trigger] self.nodes@[i].is_accepting)
                    <==> i == e) by {
                    if i != e {
                        assert(self.nodes@[i] == pre_nodes[i]);
                        assert(!pre_nodes[i].is_accepting);
                    }
                }
            }
            assert(nodes_wf(self.nodes@)) by {
                assert forall|i: int|
                    0 <= i < self.nodes@.len() implies node_wf(
                    #[trigger] self.nodes@[i],
                    self.nodes@.len() as int,
                ) by {
                    assert(node_wf(pre_nodes[i], pre_nodes.len() as int));
                    if i != e {
                        assert(self.nodes@[i] == pre_nodes[i]);
                    } else {
                        assert(self.nodes@[i].edges@ == pre_nodes[i].edges@);
                    }
                }
            }
            assert forall|i: int, j: int|
                0 <= i < self.nodes@.len() && 0 <= j < self.nodes@[i].edges@.len() implies ((
            #[trigger] self.nodes@[i].edges@[j]) matches NFAEdge::Literal { literal, to }
                ==> self.character_set@.contains(literal)) by {
                if i != e {
                    assert(self.nodes@[i] == pre_nodes[i]);
                    assert(pre_nodes[i].edges@[j] matches NFAEdge::Literal { literal, to }
                        ==> self.character_set@.contains(literal));
                } else {
                    assert(self.nodes@[i].edges@ == pre_nodes[i].edges@);
                    assert(pre_nodes[i].edges@[j] matches NFAEdge::Literal { literal, to }
                        ==> self.character_set@.contains(literal));
                }
            }
            assert forall|i: int|
                0 <= i < self.nodes@.len() implies node_label_deterministic(
                #[trigger] self.nodes@[i],
            ) by {
                assert(node_label_deterministic(pre_nodes[i]));
                if i != e {
                    assert(self.nodes@[i] == pre_nodes[i]);
                } else {
                    assert(self.nodes@[i].edges@ == pre_nodes[i].edges@);
                }
            }
            assert forall|c: char|
                #[trigger] self.character_set@.contains(c) implies char_has_edge(
                self.nodes@,
                c,
            ) by {
                assert(char_has_edge(pre_nodes, c));
                let i = choose|i: int|
                    0 <= i < pre_nodes.len() && node_has_label(#[trigger] pre_nodes[i], c);
                if i != e {
                    assert(self.nodes@[i] == pre_nodes[i]);
                } else {
                    assert(self.nodes@[i].edges@ == pre_nodes[i].edges@);
                    assert(node_has_label(self.nodes@[i], c));
                }
            }
        }
    }

    /// Builds the subgraph for one tree node and returns its entry and exit.
    fn build_node(&mut self, node: &AstNode) -> (res: (NFANodeIdx, NFANodeIdx))
        requires
            old(self).builder_wf(),
            ast_wf(*node),
            forall|c: char|
                #[trigger] old(self).character_set@.contains(c) ==> char_has_edge(
                    old(self).nodes@,
                    c,
                ),
        ensures
            final(self).builder_wf(),
            final(self).nodes@.len() == old(self).nodes@.len() + 2 * ast_alloc_count(*node),
            (res.0.0 as int) < final(self).nodes@.len(),
            (res.1.0 as int) < final(self).nodes@.len(),
            forall|c: char|
                #[trigger] final(self).character_set@.contains(c) <==> (old(
                    self,
                ).character_set@.contains(c) || ast_char_in(*node, c)),
            forall|c: char|
                #[trigger] final(self).character_set@.contains(c) ==> char_has_edge(
                    final(self).nodes@,
                    c,
                ),
        decreases node,
    {
        match node {
            AstNode::Alternation(b) => {
                let (left_start, left_end) = self.build_node(&b.left);
                let (right_start, right_end) = self.build_node(&b.right);
                let ghost g0 = self.nodes@;
                let start = self.add_node();
                let ghost g1 = self.nodes@;
                let end = self.add_node();
                let ghost g2 = self.nodes@;
                self.epsilon_connect(start, left_start);
                let ghost g3 = self.nodes@;
                self.epsilon_connect(start, right_start);
                let ghost g4 = self.nodes@;
                self.epsilon_connect(left_end, end);
                let ghost g5 = self.nodes@;
                self.epsilon_connect(right_end, end);
                proof {
                    assert forall|c: char|
                        #[trigger] self.character_set@.contains(c) implies char_has_edge(
                        self.nodes@,
                        c,
                    ) by {
                        assert(char_has_edge(g0, c));
                        assert(char_has_edge(g1, c));
                        assert(char_has_edge(g2, c));
                        assert(char_has_edge(g3, c));
                        assert(char_has_edge(g4, c));
                    }
                }
                (start, end)
            },
            AstNode::Concat(b) => {
                let (left_start, left_end) = self.build_node(&b.left);
                let (right_start, right_end) = self.build_node(&b.right);
                let ghost g0 = self.nodes@;
                self.epsilon_connect(left_end, right_start);
                proof {
                    assert forall|c: char|
                        #[trigger] self.character_set@.contains(c) implies char_has_edge(
                        self.nodes@,
                        c,
                    ) by {
                        assert(char_has_edge(g0, c));
                    }
                }
                (left_start, right_end)
            },
            AstNode::Repetition(b) => {
                let (child_start, child_end) = self.build_node(&b.child);
                let ghost g0 = self.nodes@;
                let start = self.add_node();
                let ghost g1 = self.nodes@;
                let end = self.add_node();
                let ghost g2 = self.nodes@;
                self.epsilon_connect(start, child_start);
                let ghost g3 = self.nodes@;
                self.epsilon_connect(child_end, end);
                let ghost g4 = self.nodes@;
                match b.kind {
                    RepetitionKind::ZeroOrMore => {
                        self.epsilon_connect(child_start, end);
                        self.epsilon_connect(child_end, child_start);
                    },
                    RepetitionKind::OneOrMore => {
                        self.epsilon_connect(child_end, child_start);
                    },
                    RepetitionKind::ZeroOrOne => {
                        self.epsilon_connect(child_start, end);
                    },
                }
                proof {
                    assert forall|c: char|
                        #[trigger] self.character_set@.contains(c) implies char_has_edge(
                        self.nodes@,
                        c,
                    ) by {
                        assert(char_has_edge(g0, c));
                        assert(char_has_edge(g1, c));
                        assert(char_has_edge(g2, c));
                        assert(char_has_edge(g3, c));
                        assert(char_has_edge(g4, c));
                    }
                }
                (start, end)
            },
            AstNode::Dot => {
                let ghost g0 = self.nodes@;
                let ghost cs0 = self.character_set@;
                let characters = Alphabet::all_characters();
                merge_chars(&mut self.character_set, &characters);
                let res = self.add_alteration_system_for_characters(&characters);
                proof {
                    assert forall|c: char|
                        #[trigger] self.character_set@.contains(c) implies char_has_edge(
                        self.nodes@,
                        c,
                    ) by {
                        if characters@.contains(c) {
                        } else {
                            assert(cs0.contains(c));
                            assert(char_has_edge(g0, c));
                        }
                    }
                }
                res
            },
            AstNode::CharacterClass(b) => {
                let ghost g0 = self.nodes@;
                let ghost cs0 = self.character_set@;
                let characters = b.compute_characters();
                merge_chars(&mut self.character_set, &characters);
                let res = self.add_alteration_system_for_characters(&characters);
                proof {
                    assert forall|c: char|
                        #[trigger] self.character_set@.contains(c) implies char_has_edge(
                        self.nodes@,
                        c,
                    ) by {
                        if characters@.contains(c) {
                        } else {
                            assert(cs0.contains(c));
                            assert(char_has_edge(g0, c));
                        }
                    }
                }
                res
            },
            AstNode::ClassBracketed(b) => {
                let ghost g0 = self.nodes@;
                let ghost cs0 = self.character_set@;
                let characters = b.compute_characters();
                merge_chars(&mut self.character_set, &characters);
                let res = self.add_alteration_system_for_characters(&characters);
                proof {
                    assert forall|c: char|
                        #[trigger] self.character_set@.contains(c) implies char_has_edge(
                        self.nodes@,
                        c,
                    ) by {
                        if characters@.contains(c) {
                        } else {
                            assert(cs0.contains(c));
                            assert(char_has_edge(g0, c));
                        }
                    }
                }
                res
            },
            AstNode::Literal(b) => {
                let ghost g0 = self.nodes@;
                let ghost cs0 = self.character_set@;
                let mut characters: Vec<char> = Vec::new();
                characters.push(b.value);
                push_if_absent_char(&mut self.character_set, b.value);
                let res = self.add_alteration_system_for_characters(&characters);
                proof {
                    assert forall|c: char|
                        #[trigger] self.character_set@.contains(c) implies char_has_edge(
                        self.nodes@,
                        c,
                    ) by {
                        if characters@.contains(c) {
                        } else {
                            assert(cs0.contains(c));
                            assert(char_has_edge(g0, c));
                        }
                    }
                }
                res
            },
        }
    }

    /// A fresh entry and exit, with one labelled edge from entry to exit for
    /// each of the characters.
    fn add_alteration_system_for_characters(&mut self, characters: &Vec<char>) -> (res: (
        NFANodeIdx,
        NFANodeIdx,
    ))
        requires
            old(self).builder_wf(),
            characters@.no_duplicates(),
            forall|k: int|
                0 <= k < characters@.len() ==> old(self).character_set@.contains(
                    #[trigger] characters@[k],
                ),
        ensures
            final(self).builder_wf(),
            final(self).nodes@.len() == old(self).nodes@.len() + 2,
            (res.0.0 as int) < final(self).nodes@.len(),
            (res.1.0 as int) < final(self).nodes@.len(),
            final(self).character_set@ == old(self).character_set@,
            forall|c: char|
                #[trigger] char_has_edge(old(self).nodes@, c) ==> char_has_edge(
                    final(self).nodes@,
                    c,
                ),
            forall|k: int|
                0 <= k < characters@.len() ==> char_has_edge(
                    final(self).nodes@,
                    #[trigger] characters@[k],
                ),
    {
        let start = self.add_node();
        let end = self.add_node();
        assert(self.nodes@[start.0 as int].edges@.len() == 0);
        let mut i: usize = 0;
        while i < characters.len()
            invariant
                self.builder_wf(),
                characters@.no_duplicates(),
                self.character_set@ == old(self).character_set@,
                forall|k: int|
                    0 <= k < characters@.len() ==> self.character_set@.contains(
                        #[trigger] characters@[k],
                    ),
                (start.0 as int) < self.nodes@.len(),
                (end.0 as int) < self.nodes@.len(),
                self.nodes@.len() == old(self).nodes@.len() + 2,
                i <= characters@.len(),
                edges_labels_in(self.nodes@[start.0 as int].edges@, characters@.subrange(0, i as int)),
                forall|c: char|
                    #[trigger] char_has_edge(old(self).nodes@, c) ==> char_has_edge(
                        self.nodes@,
                        c,
                    ),
                forall|k: int|
                    0 <= k < i ==> char_has_edge(self.nodes@, #[trigger] characters@[k]),
            decreases characters@.len() - i,
        {
            let ghost pre_edges = self.nodes@[start.0 as int].edges@;
            let c = characters[i];
            assert(self.character_set@.contains(characters@[i as int]));
            proof {
                lemma_fresh_label(self.nodes@[start.0 as int], characters@, i as int);
            }
            let ghost pre_nodes_it = self.nodes@;
            self.literal_connect(start, end, c);
            proof {
                lemma_alteration_step(
                    pre_edges,
                    self.nodes@[start.0 as int].edges@,
                    c,
                    end,
                    characters@,
                    i as int,
                );
                assert forall|k: int|
                    0 <= k < i + 1 implies char_has_edge(
                    self.nodes@,
                    #[trigger] characters@[k],
                ) by {
                    if k < i {
                        assert(char_has_edge(pre_nodes_it, characters@[k]));
                    } else {
                        assert(char_has_edge(self.nodes@, c));
                    }
                }
            }
            i = i + 1;
        }
        (start, end)
    }

    /// A fresh, non-accepting node; returns its index.
    fn add_node(&mut self) -> (res: NFANodeIdx)
        requires
            old(self).builder_wf(),
        ensures
            final(self).builder_wf(),
            final(self).nodes@.len() == old(self).nodes@.len() + 1,
            (res.0 as int) == old(self).nodes@.len(),
            final(self).character_set@ == old(self).character_set@,
            final(self).nodes@[res.0 as int].edges@.len() == 0,
            forall|i: int| 0 <= i < old(self).nodes@.len() ==> (#[trigger] final(self).nodes@[i])
                == old(self).nodes@[i],
            forall|c: char|
                #[trigger] char_has_edge(old(self).nodes@, c) ==> char_has_edge(
                    final(self).nodes@,
                    c,
                ),
    {
        let id = self.nodes.len();
        self.nodes.push(NFANode::new());
        proof {
            assert forall|i: int|
                0 <= i < self.nodes@.len() implies node_wf(
                #[trigger] self.nodes@[i],
                self.nodes@.len() as int,
            ) by {
                if i < old(self).nodes@.len() {
                    assert(node_wf(old(self).nodes@[i], old(self).nodes@.len() as int));
                }
            }
            assert forall|c: char|
                #[trigger] char_has_edge(old(self).nodes@, c) implies char_has_edge(
                self.nodes@,
                c,
            ) by {
                let i = choose|i: int|
                    0 <= i < old(self).nodes@.len() && node_has_label(
                        #[trigger] old(self).nodes@[i],
                        c,
                    );
                assert(self.nodes@[i] == old(self).nodes@[i]);
                assert(node_has_label(self.nodes@[i], c));
            }
        }
        NFANodeIdx(id)
    }

    fn literal_connect(&mut self, from: NFANodeIdx, to: NFANodeIdx, literal: char)
        requires
            old(self).builder_wf(),
            (from.0 as int) < old(self).nodes@.len(),
            (to.0 as int) < old(self).nodes@.len(),
            old(self).character_set@.contains(literal),
            !node_has_label(old(self).nodes@[from.0 as int], literal),
        ensures
            final(self).builder_wf(),
            final(self).nodes@.len() == old(self).nodes@.len(),
            final(self).character_set@ == old(self).character_set@,
            final(self).nodes@[from.0 as int].edges@ == old(self).nodes@[from.0 as int].edges@
                .push(NFAEdge::Literal { literal, to }),
            forall|i: int|
                0 <= i < old(self).nodes@.len() && i != from.0
                    ==> (#[trigger] final(self).nodes@[i]) == old(self).nodes@[i],
            forall|c: char|
                #[trigger] char_has_edge(old(self).nodes@, c) ==> char_has_edge(
                    final(self).nodes@,
                    c,
                ),
            char_has_edge(final(self).nodes@, literal),
    {
        let edge = NFAEdge::Literal { literal, to };
        self.nodes[from.0].add_edge(edge);
        proof {
            self.lemma_connect_preserves_wf(old(self).nodes@, from.0 as int, edge);
            lemma_connect_keeps_labels(old(self).nodes@, self.nodes@, from.0 as int, edge);
            let j = old(self).nodes@[from.0 as int].edges@.len() as int;
            lemma_edge_push_index(old(self).nodes@[from.0 as int].edges@, edge, j);
            assert(self.nodes@[from.0 as int].edges@[j] == edge);
            assert(node_has_label(self.nodes@[from.0 as int], literal));
        }
    }

    fn epsilon_connect(&mut self, from: NFANodeIdx, to: NFANodeIdx)
        requires
            old(self).builder_wf(),
            (from.0 as int) < old(self).nodes@.len(),
            (to.0 as int) < old(self).nodes@.len(),
        ensures
            final(self).builder_wf(),
            final(self).nodes@.len() == old(self).nodes@.len(),
            final(self).character_set@ == old(self).character_set@,
            forall|c: char|
                #[trigger] char_has_edge(old(self).nodes@, c) ==> char_has_edge(
                    final(self).nodes@,
                    c,
                ),
    {
        let edge = NFAEdge::Epsilon { to };
        self.nodes[from.0].add_edge(edge);
        proof {
            self.lemma_connect_preserves_wf(old(self).nodes@, from.0 as int, edge);
            lemma_connect_keeps_labels(old(self).nodes@, self.nodes@, from.0 as int, edge);
        }
    }

    /// Appending one in-range edge to one node keeps the arena well formed.
    proof fn lemma_connect_preserves_wf(&self, pre: Seq<NFANode>, at: int, edge: NFAEdge)
        requires
            0 <= at < pre.len(),
            self.nodes@.len() == pre.len(),
            (edge_target(edge) as int) < pre.len(),
            forall|i: int| 0 <= i < pre.len() ==> node_wf(#[trigger] pre[i], pre.len() as int),
            forall|i: int| 0 <= i < pre.len() ==> !(#[trigger] pre[i]).is_accepting,
            labels_covered(pre, self.character_set@),
            labels_deterministic(pre),
            (edge matches NFAEdge::Literal { literal, to } ==> self.character_set@.contains(
                literal,
            )),
            (edge matches NFAEdge::Literal { literal, to } ==> !node_has_label(pre[at], literal)),
            forall|i: int| 0 <= i < pre.len() && i != at ==> self.nodes@[i] == pre[i],
            self.nodes@[at].is_accepting == pre[at].is_accepting,
            self.nodes@[at].edges@ == pre[at].edges@.push(edge),
        ensures
            nodes_wf(self.nodes@),
            forall|i: int| 0 <= i < self.nodes@.len() ==> !(#[trigger] self.nodes@[i]).is_accepting,
            labels_covered(self.nodes@, self.character_set@),
            labels_deterministic(self.nodes@),
    {
        assert forall|i: int|
            0 <= i < self.nodes@.len() implies node_wf(
            #[trigger] self.nodes@[i],
            self.nodes@.len() as int,
        ) by {
            if i == at {
                assert forall|j: int|
                    0 <= j < self.nodes@[at].edges@.len() implies (edge_target(
                    #[trigger] self.nodes@[at].edges@[j],
                ) as int) < self.nodes@.len() by {
                    if j < pre[at].edges@.len() {
                        assert(node_wf(pre[at], pre.len() as int));
                        assert(self.nodes@[at].edges@[j] == pre[at].edges@[j]);
                    } else {
                        assert(self.nodes@[at].edges@[j] == edge);
                    }
                }
            } else {
                assert(node_wf(pre[i], pre.len() as int));
            }
        }
        assert forall|i: int|
            0 <= i < self.nodes@.len() implies !(#[trigger] self.nodes@[i]).is_accepting by {
            if i != at {
                assert(self.nodes@[i] == pre[i]);
            }
        }
        assert forall|i: int, j: int|
            0 <= i < self.nodes@.len() && 0 <= j < self.nodes@[i].edges@.len() implies ((
        #[trigger] self.nodes@[i].edges@[j]) matches NFAEdge::Literal { literal, to }
            ==> self.character_set@.contains(literal)) by {
            if i != at {
                assert(self.nodes@[i] == pre[i]);
                assert(pre[i].edges@[j] matches NFAEdge::Literal { literal, to }
                    ==> self.character_set@.contains(literal));
            } else {
                if j < pre[at].edges@.len() {
                    assert(self.nodes@[at].edges@[j] == pre[at].edges@[j]);
                    assert(pre[at].edges@[j] matches NFAEdge::Literal { literal, to }
                        ==> self.character_set@.contains(literal));
                } else {
                    assert(self.nodes@[at].edges@[j] == edge);
                }
            }
        }
        assert forall|i: int|
            0 <= i < self.nodes@.len() implies node_label_deterministic(
            #[trigger] self.nodes@[i],
        ) by {
            if i != at {
                assert(self.nodes@[i] == pre[i]);
                assert(node_label_deterministic(pre[i]));
            } else {
                assert(node_label_deterministic(pre[at]));
                assert forall|j1: int, j2: int|
                    0 <= j1 < self.nodes@[at].edges@.len() && 0 <= j2 < self.nodes@[at].edges@.len()
                        && j1 != j2 implies (match (
                    #[trigger] self.nodes@[at].edges@[j1],
                    #[trigger] self.nodes@[at].edges@[j2],
                ) {
                    (
                        NFAEdge::Literal { literal: l1, to: t1 },
                        NFAEdge::Literal { literal: l2, to: t2 },
                    ) => l1 != l2,
                    _ => true,
                }) by {
                    let n_old = pre[at].edges@.len() as int;
                    if j1 < n_old && j2 < n_old {
                        assert(self.nodes@[at].edges@[j1] == pre[at].edges@[j1]);
                        assert(self.nodes@[at].edges@[j2] == pre[at].edges@[j2]);
                    } else if j1 < n_old {
                        assert(self.nodes@[at].edges@[j1] == pre[at].edges@[j1]);
                        assert(self.nodes@[at].edges@[j2] == edge);
                        match edge {
                            NFAEdge::Literal { literal, to } => {
                                if pre[at].edges@[j1] matches NFAEdge::Literal { literal: l1, to: t1 }
                                    && l1 == literal {
                                    assert(node_has_label(pre[at], literal));
                                }
                            },
                            NFAEdge::Epsilon { to } => {},
                        }
                    } else {
                        assert(self.nodes@[at].edges@[j1] == edge);
                        assert(self.nodes@[at].edges@[j2] == pre[at].edges@[j2]);
                        match edge {
                            NFAEdge::Literal { literal, to } => {
                                if pre[at].edges@[j2] matches NFAEdge::Literal { literal: l2, to: t2 }
                                    && l2 == literal {
                                    assert(node_has_label(pre[at], literal));
                                }
                            },
                            NFAEdge::Epsilon { to } => {},
                        }
                    }
                }
            }
        }
    }
}

} // verus!
