//! The compiled matcher: one-shot compilation from a pattern to a
//! deterministic automaton, full-string acceptance, and substring search.

use vstd::prelude::*;
use crate::ast::Error;
use crate::dfa::{
    DFA, dfa_simulates, dfa_wf, lemma_dfa_run_append, spec_dfa_accepts, spec_dfa_run, spec_dfa_step,
};
use crate::nfa::NFA;
use crate::parse::{
    Parser, ast_view, invalid_pred, lemma_view_char_in, spec_invalid, spec_parse, view_char_in,
};

verus! {

/// A compiled pattern: the deterministic automaton that survives compilation.
pub struct Regex {
    pub dfa: DFA,
}

/// Two automata that agree state for state: same start, same acceptance
/// flags, same edge lists.
pub open spec fn dfa_equivalent(a: DFA, b: DFA) -> bool {
    &&& a.start == b.start
    &&& a.nodes@.len() == b.nodes@.len()
    &&& forall|s: int|
        0 <= s < a.nodes@.len() ==> (#[trigger] a.nodes@[s]).is_accepting == (
        #[trigger] b.nodes@[s]).is_accepting
    &&& forall|s: int|
        0 <= s < a.nodes@.len() ==> (#[trigger] a.nodes@[s]).edges@ == (
        #[trigger] b.nodes@[s]).edges@
}

proof fn lemma_run_congruence(a: DFA, b: DFA, state: int, input: Seq<char>)
    requires
        dfa_equivalent(a, b),
    ensures
        spec_dfa_run(a, state, input) == spec_dfa_run(b, state, input),
    decreases input.len(),
{
    if input.len() == 0 {
    } else {
        assert(spec_dfa_step(a, state, input[0]) == spec_dfa_step(b, state, input[0])) by {
            if 0 <= state < a.nodes@.len() {
                assert(a.nodes@[state].edges@ == b.nodes@[state].edges@);
            }
        }
        match spec_dfa_step(a, state, input[0]) {
            Some(next) => {
                lemma_run_congruence(a, b, next as int, input.drop_first());
            },
            None => {},
        }
    }
}

/// Matching is deterministic: the decision is a function of the compiled
/// automaton and the input alone, so any two matchers whose automata agree
/// state for state accept exactly the same inputs. In particular, a matcher
/// gives the same answer every time it is asked about the same input.
pub proof fn lemma_accepts_deterministic(a: Regex, b: Regex, input: Seq<char>)
    requires
        dfa_equivalent(a.dfa, b.dfa),
    ensures
        spec_dfa_accepts(a.dfa, input) == spec_dfa_accepts(b.dfa, input),
{
    lemma_run_congruence(a.dfa, b.dfa, a.dfa.start as int, input);
    match spec_dfa_run(a.dfa, a.dfa.start as int, input) {
        Some(st) => {
            if 0 <= st < a.dfa.nodes@.len() {
                assert(a.dfa.nodes@[st].is_accepting == b.dfa.nodes@[st].is_accepting);
            }
        },
        None => {},
    }
}

/// Compilation is idempotent up to automaton equivalence: two compilations of
/// one pattern that produce state-for-state equal automata accept the same
/// language, whatever the input.
pub proof fn lemma_compile_idempotent(a: Regex, b: Regex)
    requires
        dfa_equivalent(a.dfa, b.dfa),
    ensures
        forall|input: Seq<char>|
            #[trigger] spec_dfa_accepts(a.dfa, input) == spec_dfa_accepts(b.dfa, input),
{
    assert forall|input: Seq<char>|
        #[trigger] spec_dfa_accepts(a.dfa, input) == spec_dfa_accepts(b.dfa, input) by {
        lemma_accepts_deterministic(a, b, input);
    }
}

impl Regex {
    pub open spec fn wf(self) -> bool {
        dfa_wf(self.dfa)
    }

    /// Compiles a pattern: parse, Thompson construction, subset construction.
    /// Succeeds exactly when the grammar derives the whole pattern
    /// (`spec_parse`); fails with `InvalidCharacters` exactly when the pattern
    /// holds characters outside the alphabet, and with another error exactly
    /// when the pattern does not derive. On success the matcher's automaton
    /// simulates, state set for state set, a well-formed nondeterministic
    /// automaton whose character set is exactly that of the parsed tree, so by
    /// `lemma_dfa_matches_nfa` determinisation preserved that automaton's
    /// language.
    pub fn new(pattern: &str) -> (r: Result<Regex, Error>)
        ensures
            (r matches Ok(re)) <==> spec_parse(pattern@) is Some,
            r matches Ok(re) ==> re.wf() && (spec_parse(pattern@) matches Some(t) && (exists|
                built: NFA,
            |
                built.wf() && #[trigger] dfa_simulates(re.dfa, built) && (forall|c: char|
                    #[trigger] built.character_set@.contains(c) <==> view_char_in(t, c)))),
            (exists|k: int| 0 <= k < pattern@.len() && spec_invalid(#[trigger] pattern@[k]))
                <==> (r matches Err(e) && e matches Error::InvalidCharacters(_)),
            r matches Err(Error::InvalidCharacters(v)) ==> v@ == pattern@.filter(invalid_pred()),
    {
        let ast = match Parser::parse(pattern) {
            Ok(ast) => ast,
            Err(e) => {
                return Err(e);
            },
        };
        let nfa = NFA::from_ast(&ast);
        let dfa = DFA::from_nfa(&nfa);
        let re = Regex { dfa };
        proof {
            assert(nfa.wf() && dfa_simulates(re.dfa, nfa));
            assert forall|c: char|
                #[trigger] nfa.character_set@.contains(c) <==> view_char_in(ast_view(ast), c) by {
                lemma_view_char_in(ast, c);
            }
        }
        Ok(re)
    }

    /// Whether the whole input is matched by the pattern.
    pub fn accepts(&self, input: &str) -> (r: bool)
        requires
            self.wf(),
        ensures
            r == spec_dfa_accepts(self.dfa, input@),
    {
        self.dfa.accepts(input)
    }

    /// Whether any non-empty substring of the input is matched by the
    /// pattern.
    pub fn test(&self, input: &str) -> (r: bool)
        requires
            self.wf(),
        ensures
            r == exists|i: int, j: int|
                0 <= i < j <= input@.len() && spec_dfa_accepts(
                    self.dfa,
                    #[trigger] input@.subrange(i, j),
                ),
    {
        let len = input.unicode_len();
        let mut start: usize = 0;
        while start < len
            invariant
                self.wf(),
                len == input@.len(),
                start <= len,
                forall|i2: int, j2: int|
                    0 <= i2 < start && i2 < j2 <= len ==> !spec_dfa_accepts(
                        self.dfa,
                        #[trigger] input@.subrange(i2, j2),
                    ),
            decreases len - start,
        {
            if self.scan_from(input, start) {
                return true;
            }
            start = start + 1;
        }
        false
    }

    /// Whether some substring beginning at `start` is matched: run the
    /// automaton forward from `start`, accept at the first accepting state,
    /// give up at the first missing edge.
    fn scan_from(&self, input: &str, start: usize) -> (r: bool)
        requires
            self.wf(),
            (start as int) <= input@.len(),
        ensures
            r == exists|j: int|
                start < j <= input@.len() && spec_dfa_accepts(
                    self.dfa,
                    #[trigger] input@.subrange(start as int, j),
                ),
    {
        let len = input.unicode_len();
        let mut cur: usize = self.dfa.start;
        let mut j: usize = start;
        proof {
            assert(input@.subrange(start as int, start as int) =~= Seq::<char>::empty());
        }
        while j < len
            invariant
                self.wf(),
                len == input@.len(),
                start <= j <= len,
                (cur as int) < self.dfa.nodes@.len(),
                spec_dfa_run(self.dfa, self.dfa.start as int, input@.subrange(start as int, j as int))
                    == Some(cur as int),
                forall|j2: int|
                    start < j2 <= j ==> !spec_dfa_accepts(
                        self.dfa,
                        #[trigger] input@.subrange(start as int, j2),
                    ),
            decreases len - j,
        {
            let c = input.get_char(j);
            proof {
                assert(input@.subrange(start as int, j + 1 as int) =~= input@.subrange(
                    start as int,
                    j as int,
                ) + seq![input@[j as int]]);
                lemma_dfa_run_append(
                    self.dfa,
                    self.dfa.start as int,
                    input@.subrange(start as int, j as int),
                    seq![input@[j as int]],
                );
                let single = seq![input@[j as int]];
                assert(single[0] == input@[j as int]);
                assert(single.drop_first() =~= Seq::<char>::empty());
            }
            match self.dfa.find_edge(cur, c) {
                Some(t) => {
                    proof {
                        let single = seq![input@[j as int]];
                        assert(spec_dfa_step(self.dfa, cur as int, input@[j as int]) == Some(t));
                        assert(spec_dfa_run(self.dfa, t as int, single.drop_first()) == Some(
                            t as int,
                        ));
                        assert(spec_dfa_run(self.dfa, cur as int, single) == Some(t as int));
                    }
                    cur = t;
                    j = j + 1;
                    if self.dfa.nodes[cur].is_accepting {
                        proof {
                            assert(spec_dfa_accepts(
                                self.dfa,
                                input@.subrange(start as int, j as int),
                            ));
                        }
                        return true;
                    }
                },
                None => {
                    proof {
                        assert forall|j2: int|
                            start < j2 <= len implies !spec_dfa_accepts(
                            self.dfa,
                            #[trigger] input@.subrange(start as int, j2),
                        ) by {
                            if j2 <= j {
                            } else {
                                assert(input@.subrange(start as int, j2) =~= input@.subrange(
                                    start as int,
                                    j as int,
                                ) + input@.subrange(j as int, j2));
                                lemma_dfa_run_append(
                                    self.dfa,
                                    self.dfa.start as int,
                                    input@.subrange(start as int, j as int),
                                    input@.subrange(j as int, j2),
                                );
                                let rest = input@.subrange(j as int, j2);
                                assert(rest[0] == input@[j as int]);
                                assert(spec_dfa_step(self.dfa, cur as int, rest[0]) is None);
                                assert(spec_dfa_run(self.dfa, cur as int, rest) is None);
                            }
                        }
                    }
                    return false;
                },
            }
        }
        false
    }
}

} // verus!
