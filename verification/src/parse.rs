//! A recursive-descent parser for the regex dialect, over a character cursor
//! with one character of lookahead.
//!
//! Grammar: a regexp is a `|`-separated list of concatenations; a
//! concatenation is a run of quantified factors; a factor is a group, an
//! escape, a dot, a bracketed class or a literal; a quantifier is one optional
//! postfix `*`, `+` or `?`.

use vstd::prelude::*;
use crate::alphabet::{
    Alphabet, spec_is_quantifier, spec_is_special, spec_is_valid,
};
use crate::ast::{
    self, AstNode, CharacterClass, CharacterClassKind, ClassBracketed, ClassSetItem, ClassSetRange,
    Error, Literal, RepetitionKind, ast_char_in, ast_wf, bracketed_wf, character_class_matches,
    class_item_wf, items_match,
};

verus! {

broadcast use vstd::seq_lib::group_filter_ensures;

/// A pattern character outside the alphabet.
pub open spec fn spec_invalid(c: char) -> bool {
    !spec_is_valid(c)
}

/// The invalidity test, as a value handed to `Seq::filter`.
pub open spec fn invalid_pred() -> spec_fn(char) -> bool {
    |c: char| spec_invalid(c)
}

/// The characters on which a concatenation continues: anything that can start
/// a factor, that is, any non-special character or one of `(`, `\`, `.`, `[`.
pub open spec fn spec_in_factor_first_set(c: char) -> bool {
    !spec_is_special(c) || c == '(' || c == '\\' || c == '.' || c == '['
}

/// Which predefined class an escape letter stands for; `None` for an escaped
/// literal.
pub open spec fn spec_derive_character_class(c: char) -> Option<CharacterClass> {
    if c == 'd' {
        Some(CharacterClass { kind: CharacterClassKind::Digit, negated: false })
    } else if c == 'D' {
        Some(CharacterClass { kind: CharacterClassKind::Digit, negated: true })
    } else if c == 'w' {
        Some(CharacterClass { kind: CharacterClassKind::Word, negated: false })
    } else if c == 'W' {
        Some(CharacterClass { kind: CharacterClassKind::Word, negated: true })
    } else if c == 's' {
        Some(CharacterClass { kind: CharacterClassKind::Whitespace, negated: false })
    } else if c == 'S' {
        Some(CharacterClass { kind: CharacterClassKind::Whitespace, negated: true })
    } else {
        None
    }
}

fn derive_character_class(value: &char) -> (r: Option<CharacterClass>)
    ensures
        r == spec_derive_character_class(*value),
{
    match *value {
        'd' => Some(CharacterClass::new(CharacterClassKind::Digit, false)),
        'D' => Some(CharacterClass::new(CharacterClassKind::Digit, true)),
        'w' => Some(CharacterClass::new(CharacterClassKind::Word, false)),
        'W' => Some(CharacterClass::new(CharacterClassKind::Word, true)),
        's' => Some(CharacterClass::new(CharacterClassKind::Whitespace, false)),
        'S' => Some(CharacterClass::new(CharacterClassKind::Whitespace, true)),
        _ => None,
    }
}


/// The shape of a parsed tree, with a bracketed class's items as a sequence;
/// what a pattern parses to, stated independently of the executable parser.
pub enum SpecAst {
    Alternation(Box<SpecAst>, Box<SpecAst>),
    Concat(Box<SpecAst>, Box<SpecAst>),
    Repetition(RepetitionKind, Box<SpecAst>),
    Dot,
    CharacterClass(CharacterClass),
    ClassBracketed(bool, Seq<ClassSetItem>),
    Literal(char),
}

/// The shape of a tree value.
pub open spec fn ast_view(node: AstNode) -> SpecAst
    decreases node,
{
    match node {
        AstNode::Alternation(b) => SpecAst::Alternation(
            Box::new(ast_view(*b.left)),
            Box::new(ast_view(*b.right)),
        ),
        AstNode::Concat(b) => SpecAst::Concat(
            Box::new(ast_view(*b.left)),
            Box::new(ast_view(*b.right)),
        ),
        AstNode::Repetition(b) => SpecAst::Repetition(b.kind, Box::new(ast_view(*b.child))),
        AstNode::Dot => SpecAst::Dot,
        AstNode::CharacterClass(b) => SpecAst::CharacterClass(*b),
        AstNode::ClassBracketed(b) => SpecAst::ClassBracketed(b.negated, b.items@),
        AstNode::Literal(b) => SpecAst::Literal(b.value),
    }
}

/// The characters a tree shape mentions once its leaves are expanded, as
/// `ast_char_in` states it of tree values.
pub open spec fn view_char_in(t: SpecAst, c: char) -> bool
    decreases t,
{
    match t {
        SpecAst::Alternation(l, r) => view_char_in(*l, c) || view_char_in(*r, c),
        SpecAst::Concat(l, r) => view_char_in(*l, c) || view_char_in(*r, c),
        SpecAst::Repetition(kind, child) => view_char_in(*child, c),
        SpecAst::Dot => spec_is_valid(c),
        SpecAst::CharacterClass(cc) => character_class_matches(cc, c),
        SpecAst::ClassBracketed(negated, items) => if negated {
            spec_is_valid(c) && !items_match(items, c)
        } else {
            items_match(items, c)
        },
        SpecAst::Literal(value) => c == value,
    }
}

/// A tree and its shape mention the same characters.
pub proof fn lemma_view_char_in(node: AstNode, c: char)
    ensures
        ast_char_in(node, c) <==> view_char_in(ast_view(node), c),
    decreases node,
{
    match node {
        AstNode::Alternation(b) => {
            lemma_view_char_in(*b.left, c);
            lemma_view_char_in(*b.right, c);
        },
        AstNode::Concat(b) => {
            lemma_view_char_in(*b.left, c);
            lemma_view_char_in(*b.right, c);
        },
        AstNode::Repetition(b) => {
            lemma_view_char_in(*b.child, c);
        },
        _ => {},
    }
}

/// regexp: concatenation ('|' concatenation)*. The grammar's parse of `s`
/// from `pos`: the tree and the position after it, or nothing where the
/// grammar does not derive.
pub open spec fn spec_parse_regexp(s: Seq<char>, pos: int) -> Option<(SpecAst, int)>
    decreases s.len() - pos, 5int,
    when 0 <= pos <= s.len()
{
    match spec_parse_concatenation(s, pos) {
        Some((acc, p1)) => if pos < p1 <= s.len() {
            spec_parse_regexp_tail(s, p1, acc)
        } else {
            None
        },
        None => None,
    }
}

pub open spec fn spec_parse_regexp_tail(s: Seq<char>, pos: int, acc: SpecAst) -> Option<
    (SpecAst, int),
>
    decreases s.len() - pos, 4int,
    when 0 <= pos <= s.len()
{
    if pos < s.len() && s[pos] == '|' {
        match spec_parse_concatenation(s, pos + 1) {
            Some((rhs, p2)) => if pos < p2 <= s.len() {
                spec_parse_regexp_tail(
                    s,
                    p2,
                    SpecAst::Alternation(Box::new(acc), Box::new(rhs)),
                )
            } else {
                None
            },
            None => None,
        }
    } else {
        Some((acc, pos))
    }
}

/// concatenation: quantifier (quantifier)*, continuing while the next
/// character can start a factor.
pub open spec fn spec_parse_concatenation(s: Seq<char>, pos: int) -> Option<(SpecAst, int)>
    decreases s.len() - pos, 3int,
    when 0 <= pos <= s.len()
{
    match spec_parse_quantifier(s, pos) {
        Some((acc, p1)) => if pos < p1 <= s.len() {
            spec_parse_concat_tail(s, p1, acc)
        } else {
            None
        },
        None => None,
    }
}

pub open spec fn spec_parse_concat_tail(s: Seq<char>, pos: int, acc: SpecAst) -> Option<
    (SpecAst, int),
>
    decreases s.len() - pos, 3int,
    when 0 <= pos <= s.len()
{
    if pos < s.len() && spec_in_factor_first_set(s[pos]) {
        match spec_parse_quantifier(s, pos) {
            Some((rhs, p2)) => if pos < p2 <= s.len() {
                spec_parse_concat_tail(s, p2, SpecAst::Concat(Box::new(acc), Box::new(rhs)))
            } else {
                None
            },
            None => None,
        }
    } else {
        Some((acc, pos))
    }
}

/// quantifier: factor ('*' | '+' | '?')?
pub open spec fn spec_parse_quantifier(s: Seq<char>, pos: int) -> Option<(SpecAst, int)>
    decreases s.len() - pos, 2int,
    when 0 <= pos <= s.len()
{
    match spec_parse_factor(s, pos) {
        Some((t, p1)) => if p1 < s.len() && spec_is_quantifier(s[p1]) {
            let kind = if s[p1] == '*' {
                RepetitionKind::ZeroOrMore
            } else if s[p1] == '+' {
                RepetitionKind::OneOrMore
            } else {
                RepetitionKind::ZeroOrOne
            };
            Some((SpecAst::Repetition(kind, Box::new(t)), p1 + 1))
        } else {
            Some((t, p1))
        },
        None => None,
    }
}

/// factor: '(' regexp ')' | '\' escape | '.' | '[' class ']' | literal
pub open spec fn spec_parse_factor(s: Seq<char>, pos: int) -> Option<(SpecAst, int)>
    decreases s.len() - pos, 1int,
    when 0 <= pos <= s.len()
{
    if pos < s.len() {
        let c = s[pos];
        if c == '(' {
            match spec_parse_regexp(s, pos + 1) {
                Some((t, p)) => if p < s.len() && s[p] == ')' {
                    Some((t, p + 1))
                } else {
                    None
                },
                None => None,
            }
        } else if c == '\\' {
            if pos + 1 < s.len() {
                match spec_derive_character_class(s[pos + 1]) {
                    Some(cc) => Some((SpecAst::CharacterClass(cc), pos + 2)),
                    None => Some((SpecAst::Literal(s[pos + 1]), pos + 2)),
                }
            } else {
                None
            }
        } else if c == '.' {
            Some((SpecAst::Dot, pos + 1))
        } else if c == '[' {
            match spec_parse_class_bracketed(s, pos + 1) {
                Some((t, p)) => if p < s.len() && s[p] == ']' {
                    Some((t, p + 1))
                } else {
                    None
                },
                None => None,
            }
        } else if !spec_is_special(c) {
            Some((SpecAst::Literal(c), pos + 1))
        } else {
            None
        }
    } else {
        None
    }
}

/// class: '^'? item*, up to but not consuming ']'
pub open spec fn spec_parse_class_bracketed(s: Seq<char>, pos: int) -> Option<(SpecAst, int)>
    decreases s.len() - pos, 1int,
    when 0 <= pos <= s.len()
{
    let negated = pos < s.len() && s[pos] == '^';
    let p0 = if negated {
        pos + 1
    } else {
        pos
    };
    match spec_parse_class_items(s, p0, Seq::empty()) {
        Some((items, p)) => Some((SpecAst::ClassBracketed(negated, items), p)),
        None => None,
    }
}

/// item: '\' escape | literal '-' literal | literal; a downward range is
/// dropped without error.
pub open spec fn spec_parse_class_items(s: Seq<char>, pos: int, items: Seq<ClassSetItem>) -> Option<
    (Seq<ClassSetItem>, int),
>
    decreases s.len() - pos, 0int,
    when 0 <= pos <= s.len()
{
    if pos < s.len() && s[pos] != ']' {
        let start = s[pos];
        if start == '\\' {
            if pos + 1 < s.len() {
                let item = match spec_derive_character_class(s[pos + 1]) {
                    Some(cc) => ClassSetItem::CharacterClass(Box::new(cc)),
                    None => ClassSetItem::Literal(Box::new(Literal { value: s[pos + 1] })),
                };
                spec_parse_class_items(s, pos + 2, items.push(item))
            } else {
                None
            }
        } else if pos + 1 < s.len() && s[pos + 1] == '-' {
            if pos + 2 < s.len() {
                let end = s[pos + 2];
                if start as u32 > end as u32 {
                    spec_parse_class_items(s, pos + 3, items)
                } else {
                    spec_parse_class_items(
                        s,
                        pos + 3,
                        items.push(
                            ClassSetItem::Range(
                                Box::new(
                                    ClassSetRange {
                                        start: Literal { value: start },
                                        end: Literal { value: end },
                                    },
                                ),
                            ),
                        ),
                    )
                }
            } else {
                None
            }
        } else {
            spec_parse_class_items(
                s,
                pos + 1,
                items.push(ClassSetItem::Literal(Box::new(Literal { value: start }))),
            )
        }
    } else {
        Some((items, pos))
    }
}

/// What a whole pattern parses to: nothing where a character falls outside
/// the alphabet or the grammar does not derive the whole pattern; else the
/// tree.
pub open spec fn spec_parse(s: Seq<char>) -> Option<SpecAst> {
    if exists|k: int| 0 <= k < s.len() && spec_invalid(#[trigger] s[k]) {
        None
    } else {
        match spec_parse_regexp(s, 0) {
            Some((t, p)) => if p == s.len() {
                Some(t)
            } else {
                None
            },
            None => None,
        }
    }
}

/// The recursive-descent parser: the pattern as characters, a cursor into it,
/// and the alphabet that classifies each character.
pub struct Parser {
    pub(crate) pattern: Vec<char>,
    pub(crate) offset: usize,
    pub(crate) alphabet: Alphabet,
}

impl Parser {
    /// The cursor sits inside the pattern and every pattern character is an
    /// alphabet character.
    pub(crate) open spec fn wf(self) -> bool {
        self.offset <= self.pattern@.len() && forall|k: int|
            0 <= k < self.pattern@.len() ==> spec_is_valid(#[trigger] self.pattern@[k])
    }

    /// Parses a whole pattern. Succeeds exactly when `spec_parse` derives the
    /// whole pattern, and then returns exactly the tree the grammar derives
    /// (up to the shape `ast_view` takes). Fails with `InvalidCharacters`
    /// exactly when the pattern holds characters outside the alphabet (the
    /// payload lists them in order), and with `UnexpectedToken` or
    /// `UnexpectedEndOfInput` exactly when the pattern does not derive from
    /// the grammar.
    pub fn parse(pattern: &str) -> (r: Result<AstNode, Error>)
        ensures
            (exists|k: int| 0 <= k < pattern@.len() && spec_invalid(#[trigger] pattern@[k]))
                <==> (r matches Err(e) && e matches Error::InvalidCharacters(_)),
            r matches Err(Error::InvalidCharacters(v)) ==> v@ == pattern@.filter(invalid_pred()),
            r matches Ok(node) ==> ast_wf(node),
            (r matches Ok(node)) <==> spec_parse(pattern@) is Some,
            r matches Ok(node) ==> spec_parse(pattern@) == Some(ast_view(node)),
    {
        let lang = Alphabet::new();
        let chars = str_to_chars(pattern);
        if let Err(error) = Parser::validate_pattern_alphabet(&lang, &chars) {
            proof {
                let pred = invalid_pred();
                if pattern@.filter(pred).len() > 0 {
                    let bad = pattern@.filter(pred)[0];
                    assert(pred(bad));
                    assert(pattern@.filter(pred).contains(bad));
                    pattern@.lemma_filter_contains_rev(pred, bad);
                    let j = choose|j: int| 0 <= j < pattern@.len() && pattern@[j] == bad;
                    assert(spec_invalid(pattern@[j]));
                }
            }
            return Err(error);
        }
        proof {
            let pred = invalid_pred();
            if exists|k: int| 0 <= k < pattern@.len() && spec_invalid(#[trigger] pattern@[k]) {
                let k = choose|k: int|
                    0 <= k < pattern@.len() && spec_invalid(#[trigger] pattern@[k]);
                assert(pattern@.filter(pred).contains(pattern@[k]));
            }
        }
        let mut parser = Parser { pattern: chars, offset: 0, alphabet: lang };
        let node = match parser.parse_regexp() {
            Ok(node) => node,
            Err(e) => {
                assert(spec_parse(pattern@) is None);
                return Err(e);
            },
        };
        if parser.offset < parser.pattern.len() {
            // Trailing input that no production can consume, such as a second
            // quantifier in a row or an unmatched closing bracket.
            assert(spec_parse(pattern@) is None);
            return Err(Error::UnexpectedToken('\0', parser.pattern[parser.offset]));
        }
        proof {
            assert(spec_parse(pattern@) == Some(ast_view(node)));
        }
        Ok(node)
    }

    /// Collects, in order, the pattern characters outside the alphabet;
    /// succeeds exactly when there are none.
    fn validate_pattern_alphabet(lang: &Alphabet, pattern: &Vec<char>) -> (r: Result<(), Error>)
        ensures
            r matches Ok(_) <==> pattern@.filter(invalid_pred()).len() == 0,
            r matches Ok(_) ==> forall|k: int|
                0 <= k < pattern@.len() ==> spec_is_valid(#[trigger] pattern@[k]),
            r matches Err(e) ==> (e matches Error::InvalidCharacters(v) && v@ == pattern@.filter(invalid_pred())),
    {
        let mut invalid_chars: Vec<char> = Vec::new();
        let mut i: usize = 0;
        while i < pattern.len()
            invariant
                i <= pattern@.len(),
                invalid_chars@ == pattern@.subrange(0, i as int).filter(invalid_pred()),
            decreases pattern@.len() - i,
        {
            let ghost prefix = pattern@.subrange(0, i as int);
            let c = pattern[i];
            if !lang.is_valid_character(&c) {
                invalid_chars.push(c);
            }
            proof {
                let pred = invalid_pred();
                let x = pattern@[i as int];
                assert(pattern@.subrange(0, i + 1 as int) =~= prefix + seq![x]);
                Seq::<char>::filter_distributes_over_add(prefix, seq![x], pred);
                reveal_with_fuel(Seq::filter, 2);
                assert(seq![x].filter(pred) =~= (if pred(x) {
                    seq![x]
                } else {
                    Seq::<char>::empty()
                }));
                if pred(x) {
                    assert(invalid_chars@ =~= prefix.filter(pred) + seq![x]);
                } else {
                    assert(invalid_chars@ =~= prefix.filter(pred) + Seq::<char>::empty());
                }
                assert(invalid_chars@ == pattern@.subrange(0, i + 1 as int).filter(pred));
            }
            i = i + 1;
        }
        assert(pattern@.subrange(0, pattern@.len() as int) =~= pattern@);
        if invalid_chars.len() == 0 {
            proof {
                let pred = invalid_pred();
                assert forall|k: int|
                    0 <= k < pattern@.len() implies spec_is_valid(#[trigger] pattern@[k]) by {
                    if !spec_is_valid(pattern@[k]) {
                        assert(pattern@.filter(pred).contains(pattern@[k]));
                    }
                }
            }
            Ok(())
        } else {
            Err(Error::InvalidCharacters(invalid_chars))
        }
    }

    /// regexp: concatenation ('|' concatenation)*
    fn parse_regexp(&mut self) -> (r: Result<AstNode, Error>)
        requires
            old(self).wf(),
        ensures
            final(self).wf(),
            final(self).pattern@ == old(self).pattern@,
            final(self).offset >= old(self).offset,
            r matches Ok(node) ==> ast_wf(node) && final(self).offset > old(self).offset,
            r matches Err(e) ==> !(e matches Error::InvalidCharacters(_)),
            (r matches Ok(node)) <==> spec_parse_regexp(
                old(self).pattern@,
                old(self).offset as int,
            ) is Some,
            r matches Ok(node) ==> spec_parse_regexp(old(self).pattern@, old(self).offset as int)
                == Some((ast_view(node), final(self).offset as int)),
        decreases old(self).pattern@.len() - old(self).offset, 3int,
    {
        let ghost s = self.pattern@;
        let ghost pos0 = self.offset as int;
        let mut temp = match self.parse_concatenation() {
            Ok(node) => node,
            Err(e) => {
                assert(spec_parse_regexp(s, pos0) is None);
                return Err(e);
            },
        };
        let ghost base = self.offset;
        let ghost tail0 = spec_parse_regexp_tail(s, self.offset as int, ast_view(temp));
        proof {
            assert(spec_parse_regexp(s, pos0) == tail0);
        }
        loop
            invariant
                self.wf(),
                self.pattern@ == old(self).pattern@,
                s == self.pattern@,
                self.offset >= base >= old(self).offset,
                old(self).offset < base,
                pos0 == old(self).offset as int,
                0 <= pos0 <= s.len(),
                ast_wf(temp),
                spec_parse_regexp_tail(s, self.offset as int, ast_view(temp)) == tail0,
                spec_parse_regexp(s, pos0) == tail0,
            ensures
                self.wf(),
                self.pattern@ == old(self).pattern@,
                s == self.pattern@,
                self.offset >= base,
                ast_wf(temp),
                spec_parse_regexp_tail(s, self.offset as int, ast_view(temp)) == tail0,
                spec_parse_regexp(s, pos0) == tail0,
                self.offset as int == s.len() || s[self.offset as int] != '|',
            decreases self.pattern@.len() - self.offset,
        {
            let ghost cur = self.offset as int;
            let ghost tv = ast_view(temp);
            if self.match_char('|').is_none() {
                break ;
            }
            let rhs = match self.parse_concatenation() {
                Ok(node) => node,
                Err(e) => {
                    proof {
                        assert(spec_parse_regexp_tail(s, cur, tv) is None);
                    }
                    return Err(e);
                },
            };
            proof {
                assert(spec_parse_regexp_tail(s, cur, tv) == spec_parse_regexp_tail(
                    s,
                    self.offset as int,
                    SpecAst::Alternation(Box::new(tv), Box::new(ast_view(rhs))),
                ));
            }
            temp = AstNode::alternation(ast::Alternation::new(temp, rhs));
            proof {
                assert(ast_view(temp) == SpecAst::Alternation(Box::new(tv), Box::new(ast_view(rhs))));
            }
        }
        proof {
            assert(spec_parse_regexp_tail(s, self.offset as int, ast_view(temp)) == Some(
                (ast_view(temp), self.offset as int),
            ));
        }
        Ok(temp)
    }

    /// concatenation: quantifier (quantifier)*
    fn parse_concatenation(&mut self) -> (r: Result<AstNode, Error>)
        requires
            old(self).wf(),
        ensures
            final(self).wf(),
            final(self).pattern@ == old(self).pattern@,
            final(self).offset >= old(self).offset,
            r matches Ok(node) ==> ast_wf(node) && final(self).offset > old(self).offset,
            r matches Err(e) ==> !(e matches Error::InvalidCharacters(_)),
            (r matches Ok(node)) <==> spec_parse_concatenation(
                old(self).pattern@,
                old(self).offset as int,
            ) is Some,
            r matches Ok(node) ==> spec_parse_concatenation(
                old(self).pattern@,
                old(self).offset as int,
            ) == Some((ast_view(node), final(self).offset as int)),
        decreases old(self).pattern@.len() - old(self).offset, 2int,
    {
        let ghost s = self.pattern@;
        let ghost pos0 = self.offset as int;
        let mut temp = match self.parse_quantifier() {
            Ok(node) => node,
            Err(e) => {
                assert(spec_parse_concatenation(s, pos0) is None);
                return Err(e);
            },
        };
        let ghost base = self.offset;
        let ghost tail0 = spec_parse_concat_tail(s, self.offset as int, ast_view(temp));
        proof {
            assert(spec_parse_concatenation(s, pos0) == tail0);
        }
        loop
            invariant
                self.wf(),
                self.pattern@ == old(self).pattern@,
                s == self.pattern@,
                self.offset >= base >= old(self).offset,
                old(self).offset < base,
                pos0 == old(self).offset as int,
                0 <= pos0 <= s.len(),
                ast_wf(temp),
                spec_parse_concat_tail(s, self.offset as int, ast_view(temp)) == tail0,
                spec_parse_concatenation(s, pos0) == tail0,
            ensures
                self.wf(),
                self.pattern@ == old(self).pattern@,
                s == self.pattern@,
                self.offset >= base,
                ast_wf(temp),
                spec_parse_concat_tail(s, self.offset as int, ast_view(temp)) == tail0,
                spec_parse_concatenation(s, pos0) == tail0,
                self.offset as int == s.len() || !spec_in_factor_first_set(
                    s[self.offset as int],
                ),
            decreases self.pattern@.len() - self.offset,
        {
            let ghost cur = self.offset as int;
            let ghost tv = ast_view(temp);
            let cont = match self.peek() {
                Some(c) => self.in_factor_first_set(&c),
                None => false,
            };
            if !cont {
                break ;
            }
            let rhs = match self.parse_quantifier() {
                Ok(node) => node,
                Err(e) => {
                    proof {
                        assert(spec_parse_concat_tail(s, cur, tv) is None);
                    }
                    return Err(e);
                },
            };
            proof {
                assert(spec_parse_concat_tail(s, cur, tv) == spec_parse_concat_tail(
                    s,
                    self.offset as int,
                    SpecAst::Concat(Box::new(tv), Box::new(ast_view(rhs))),
                ));
            }
            temp = AstNode::concat(ast::Concat::new(temp, rhs));
            proof {
                assert(ast_view(temp) == SpecAst::Concat(Box::new(tv), Box::new(ast_view(rhs))));
            }
        }
        proof {
            assert(spec_parse_concat_tail(s, self.offset as int, ast_view(temp)) == Some(
                (ast_view(temp), self.offset as int),
            ));
        }
        Ok(temp)
    }

    /// quantifier: factor ('*' | '+' | '?')?
    fn parse_quantifier(&mut self) -> (r: Result<AstNode, Error>)
        requires
            old(self).wf(),
        ensures
            final(self).wf(),
            final(self).pattern@ == old(self).pattern@,
            final(self).offset >= old(self).offset,
            r matches Ok(node) ==> ast_wf(node) && final(self).offset > old(self).offset,
            r matches Err(e) ==> !(e matches Error::InvalidCharacters(_)),
            (r matches Ok(node)) <==> spec_parse_quantifier(
                old(self).pattern@,
                old(self).offset as int,
            ) is Some,
            r matches Ok(node) ==> spec_parse_quantifier(
                old(self).pattern@,
                old(self).offset as int,
            ) == Some((ast_view(node), final(self).offset as int)),
        decreases old(self).pattern@.len() - old(self).offset, 1int,
    {
        let ghost s = self.pattern@;
        let ghost pos0 = self.offset as int;
        let temp = match self.parse_factor() {
            Ok(node) => node,
            Err(e) => {
                assert(spec_parse_quantifier(s, pos0) is None);
                return Err(e);
            },
        };
        let ghost p1 = self.offset as int;
        if let Some(current_char) = self.match_quantifier_symbol() {
            assert(current_char == s[p1]);
            let kind: ast::RepetitionKind = if current_char == '*' {
                ast::RepetitionKind::ZeroOrMore
            } else if current_char == '+' {
                ast::RepetitionKind::OneOrMore
            } else {
                ast::RepetitionKind::ZeroOrOne
            };
            let node = AstNode::repetition(ast::Repetition::new(kind, temp));
            proof {
                assert(spec_parse_quantifier(s, pos0) == Some(
                    (ast_view(node), self.offset as int),
                ));
            }
            Ok(node)
        } else {
            proof {
                assert(spec_parse_quantifier(s, pos0) == Some((ast_view(temp), p1)));
            }
            Ok(temp)
        }
    }

    /// factor: '(' regexp ')' | '\' escape | '.' | '[' class ']' | literal
    fn parse_factor(&mut self) -> (r: Result<AstNode, Error>)
        requires
            old(self).wf(),
        ensures
            final(self).wf(),
            final(self).pattern@ == old(self).pattern@,
            final(self).offset >= old(self).offset,
            r matches Ok(node) ==> ast_wf(node) && final(self).offset > old(self).offset,
            r matches Err(e) ==> !(e matches Error::InvalidCharacters(_)),
            (r matches Ok(node)) <==> spec_parse_factor(
                old(self).pattern@,
                old(self).offset as int,
            ) is Some,
            r matches Ok(node) ==> spec_parse_factor(old(self).pattern@, old(self).offset as int)
                == Some((ast_view(node), final(self).offset as int)),
        decreases old(self).pattern@.len() - old(self).offset, 0int,
    {
        let ghost s = self.pattern@;
        let ghost pos0 = self.offset as int;
        let current_char = match self.next() {
            Some(c) => c,
            None => {
                assert(spec_parse_factor(s, pos0) is None);
                return Err(Error::UnexpectedEndOfInput);
            },
        };
        assert(current_char == s[pos0]);
        if current_char == '(' {
            let factor = match self.parse_regexp() {
                Ok(node) => node,
                Err(e) => {
                    assert(spec_parse_factor(s, pos0) is None);
                    return Err(e);
                },
            };
            let ghost p = self.offset as int;
            match self.match_char(')') {
                Some(_) => {
                    proof {
                        assert(spec_parse_factor(s, pos0) == Some(
                            (ast_view(factor), self.offset as int),
                        ));
                    }
                    Ok(factor)
                },
                None => {
                    proof {
                        assert(spec_parse_factor(s, pos0) is None);
                    }
                    match self.peek() {
                        Some(actual) => Err(Error::UnexpectedToken(')', actual)),
                        None => Err(Error::UnexpectedEndOfInput),
                    }
                },
            }
        } else if current_char == '\\' {
            let value = match self.next() {
                Some(c) => c,
                None => {
                    assert(spec_parse_factor(s, pos0) is None);
                    return Err(Error::UnexpectedEndOfInput);
                },
            };
            assert(value == s[pos0 + 1]);
            if let Some(character_class) = derive_character_class(&value) {
                let node = AstNode::character_class(character_class);
                proof {
                    assert(spec_parse_factor(s, pos0) == Some((ast_view(node), pos0 + 2)));
                }
                Ok(node)
            } else {
                let node = AstNode::literal(Literal::new(value));
                proof {
                    assert(spec_parse_factor(s, pos0) == Some((ast_view(node), pos0 + 2)));
                }
                Ok(node)
            }
        } else if current_char == '.' {
            let node = AstNode::dot();
            proof {
                assert(spec_parse_factor(s, pos0) == Some((ast_view(node), pos0 + 1)));
            }
            Ok(node)
        } else if current_char == '[' {
            let factor = match self.parse_class_bracketed() {
                Ok(node) => node,
                Err(e) => {
                    assert(spec_parse_factor(s, pos0) is None);
                    return Err(e);
                },
            };
            match self.match_char(']') {
                Some(_) => {
                    proof {
                        assert(spec_parse_factor(s, pos0) == Some(
                            (ast_view(factor), self.offset as int),
                        ));
                    }
                    Ok(factor)
                },
                None => {
                    proof {
                        assert(spec_parse_factor(s, pos0) is None);
                    }
                    Err(Error::UnexpectedEndOfInput)
                },
            }
        } else if !self.alphabet.is_special_character(&current_char) {
            let node = AstNode::literal(Literal::new(current_char));
            proof {
                assert(spec_parse_factor(s, pos0) == Some((ast_view(node), pos0 + 1)));
            }
            Ok(node)
        } else {
            proof {
                assert(spec_parse_factor(s, pos0) is None);
            }
            Err(Error::UnexpectedToken('\0', current_char))
        }
    }

    /// class: '^'? item*, read until an unconsumed ']'
    fn parse_class_bracketed(&mut self) -> (r: Result<AstNode, Error>)
        requires
            old(self).wf(),
        ensures
            final(self).wf(),
            final(self).pattern@ == old(self).pattern@,
            final(self).offset >= old(self).offset,
            r matches Ok(node) ==> ast_wf(node) && (final(self).offset == old(self).pattern@.len()
                || old(self).pattern@[final(self).offset as int] == ']'),
            r matches Err(e) ==> !(e matches Error::InvalidCharacters(_)),
            (r matches Ok(node)) <==> spec_parse_class_bracketed(
                old(self).pattern@,
                old(self).offset as int,
            ) is Some,
            r matches Ok(node) ==> spec_parse_class_bracketed(
                old(self).pattern@,
                old(self).offset as int,
            ) == Some((ast_view(node), final(self).offset as int)),
        decreases old(self).pattern@.len() - old(self).offset, 0int,
    {
        let ghost s = self.pattern@;
        let ghost pos0 = self.offset as int;
        let negated = self.match_char('^').is_some();
        let ghost p0 = self.offset as int;
        let mut class_bracketed = ClassBracketed::new(negated);
        let ghost citems = spec_parse_class_items(s, p0, Seq::empty());
        loop
            invariant
                self.wf(),
                self.pattern@ == old(self).pattern@,
                s == self.pattern@,
                self.offset >= old(self).offset,
                bracketed_wf(class_bracketed),
                class_bracketed.negated == negated,
                pos0 == old(self).offset as int,
                0 <= pos0 <= s.len(),
                citems == spec_parse_class_items(s, self.offset as int, class_bracketed.items@),
                spec_parse_class_bracketed(s, pos0) == (match citems {
                    Some(pr) => Some((SpecAst::ClassBracketed(negated, pr.0), pr.1)),
                    None => None::<(SpecAst, int)>,
                }),
            ensures
                self.wf(),
                self.pattern@ == old(self).pattern@,
                s == self.pattern@,
                self.offset >= old(self).offset,
                bracketed_wf(class_bracketed),
                class_bracketed.negated == negated,
                citems == spec_parse_class_items(s, self.offset as int, class_bracketed.items@),
                spec_parse_class_bracketed(s, pos0) == (match citems {
                    Some(pr) => Some((SpecAst::ClassBracketed(negated, pr.0), pr.1)),
                    None => None::<(SpecAst, int)>,
                }),
                self.offset == self.pattern@.len() || self.pattern@[self.offset as int] == ']',
            decreases self.pattern@.len() - self.offset,
        {
            let ghost cur = self.offset as int;
            let ghost pre_items = class_bracketed.items@;
            let start = match self.peek() {
                Some(c) => {
                    if c == ']' {
                        break ;
                    }
                    c
                },
                None => {
                    break ;
                },
            };
            assert(start == s[cur] && start != ']');
            let _ = self.next();
            if start == '\\' {
                let value = match self.next() {
                    Some(c) => c,
                    None => {
                        proof {
                            assert(spec_parse_class_items(s, cur, pre_items) is None);
                        }
                        return Err(Error::UnexpectedEndOfInput);
                    },
                };
                assert(value == s[cur + 1]);
                if let Some(character_class) = derive_character_class(&value) {
                    class_bracketed.add_character_class_item(character_class);
                } else {
                    class_bracketed.add_literal_item(Literal::new(value));
                }
                proof {
                    assert(spec_parse_class_items(s, cur, pre_items) == spec_parse_class_items(
                        s,
                        cur + 2,
                        class_bracketed.items@,
                    ));
                }
            } else if self.match_char('-').is_some() {
                let end = match self.next() {
                    Some(c) => c,
                    None => {
                        proof {
                            assert(spec_parse_class_items(s, cur, pre_items) is None);
                        }
                        return Err(Error::UnexpectedEndOfInput);
                    },
                };
                assert(end == s[cur + 2]);
                if start as u32 > end as u32 {
                    // A downward range such as `z-a` is silently dropped.
                    proof {
                        assert(spec_parse_class_items(s, cur, pre_items) == spec_parse_class_items(
                            s,
                            cur + 3,
                            class_bracketed.items@,
                        ));
                    }
                } else {
                    class_bracketed.add_range_item(
                        ast::ClassSetRange::new(Literal::new(start), Literal::new(end)),
                    );
                    proof {
                        assert(spec_parse_class_items(s, cur, pre_items) == spec_parse_class_items(
                            s,
                            cur + 3,
                            class_bracketed.items@,
                        ));
                    }
                }
            } else {
                class_bracketed.add_literal_item(Literal::new(start));
                proof {
                    assert(spec_parse_class_items(s, cur, pre_items) == spec_parse_class_items(
                        s,
                        cur + 1,
                        class_bracketed.items@,
                    ));
                }
            }
            proof {
                assert forall|k: int|
                    0 <= k < class_bracketed.items@.len() implies class_item_wf(
                    #[trigger] class_bracketed.items@[k],
                ) by {
                    if k < pre_items.len() {
                        assert(class_item_wf(pre_items[k]));
                    }
                }
            }
        }
        proof {
            assert(spec_parse_class_items(s, self.offset as int, class_bracketed.items@) == Some(
                (class_bracketed.items@, self.offset as int),
            ));
        }
        let node = AstNode::class_bracketed(class_bracketed);
        proof {
            assert(spec_parse_class_bracketed(s, pos0) == Some(
                (ast_view(node), self.offset as int),
            ));
        }
        Ok(node)
    }

    /// Whether a character can start a factor.
    pub fn in_factor_first_set(&self, value: &char) -> (r: bool)
        requires
            spec_is_valid(*value),
        ensures
            r == spec_in_factor_first_set(*value),
    {
        !self.alphabet.is_special_character(value) || *value == '(' || *value == '\\' || *value
            == '.' || *value == '['
    }

    /// The character under the cursor, if any, without consuming it.
    fn peek(&self) -> (r: Option<char>)
        ensures
            r == (if self.offset < self.pattern@.len() {
                Some(self.pattern@[self.offset as int])
            } else {
                None::<char>
            }),
    {
        if self.offset < self.pattern.len() {
            Some(self.pattern[self.offset])
        } else {
            None
        }
    }

    /// Consumes the current character if it equals `expected`.
    fn match_char(&mut self, expected: char) -> (r: Option<char>)
        requires
            old(self).wf(),
        ensures
            final(self).wf(),
            final(self).pattern@ == old(self).pattern@,
            if old(self).offset < old(self).pattern@.len() && old(self).pattern@[old(
                self,
            ).offset as int] == expected {
                r == Some(expected) && final(self).offset == old(self).offset + 1
            } else {
                r == None::<char> && final(self).offset == old(self).offset
            },
    {
        if self.offset < self.pattern.len() {
            let c = self.pattern[self.offset];
            if c == expected {
                self.offset = self.offset + 1;
                return Some(c);
            }
        }
        None
    }

    /// Consumes the current character if it is a quantifier symbol.
    fn match_quantifier_symbol(&mut self) -> (r: Option<char>)
        requires
            old(self).wf(),
        ensures
            final(self).wf(),
            final(self).pattern@ == old(self).pattern@,
            if old(self).offset < old(self).pattern@.len() && spec_is_quantifier(
                old(self).pattern@[old(self).offset as int],
            ) {
                r == Some(old(self).pattern@[old(self).offset as int]) && final(self).offset == old(
                    self,
                ).offset + 1
            } else {
                r == None::<char> && final(self).offset == old(self).offset
            },
    {
        if self.offset < self.pattern.len() {
            let c = self.pattern[self.offset];
            if self.alphabet.is_quantifier_symbol(&c) {
                self.offset = self.offset + 1;
                return Some(c);
            }
        }
        None
    }

    /// Consumes and returns the current character, if any.
    fn next(&mut self) -> (r: Option<char>)
        requires
            old(self).wf(),
        ensures
            final(self).wf(),
            final(self).pattern@ == old(self).pattern@,
            if old(self).offset < old(self).pattern@.len() {
                r == Some(old(self).pattern@[old(self).offset as int]) && final(self).offset == old(
                    self,
                ).offset + 1 && spec_is_valid(old(self).pattern@[old(self).offset as int])
            } else {
                r == None::<char> && final(self).offset == old(self).offset
            },
    {
        if self.offset < self.pattern.len() {
            let c = self.pattern[self.offset];
            self.offset = self.offset + 1;
            Some(c)
        } else {
            None
        }
    }
}

/// The characters of a string, in order.
fn str_to_chars(s: &str) -> (r: Vec<char>)
    ensures
        r@ == s@,
{
    let len = s.unicode_len();
    let mut r: Vec<char> = Vec::new();
    let mut i: usize = 0;
    while i < len
        invariant
            i <= s@.len(),
            len == s@.len(),
            r@ == s@.subrange(0, i as int),
        decreases len - i,
    {
        let c = s.get_char(i);
        r.push(c);
        assert(r@ =~= s@.subrange(0, i + 1 as int));
        i = i + 1;
    }
    assert(s@.subrange(0, s@.len() as int) =~= s@);
    r
}

} // verus!
