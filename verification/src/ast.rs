//! The abstract syntax tree of the regex dialect, the character-set meaning of
//! its leaf forms (dot, predefined classes, bracketed classes, literals), and
//! the parse errors.

use vstd::prelude::*;
use crate::alphabet::{
    Alphabet, spec_class_set, spec_is_digit, spec_is_valid, spec_is_whitespace, spec_is_word,
};
use crate::util::{merge_chars, push_if_absent_char, range_chars_into, vec_contains_char};

verus! {

broadcast use vstd::seq_lib::lemma_seq_contains_after_push;

#[derive(Debug, Eq, PartialEq)]
pub enum AstNode {
    Alternation(Box<Alternation>),
    Concat(Box<Concat>),
    Repetition(Box<Repetition>),
    Dot,
    CharacterClass(Box<CharacterClass>),
    ClassBracketed(Box<ClassBracketed>),
    Literal(Box<Literal>),
}

#[derive(Debug, Eq, PartialEq)]
pub struct Alternation {
    pub left: Box<AstNode>,
    pub right: Box<AstNode>,
}

#[derive(Debug, Eq, PartialEq)]
pub struct Concat {
    pub left: Box<AstNode>,
    pub right: Box<AstNode>,
}

#[derive(Debug, Eq, PartialEq)]
pub struct Repetition {
    pub kind: RepetitionKind,
    pub child: Box<AstNode>,
}

#[derive(Debug, Eq, PartialEq, Clone)]
pub enum RepetitionKind {
    ZeroOrOne,
    ZeroOrMore,
    OneOrMore,
}

#[derive(Debug, Eq, PartialEq, Clone)]
pub struct CharacterClass {
    pub kind: CharacterClassKind,
    pub negated: bool,
}

#[derive(Debug, Eq, PartialEq, Clone)]
pub enum CharacterClassKind {
    Digit,
    Word,
    Whitespace,
}

#[derive(Debug, Eq, PartialEq, Clone)]
pub struct ClassBracketed {
    pub negated: bool,
    pub items: Vec<ClassSetItem>,
}

#[derive(Debug, Eq, PartialEq, Clone)]
pub enum ClassSetItem {
    Literal(Box<Literal>),
    Range(Box<ClassSetRange>),
    CharacterClass(Box<CharacterClass>),
}

#[derive(Debug, Eq, PartialEq, Clone)]
pub struct ClassSetRange {
    pub start: Literal,
    pub end: Literal,
}

#[derive(Debug, Eq, PartialEq, Clone)]
pub struct Literal {
    pub value: char,
}

/// Parse errors.
#[derive(Debug, Eq, PartialEq)]
pub enum Error {
    /// The parser reached a character that is not admissible at this point:
    /// the expected character (`'\0'` where no single character was expected)
    /// and the actual one.
    UnexpectedToken(char, char),
    /// The pattern ended while a production required more input.
    UnexpectedEndOfInput,
    /// The pattern contains characters outside the alphabet.
    InvalidCharacters(Vec<char>),
}

/// Which characters a predefined class kind stands for.
pub open spec fn class_kind_matches(kind: CharacterClassKind, c: char) -> bool {
    match kind {
        CharacterClassKind::Digit => spec_is_digit(c),
        CharacterClassKind::Word => spec_is_word(c),
        CharacterClassKind::Whitespace => spec_is_whitespace(c),
    }
}

/// Which characters a (possibly negated) predefined class stands for.
pub open spec fn character_class_matches(cc: CharacterClass, c: char) -> bool {
    if cc.negated {
        spec_is_valid(c) && !class_kind_matches(cc.kind, c)
    } else {
        class_kind_matches(cc.kind, c)
    }
}

/// Which characters one item of a bracketed class stands for.
pub open spec fn class_item_matches(item: ClassSetItem, c: char) -> bool {
    match item {
        ClassSetItem::Literal(lit) => c == lit.value,
        ClassSetItem::Range(rg) => rg.start.value as u32 <= c as u32 && c as u32
            <= rg.end.value as u32,
        ClassSetItem::CharacterClass(cc) => character_class_matches(*cc, c),
    }
}

/// Whether some item of a bracketed class stands for `c`.
pub open spec fn items_match(items: Seq<ClassSetItem>, c: char) -> bool {
    exists|k: int| 0 <= k < items.len() && class_item_matches(#[trigger] items[k], c)
}

/// Which characters a bracketed class stands for: the union of its items, or
/// the alphabet minus that union when negated.
pub open spec fn bracketed_matches(cb: ClassBracketed, c: char) -> bool {
    if cb.negated {
        spec_is_valid(c) && !items_match(cb.items@, c)
    } else {
        items_match(cb.items@, c)
    }
}

pub open spec fn class_item_wf(item: ClassSetItem) -> bool {
    match item {
        ClassSetItem::Literal(lit) => spec_is_valid(lit.value),
        ClassSetItem::Range(rg) => spec_is_valid(rg.start.value) && spec_is_valid(rg.end.value)
            && rg.start.value as u32 <= rg.end.value as u32,
        ClassSetItem::CharacterClass(_) => true,
    }
}

pub open spec fn bracketed_wf(cb: ClassBracketed) -> bool {
    forall|k: int| 0 <= k < cb.items@.len() ==> class_item_wf(#[trigger] cb.items@[k])
}

/// Well-formedness of a parsed tree: every literal is an alphabet character
/// and every range runs upward between alphabet characters.
pub open spec fn ast_wf(node: AstNode) -> bool
    decreases node,
{
    match node {
        AstNode::Alternation(b) => ast_wf(*b.left) && ast_wf(*b.right),
        AstNode::Concat(b) => ast_wf(*b.left) && ast_wf(*b.right),
        AstNode::Repetition(b) => ast_wf(*b.child),
        AstNode::Dot => true,
        AstNode::CharacterClass(_) => true,
        AstNode::ClassBracketed(b) => bracketed_wf(*b),
        AstNode::Literal(b) => spec_is_valid(b.value),
    }
}

/// The characters a tree mentions once its leaves are expanded to character
/// sets: the alphabet for a dot, the class set for a class, the literal itself
/// for a literal.
pub open spec fn ast_char_in(node: AstNode, c: char) -> bool
    decreases node,
{
    match node {
        AstNode::Alternation(b) => ast_char_in(*b.left, c) || ast_char_in(*b.right, c),
        AstNode::Concat(b) => ast_char_in(*b.left, c) || ast_char_in(*b.right, c),
        AstNode::Repetition(b) => ast_char_in(*b.child, c),
        AstNode::Dot => spec_is_valid(c),
        AstNode::CharacterClass(b) => character_class_matches(*b, c),
        AstNode::ClassBracketed(b) => bracketed_matches(*b, c),
        AstNode::Literal(b) => c == b.value,
    }
}

impl AstNode {
    pub fn alternation(e: Alternation) -> (r: AstNode)
        ensures
            r == AstNode::Alternation(Box::new(e)),
    {
        AstNode::Alternation(Box::new(e))
    }

    pub fn concat(e: Concat) -> (r: AstNode)
        ensures
            r == AstNode::Concat(Box::new(e)),
    {
        AstNode::Concat(Box::new(e))
    }

    pub fn repetition(e: Repetition) -> (r: AstNode)
        ensures
            r == AstNode::Repetition(Box::new(e)),
    {
        AstNode::Repetition(Box::new(e))
    }

    pub fn dot() -> (r: AstNode)
        ensures
            r == AstNode::Dot,
    {
        AstNode::Dot
    }

    pub fn character_class(e: CharacterClass) -> (r: AstNode)
        ensures
            r == AstNode::CharacterClass(Box::new(e)),
    {
        AstNode::CharacterClass(Box::new(e))
    }

    pub fn class_bracketed(e: ClassBracketed) -> (r: AstNode)
        ensures
            r == AstNode::ClassBracketed(Box::new(e)),
    {
        AstNode::ClassBracketed(Box::new(e))
    }

    pub fn literal(e: Literal) -> (r: AstNode)
        ensures
            r == AstNode::Literal(Box::new(e)),
    {
        AstNode::Literal(Box::new(e))
    }
}

impl Alternation {
    pub fn new(left: AstNode, right: AstNode) -> (r: Self)
        ensures
            r.left == Box::new(left),
            r.right == Box::new(right),
    {
        Alternation { left: Box::new(left), right: Box::new(right) }
    }
}

impl Concat {
    pub fn new(left: AstNode, right: AstNode) -> (r: Self)
        ensures
            r.left == Box::new(left),
            r.right == Box::new(right),
    {
        Concat { left: Box::new(left), right: Box::new(right) }
    }
}

impl Repetition {
    pub fn new(kind: RepetitionKind, child: AstNode) -> (r: Self)
        ensures
            r.kind == kind,
            r.child == Box::new(child),
    {
        Repetition { kind, child: Box::new(child) }
    }
}

impl CharacterClass {
    pub fn new(kind: CharacterClassKind, negated: bool) -> (r: CharacterClass)
        ensures
            r == (CharacterClass { kind, negated }),
    {
        CharacterClass { kind, negated }
    }
}

impl ClassBracketed {
    pub fn new(negated: bool) -> (r: Self)
        ensures
            r.negated == negated,
            r.items@ =~= Seq::<ClassSetItem>::empty(),
    {
        ClassBracketed { negated, items: Vec::new() }
    }

    pub fn add_literal_item(&mut self, literal: Literal)
        ensures
            final(self).negated == old(self).negated,
            final(self).items@ == old(self).items@.push(ClassSetItem::Literal(Box::new(literal))),
    {
        self.items.push(ClassSetItem::Literal(Box::new(literal)))
    }

    pub fn add_character_class_item(&mut self, cc: CharacterClass)
        ensures
            final(self).negated == old(self).negated,
            final(self).items@ == old(self).items@.push(ClassSetItem::CharacterClass(Box::new(cc))),
    {
        self.items.push(ClassSetItem::CharacterClass(Box::new(cc)))
    }

    pub fn add_range_item(&mut self, range: ClassSetRange)
        ensures
            final(self).negated == old(self).negated,
            final(self).items@ == old(self).items@.push(ClassSetItem::Range(Box::new(range))),
    {
        self.items.push(ClassSetItem::Range(Box::new(range)))
    }
}

impl ClassSetRange {
    pub fn new(start: Literal, end: Literal) -> (r: Self)
        ensures
            r.start == start,
            r.end == end,
    {
        ClassSetRange { start, end }
    }
}

impl Literal {
    pub fn new(value: char) -> (r: Self)
        ensures
            r.value == value,
    {
        Literal { value }
    }
}

/// For nodes that can be collapsed into the character set that they accept.
pub trait ComputeCharacters {
    /// The well-formedness the expansion relies on.
    spec fn characters_wf(&self) -> bool;

    /// Whether the node's character set contains `c`.
    spec fn matches_char(&self, c: char) -> bool;

    /// The node's character set, as a duplicate-free vector.
    fn compute_characters(&self) -> (r: Vec<char>)
        requires
            self.characters_wf(),
        ensures
            r@.no_duplicates(),
            forall|c: char| #[trigger] r@.contains(c) <==> self.matches_char(c),
    ;
}

impl ComputeCharacters for CharacterClass {
    open spec fn characters_wf(&self) -> bool {
        true
    }

    open spec fn matches_char(&self, c: char) -> bool {
        character_class_matches(*self, c)
    }

    fn compute_characters(&self) -> (r: Vec<char>) {
        match self.kind {
            CharacterClassKind::Digit => Alphabet::digit_characters(self.negated),
            CharacterClassKind::Word => Alphabet::word_characters(self.negated),
            CharacterClassKind::Whitespace => Alphabet::whitespace_characters(self.negated),
        }
    }
}

impl ComputeCharacters for ClassBracketed {
    open spec fn characters_wf(&self) -> bool {
        bracketed_wf(*self)
    }

    open spec fn matches_char(&self, c: char) -> bool {
        bracketed_matches(*self, c)
    }

    fn compute_characters(&self) -> (r: Vec<char>) {
        let mut acc: Vec<char> = Vec::new();
        let mut i: usize = 0;
        while i < self.items.len()
            invariant
                bracketed_wf(*self),
                i <= self.items@.len(),
                acc@.no_duplicates(),
                forall|c: char|
                    #[trigger] acc@.contains(c) <==> (exists|k: int|
                        0 <= k < i && class_item_matches(#[trigger] self.items@[k], c)),
            decreases self.items@.len() - i,
        {
            let ghost pre = acc@;
            match &self.items[i] {
                ClassSetItem::Literal(lit) => {
                    push_if_absent_char(&mut acc, lit.value);
                },
                ClassSetItem::CharacterClass(cc) => {
                    let s = cc.compute_characters();
                    merge_chars(&mut acc, &s);
                },
                ClassSetItem::Range(rg) => {
                    range_chars_into(&mut acc, rg.start.value, rg.end.value);
                },
            }
            assert forall|c: char|
                #[trigger] acc@.contains(c) <==> (exists|k: int|
                    0 <= k < i + 1 && class_item_matches(#[trigger] self.items@[k], c)) by {
                if acc@.contains(c) {
                    if pre.contains(c) {
                        let k = choose|k: int|
                            0 <= k < i && class_item_matches(#[trigger] self.items@[k], c);
                        assert(class_item_matches(self.items@[k], c));
                    } else {
                        assert(class_item_matches(self.items@[i as int], c));
                    }
                }
                if exists|k: int|
                    0 <= k < i + 1 && class_item_matches(#[trigger] self.items@[k], c) {
                    let k = choose|k: int|
                        0 <= k < i + 1 && class_item_matches(#[trigger] self.items@[k], c);
                    if k < i {
                        assert(pre.contains(c));
                    }
                    assert(acc@.contains(c));
                }
            }
            i = i + 1;
        }
        if self.negated {
            let all = Alphabet::all_characters();
            let mut out: Vec<char> = Vec::new();
            let mut j: usize = 0;
            while j < all.len()
                invariant
                    j <= all@.len(),
                    all@.no_duplicates(),
                    forall|c: char| #[trigger] all@.contains(c) <==> spec_is_valid(c),
                    acc@.no_duplicates(),
                    forall|c: char|
                        #[trigger] acc@.contains(c) <==> (exists|k: int|
                            0 <= k < self.items@.len() && class_item_matches(
                                #[trigger] self.items@[k],
                                c,
                            )),
                    out@.no_duplicates(),
                    forall|c: char|
                        #[trigger] out@.contains(c) <==> (all@.subrange(0, j as int).contains(c)
                            && !acc@.contains(c)),
                decreases all@.len() - j,
            {
                let ghost pre = out@;
                let c = all[j];
                assert(c == all@[j as int]);
                if !vec_contains_char(&acc, c) {
                    assert(!out@.contains(c)) by {
                        if pre.contains(c) {
                            let k = choose|k: int|
                                0 <= k < all@.subrange(0, j as int).len() && all@.subrange(
                                    0,
                                    j as int,
                                )[k] == c;
                            assert(all@[k] == c && all@[j as int] == c);
                        }
                    }
                    out.push(c);
                }
                assert(all@.subrange(0, j + 1 as int) =~= all@.subrange(0, j as int).push(
                    all@[j as int],
                ));
                assert forall|d: char|
                    #[trigger] out@.contains(d) <==> (all@.subrange(0, j + 1 as int).contains(d)
                        && !acc@.contains(d)) by {
                    assert(all@.subrange(0, j + 1 as int).contains(d) <==> all@.subrange(
                        0,
                        j as int,
                    ).contains(d) || d == all@[j as int]);
                    if !acc@.contains(c) {
                        assert(out@.contains(d) <==> pre.contains(d) || d == c);
                    }
                }
                j = j + 1;
            }
            assert(all@.subrange(0, all@.len() as int) =~= all@);
            out
        } else {
            acc
        }
    }
}

} // verus!
