//! The fixed alphabet of the regex dialect: printable ASCII plus tab, newline
//! and carriage return, each character carrying two syntactic flags (special,
//! quantifier), and the three derived character classes (whitespace, digits,
//! word characters) together with their negations.

use vstd::prelude::*;
use crate::util::char_cast_injective;

verus! {

broadcast use vstd::seq_lib::lemma_seq_contains_after_push;

/// A character the alphabet admits: printable ASCII plus tab, newline and
/// carriage return.
pub open spec fn spec_is_valid(c: char) -> bool {
    c as u32 == 9 || c as u32 == 10 || c as u32 == 13 || (32 <= c as u32 && c as u32 <= 126)
}

/// A character reserved by the regex syntax.
pub open spec fn spec_is_special(c: char) -> bool {
    c == '"' || c == '(' || c == ')' || c == '*' || c == '+' || c == '.' || c == '?' || c == '['
        || c == '\\' || c == ']' || c == '^' || c == '|'
}

/// One of the postfix quantifier symbols.
pub open spec fn spec_is_quantifier(c: char) -> bool {
    c == '*' || c == '+' || c == '?'
}

pub open spec fn spec_is_whitespace(c: char) -> bool {
    c == ' ' || c == '\t' || c == '\n' || c == '\r'
}

pub open spec fn spec_is_digit(c: char) -> bool {
    48 <= c as u32 && c as u32 <= 57
}

pub open spec fn spec_is_word(c: char) -> bool {
    spec_is_digit(c) || (65 <= c as u32 && c as u32 <= 90) || (97 <= c as u32 && c as u32 <= 122)
        || c == '_'
}

/// The set a class query answers for: the base class, or its complement
/// within the alphabet.
pub open spec fn spec_class_set(base: spec_fn(char) -> bool, negated: bool, c: char) -> bool {
    if negated {
        spec_is_valid(c) && !base(c)
    } else {
        base(c)
    }
}

/// The catalogue of permitted characters and their syntactic roles.
pub struct Alphabet {}

impl Alphabet {
    pub fn new() -> (r: Alphabet) {
        Alphabet {}
    }

    /// Every valid character in the alphabet, without duplicates.
    pub fn all_characters() -> (r: Vec<char>)
        ensures
            r@.no_duplicates(),
            forall|c: char| #[trigger] r@.contains(c) <==> spec_is_valid(c),
    {
        let mut r: Vec<char> = Vec::new();
        r.push('\t');
        r.push('\n');
        r.push('\r');
        assert(r@.no_duplicates());
        assert forall|d: char|
            #[trigger] r@.contains(d) <==> (d as u32 == 9 || d as u32 == 10 || d as u32 == 13 || (32 <= d
                as u32 && (d as u32) < 32)) by {
            char_cast_injective(d, '\t');
            char_cast_injective(d, '\n');
            char_cast_injective(d, '\r');
        }
        let mut code: u32 = 32;
        while code <= 126
            invariant
                32 <= code <= 127,
                r@.no_duplicates(),
                forall|c: char|
                    #[trigger] r@.contains(c) <==> (c as u32 == 9 || c as u32 == 10 || c as u32 == 13 || (32
                        <= c as u32 && (c as u32) < code)),
            decreases 127 - code,
        {
            let ghost pre = r@;
            let c = (code as u8) as char;
            assert(c as u32 == code);
            assert(!r@.contains(c));
            r.push(c);
            assert forall|d: char|
                #[trigger] r@.contains(d) <==> (d as u32 == 9 || d as u32 == 10 || d as u32 == 13 || (32 <= d
                    as u32 && (d as u32) < code + 1)) by {
                char_cast_injective(d, c);
                assert(r@.contains(d) <==> pre.contains(d) || d == c);
            }
            code = code + 1;
        }
        r
    }

    /// The whitespace class, or its complement within the alphabet.
    pub fn whitespace_characters(negated: bool) -> (r: Vec<char>)
        ensures
            r@.no_duplicates(),
            forall|c: char|
                #[trigger] r@.contains(c) <==> spec_class_set(|c: char| spec_is_whitespace(c), negated, c),
    {
        if negated {
            Self::negated_class(0)
        } else {
            let mut r: Vec<char> = Vec::new();
            r.push(' ');
            r.push('\t');
            r.push('\n');
            r.push('\r');
            assert(forall|c: char| #[trigger] r@.contains(c) <==> spec_is_whitespace(c));
            r
        }
    }

    /// The digit class, or its complement within the alphabet.
    pub fn digit_characters(negated: bool) -> (r: Vec<char>)
        ensures
            r@.no_duplicates(),
            forall|c: char|
                #[trigger] r@.contains(c) <==> spec_class_set(|c: char| spec_is_digit(c), negated, c),
    {
        if negated {
            Self::negated_class(1)
        } else {
            let mut r: Vec<char> = Vec::new();
            let mut code: u32 = 48;
            while code <= 57
                invariant
                    48 <= code <= 58,
                    r@.no_duplicates(),
                    forall|c: char| #[trigger] r@.contains(c) <==> (48 <= c as u32 && (c as u32) < code),
                decreases 58 - code,
            {
                let ghost pre = r@;
                let c = (code as u8) as char;
                assert(c as u32 == code);
                assert(!r@.contains(c));
                r.push(c);
                assert forall|d: char|
                    #[trigger] r@.contains(d) <==> (48 <= d as u32 && (d as u32) < code + 1) by {
                    char_cast_injective(d, c);
                    assert(r@.contains(d) <==> pre.contains(d) || d == c);
                }
                code = code + 1;
            }
            r
        }
    }

    /// The word-character class, or its complement within the alphabet.
    pub fn word_characters(negated: bool) -> (r: Vec<char>)
        ensures
            r@.no_duplicates(),
            forall|c: char|
                #[trigger] r@.contains(c) <==> spec_class_set(|c: char| spec_is_word(c), negated, c),
    {
        if negated {
            Self::negated_class(2)
        } else {
            let mut r: Vec<char> = Vec::new();
            let mut code: u32 = 48;
            while code <= 57
                invariant
                    48 <= code <= 58,
                    r@.no_duplicates(),
                    forall|c: char| #[trigger] r@.contains(c) <==> (48 <= c as u32 && (c as u32) < code),
                decreases 58 - code,
            {
                let ghost pre = r@;
                let c = (code as u8) as char;
                assert(c as u32 == code);
                assert(!r@.contains(c));
                r.push(c);
                assert forall|d: char|
                    #[trigger] r@.contains(d) <==> (48 <= d as u32 && (d as u32) < code + 1) by {
                    char_cast_injective(d, c);
                    assert(r@.contains(d) <==> pre.contains(d) || d == c);
                }
                code = code + 1;
            }
            code = 65;
            while code <= 90
                invariant
                    65 <= code <= 91,
                    r@.no_duplicates(),
                    forall|c: char|
                        #[trigger] r@.contains(c) <==> (spec_is_digit(c) || (65 <= c as u32 && (c as u32)
                            < code)),
                decreases 91 - code,
            {
                let ghost pre = r@;
                let c = (code as u8) as char;
                assert(c as u32 == code);
                assert(!r@.contains(c));
                r.push(c);
                assert forall|d: char|
                    #[trigger] r@.contains(d) <==> (spec_is_digit(d) || (65 <= d as u32 && (d as u32) < code
                        + 1)) by {
                    char_cast_injective(d, c);
                    assert(r@.contains(d) <==> pre.contains(d) || d == c);
                }
                code = code + 1;
            }
            code = 97;
            while code <= 122
                invariant
                    97 <= code <= 123,
                    r@.no_duplicates(),
                    forall|c: char|
                        #[trigger] r@.contains(c) <==> (spec_is_digit(c) || (65 <= c as u32 && c as u32 <= 90)
                            || (97 <= c as u32 && (c as u32) < code)),
                decreases 123 - code,
            {
                let ghost pre = r@;
                let c = (code as u8) as char;
                assert(c as u32 == code);
                assert(!r@.contains(c));
                r.push(c);
                assert forall|d: char|
                    #[trigger] r@.contains(d) <==> (spec_is_digit(d) || (65 <= d as u32 && d as u32 <= 90) || (
                    97 <= d as u32 && (d as u32) < code + 1)) by {
                    char_cast_injective(d, c);
                    assert(r@.contains(d) <==> pre.contains(d) || d == c);
                }
                code = code + 1;
            }
            let ghost pre = r@;
            assert(!r@.contains('_'));
            r.push('_');
            assert forall|d: char| r@.contains(d) <==> spec_is_word(d) by {
                char_cast_injective(d, '_');
                assert(r@.contains(d) <==> pre.contains(d) || d == '_');
            }
            r
        }
    }

    /// Filters the whole alphabet by the class selected with `which`
    /// (0 whitespace, 1 digits, 2 word), keeping the characters outside it.
    fn negated_class(which: u8) -> (r: Vec<char>)
        requires
            which < 3,
        ensures
            r@.no_duplicates(),
            forall|c: char|
                #[trigger] r@.contains(c) <==> (spec_is_valid(c) && !(if which == 0 {
                    spec_is_whitespace(c)
                } else if which == 1 {
                    spec_is_digit(c)
                } else {
                    spec_is_word(c)
                })),
    {
        let all = Self::all_characters();
        let mut r: Vec<char> = Vec::new();
        let mut i: usize = 0;
        while i < all.len()
            invariant
                which < 3,
                i <= all@.len(),
                all@.no_duplicates(),
                forall|c: char| #[trigger] all@.contains(c) <==> spec_is_valid(c),
                r@.no_duplicates(),
                forall|c: char|
                    #[trigger] r@.contains(c) <==> (all@.subrange(0, i as int).contains(c) && !(if which == 0 {
                        spec_is_whitespace(c)
                    } else if which == 1 {
                        spec_is_digit(c)
                    } else {
                        spec_is_word(c)
                    })),
            decreases all@.len() - i,
        {
            let ghost pre = r@;
            let c = all[i];
            let in_class = if which == 0 {
                Self::test_whitespace(c)
            } else if which == 1 {
                Self::test_digit(c)
            } else {
                Self::test_word(c)
            };
            if !in_class {
                assert(!r@.contains(c)) by {
                    if pre.contains(c) {
                        let j = choose|j: int| 0 <= j < i && all@.subrange(0, i as int)[j] == c;
                        assert(all@[j] == c && all@[i as int] == c);
                    }
                }
                r.push(c);
            }
            assert(all@.subrange(0, i + 1 as int) =~= all@.subrange(0, i as int).push(
                all@[i as int],
            ));
            assert forall|d: char|
                #[trigger] r@.contains(d) <==> (all@.subrange(0, i + 1 as int).contains(d) && !(if which == 0 {
                    spec_is_whitespace(d)
                } else if which == 1 {
                    spec_is_digit(d)
                } else {
                    spec_is_word(d)
                })) by {
                if !in_class {
                    assert(r@.contains(d) <==> pre.contains(d) || d == c);
                }
            }
            i = i + 1;
        }
        assert(all@.subrange(0, all@.len() as int) =~= all@);
        r
    }

    fn test_whitespace(c: char) -> (r: bool)
        ensures
            r == spec_is_whitespace(c),
    {
        c == ' ' || c == '\t' || c == '\n' || c == '\r'
    }

    fn test_digit(c: char) -> (r: bool)
        ensures
            r == spec_is_digit(c),
    {
        let n = c as u32;
        48 <= n && n <= 57
    }

    fn test_word(c: char) -> (r: bool)
        ensures
            r == spec_is_word(c),
    {
        let n = c as u32;
        (48 <= n && n <= 57) || (65 <= n && n <= 90) || (97 <= n && n <= 122) || c == '_'
    }

    /// Whether the alphabet admits the character at all.
    pub fn is_valid_character(&self, value: &char) -> (r: bool)
        ensures
            r == spec_is_valid(*value),
    {
        let n = *value as u32;
        n == 9 || n == 10 || n == 13 || (32 <= n && n <= 126)
    }

    /// Whether the character is reserved by the regex syntax.
    pub fn is_special_character(&self, value: &char) -> (r: bool)
        requires
            spec_is_valid(*value),
        ensures
            r == spec_is_special(*value),
    {
        let c = *value;
        c == '"' || c == '(' || c == ')' || c == '*' || c == '+' || c == '.' || c == '?' || c == '['
            || c == '\\' || c == ']' || c == '^' || c == '|'
    }

    /// Whether the character is one of the postfix quantifier symbols.
    pub fn is_quantifier_symbol(&self, value: &char) -> (r: bool)
        requires
            spec_is_valid(*value),
        ensures
            r == spec_is_quantifier(*value),
    {
        let c = *value;
        c == '*' || c == '+' || c == '?'
    }
}

} // verus!
