use regex_compiler::Regex;
use regex_compiler::alphabet::Alphabet;
use regex_compiler::dfa::DFA;
use regex_compiler::nfa::NFA;
use regex_compiler::parse::Parser;
use regex_compiler::topo::{AstIdx, AstNodeLayer, AstTopo};

#[test]
fn matching_is_deterministic_across_calls() {
    let regex = Regex::new("a*b+c?d").unwrap();
    let inputs = ["abd", "bcd", "ad", "", "acd", "bbbbbbcd"];
    for input in inputs {
        let first = regex.accepts(input);
        for _ in 0..3 {
            assert_eq!(regex.accepts(input), first);
        }
    }
}

#[test]
fn two_compilations_accept_the_same_language() {
    let pattern = "(a|b)*ab(b|cc)kkws*";
    let one = Regex::new(pattern).unwrap();
    let two = Regex::new(pattern).unwrap();
    let inputs = ["abcckkws", "abababbkkws", "abkkw", "abckkwss", "", "ab"];
    for input in inputs {
        assert_eq!(one.accepts(input), two.accepts(input));
    }
}

#[test]
fn subset_construction_preserves_the_simulation() {
    let patterns = ["a*b+c?d", "(a|b)*c", "\\w+\\s+\\w+", "x|yz*"];
    let inputs = ["abd", "bcd", "ad", "", "c", "abababc", "hello world", "x", "yzzz", "y"];
    for pattern in patterns {
        let ast = Parser::parse(pattern).unwrap();
        let nfa = NFA::from_ast(&ast);
        let dfa = DFA::from_nfa(&nfa);
        for input in inputs {
            assert_eq!(nfa.accepts(input), dfa.accepts(input));
        }
    }
}

#[test]
fn the_alphabet_classifies_characters() {
    let alphabet = Alphabet::new();
    assert!(alphabet.is_valid_character(&'a'));
    assert!(alphabet.is_valid_character(&'\t'));
    assert!(alphabet.is_valid_character(&'~'));
    assert!(!alphabet.is_valid_character(&'é'));
    assert!(!alphabet.is_valid_character(&'\u{7f}'));

    assert!(alphabet.is_special_character(&'('));
    assert!(alphabet.is_special_character(&'\\'));
    assert!(!alphabet.is_special_character(&'a'));

    assert!(alphabet.is_quantifier_symbol(&'*'));
    assert!(alphabet.is_quantifier_symbol(&'+'));
    assert!(alphabet.is_quantifier_symbol(&'?'));
    assert!(!alphabet.is_quantifier_symbol(&'.'));
}

#[test]
fn the_alphabet_has_ninety_eight_characters() {
    let all = Alphabet::all_characters();
    assert_eq!(all.len(), 98);
    assert!(all.contains(&' '));
    assert!(all.contains(&'\n'));
    assert!(!all.contains(&'\u{1f}'));
}

#[test]
fn character_classes_have_their_exact_sets() {
    let digits = Alphabet::digit_characters(false);
    assert_eq!(digits.len(), 10);
    assert!(digits.contains(&'0') && digits.contains(&'9'));

    let non_digits = Alphabet::digit_characters(true);
    assert_eq!(non_digits.len(), 88);
    assert!(!non_digits.contains(&'5') && non_digits.contains(&'a'));

    let whitespace = Alphabet::whitespace_characters(false);
    assert_eq!(whitespace.len(), 4);

    let word = Alphabet::word_characters(false);
    assert_eq!(word.len(), 63);
    assert!(word.contains(&'_') && word.contains(&'Z') && !word.contains(&'-'));
}

#[test]
fn a_downward_range_is_silently_dropped() {
    let regex = Regex::new("[z-ab]x").unwrap();
    assert_eq!(regex.accepts("bx"), true);
    assert_eq!(regex.accepts("zx"), false);
    assert_eq!(regex.accepts("ax"), false);
}

#[test]
fn a_dot_matches_any_alphabet_character() {
    let regex = Regex::new(".").unwrap();
    assert_eq!(regex.accepts("a"), true);
    assert_eq!(regex.accepts("|"), true);
    assert_eq!(regex.accepts("\t"), true);
    assert_eq!(regex.accepts(""), false);
    assert_eq!(regex.accepts("ab"), false);
    assert_eq!(regex.accepts("é"), false);
}

#[test]
fn compilation_surfaces_parse_errors() {
    assert!(Regex::new("héllo").is_err());
    assert!(Regex::new("(ab").is_err());
    assert!(Regex::new("a**").is_err());
    assert!(Regex::new("ab").is_ok());
}

#[test]
fn test_requires_a_nonempty_match() {
    let regex = Regex::new("a*").unwrap();
    // the empty pattern language contains the empty string, but `test` only
    // looks at non-empty substrings
    assert_eq!(regex.accepts(""), true);
    assert_eq!(regex.test(""), false);
    assert_eq!(regex.test("a"), true);
    assert_eq!(regex.test("xay"), true);
}

#[test]
fn the_flattener_orders_children_after_parents() {
    let ast = Parser::parse("a|b").unwrap();
    let topo = AstTopo::from_boxed(&ast);
    assert_eq!(topo.elems.len(), 3);
    match &topo.elems[0] {
        AstNodeLayer::Alternation { left, right } => {
            assert_eq!(left.0, 1);
            assert_eq!(right.0, 2);
        },
        _ => panic!("expected an alternation layer at the root"),
    }
    match &topo.elems[1] {
        AstNodeLayer::Literal { value } => assert_eq!(*value, 'a'),
        _ => panic!("expected a literal layer"),
    }
    match &topo.elems[2] {
        AstNodeLayer::Literal { value } => assert_eq!(*value, 'b'),
        _ => panic!("expected a literal layer"),
    }
}

#[test]
fn a_layer_maps_its_child_slots() {
    let layer: AstNodeLayer<AstIdx> = AstNodeLayer::Concat { left: AstIdx(1), right: AstIdx(2) };
    let mapped = layer.map(|i: AstIdx| i.0 + 10);
    match mapped {
        AstNodeLayer::Concat { left, right } => {
            assert_eq!(left, 11);
            assert_eq!(right, 12);
        },
        _ => panic!("expected a concatenation layer"),
    }
}
