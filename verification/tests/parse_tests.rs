use regex_compiler::ast::{self, AstNode, Literal};
use regex_compiler::parse::Parser;

#[test]
fn it_works() {
    let ast = Parser::parse("a").unwrap();
    assert_eq!(ast, AstNode::literal(Literal::new('a')));
}

#[test]
fn it_works_with_concatenation() {
    let ast = Parser::parse("ab").unwrap();
    assert_eq!(
        ast,
        AstNode::concat(ast::Concat::new(
            AstNode::literal(Literal::new('a')),
            AstNode::literal(Literal::new('b'))
        ))
    );
}

#[test]
fn it_works_with_alternation() {
    let ast = Parser::parse("a|b").unwrap();
    assert_eq!(
        ast,
        AstNode::alternation(ast::Alternation::new(
            AstNode::literal(Literal::new('a')),
            AstNode::literal(Literal::new('b'))
        ))
    );
}

#[test]
fn it_works_with_quantifiers() {
    let ast = Parser::parse("a*").unwrap();
    assert_eq!(
        ast,
        AstNode::repetition(ast::Repetition::new(
            ast::RepetitionKind::ZeroOrMore,
            AstNode::literal(Literal::new('a'))
        ))
    );
}

#[test]
fn it_rejects_characters_outside_the_alphabet() {
    let err = Parser::parse("héllo").unwrap_err();
    assert_eq!(err, ast::Error::InvalidCharacters(vec!['é']));
}

#[test]
fn it_collects_every_invalid_character_in_order() {
    let err = Parser::parse("aé\u{7f}b\u{0}").unwrap_err();
    assert_eq!(err, ast::Error::InvalidCharacters(vec!['é', '\u{7f}', '\u{0}']));
}

#[test]
fn it_reports_end_of_input_for_unclosed_group() {
    let err = Parser::parse("(ab").unwrap_err();
    assert_eq!(err, ast::Error::UnexpectedEndOfInput);
}

#[test]
fn it_reports_end_of_input_for_missing_escape_payload() {
    let err = Parser::parse("ab\\").unwrap_err();
    assert_eq!(err, ast::Error::UnexpectedEndOfInput);
}

#[test]
fn it_reports_end_of_input_for_unclosed_class() {
    let err = Parser::parse("[ab").unwrap_err();
    assert_eq!(err, ast::Error::UnexpectedEndOfInput);
}

#[test]
fn it_rejects_doubled_quantifiers() {
    let err = Parser::parse("a**").unwrap_err();
    assert_eq!(err, ast::Error::UnexpectedToken('\0', '*'));
}

#[test]
fn it_rejects_an_empty_pattern_head() {
    let err = Parser::parse("*a").unwrap_err();
    assert_eq!(err, ast::Error::UnexpectedToken('\0', '*'));
}

#[test]
fn it_parses_an_escaped_class_letter() {
    let ast = Parser::parse("\\d").unwrap();
    assert_eq!(
        ast,
        AstNode::character_class(ast::CharacterClass::new(ast::CharacterClassKind::Digit, false))
    );
}
