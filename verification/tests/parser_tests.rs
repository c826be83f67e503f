use adam_regex::ast::Regex;
use adam_regex::ast::Regex::{Alt, Byte, Concat, Dot, Optional, Plus, Star};
use adam_regex::error::{CompileError, LexError, ParseError};
use adam_regex::lexer::Lexer;
use adam_regex::parser::{parse, Parser};

fn boxed(expr: Regex) -> Box<Regex> {
    Box::new(expr)
}

#[test]
fn parser_test_single_char() {
    let ast = parse("a").unwrap();
    assert_eq!(ast, Byte(b'a'));
}

#[test]
fn parser_tests_test_single_char() {
    let ast = parse("a").unwrap();
    assert_eq!(ast, Byte(b'a'));
}

#[test]
fn parser_test_concat_two_chars() {
    let ast = parse("ab").unwrap();
    assert_eq!(ast, Concat(boxed(Byte(b'a')), boxed(Byte(b'b'))));
}

#[test]
fn parser_tests_test_concat_two_chars() {
    let ast = parse("ab").unwrap();
    assert_eq!(ast, Concat(boxed(Byte(b'a')), boxed(Byte(b'b'))));
}

#[test]
fn parser_test_star_operator() {
    let ast = parse("a*").unwrap();
    assert_eq!(ast, Star(boxed(Byte(b'a'))));
}

#[test]
fn parser_tests_test_star_operator() {
    let ast = parse("a*").unwrap();
    assert_eq!(ast, Star(boxed(Byte(b'a'))));
}

#[test]
fn parser_test_star_operator_nested() {
    let ast_nested = parse("ab*").unwrap();
    assert_eq!(
        ast_nested,
        Concat(boxed(Byte(b'a')), boxed(Star(boxed(Byte(b'b')))))
    );
}

#[test]
fn parser_tests_test_star_operator_nested() {
    let ast_nested = parse("ab*").unwrap();
    assert_eq!(
        ast_nested,
        Concat(boxed(Byte(b'a')), boxed(Star(boxed(Byte(b'b')))))
    );
}

#[test]
fn parser_test_alternation() {
    let ast = parse("a|b").unwrap();
    assert_eq!(ast, Alt(boxed(Byte(b'a')), boxed(Byte(b'b'))));
}

#[test]
fn parser_tests_test_alternation() {
    let ast = parse("a|b").unwrap();
    assert_eq!(ast, Alt(boxed(Byte(b'a')), boxed(Byte(b'b'))));
}

#[test]
fn parser_test_concat_has_higher_precedence_than_alt() {
    let ast = parse("ab|c").unwrap();
    assert_eq!(
        ast,
        Alt(
            boxed(Concat(boxed(Byte(b'a')), boxed(Byte(b'b')))),
            boxed(Byte(b'c'))
        )
    );
}

#[test]
fn parser_tests_test_concat_has_higher_precedence_than_alt() {
    let ast = parse("ab|c").unwrap();
    assert_eq!(
        ast,
        Alt(
            boxed(Concat(boxed(Byte(b'a')), boxed(Byte(b'b')))),
            boxed(Byte(b'c'))
        )
    );
}

#[test]
fn parser_test_star_precedence() {
    let ast = parse("a*|b").unwrap();
    assert_eq!(ast, Alt(boxed(Star(boxed(Byte(b'a')))), boxed(Byte(b'b'))));
}

#[test]
fn parser_tests_test_star_precedence() {
    let ast = parse("a*|b").unwrap();
    assert_eq!(ast, Alt(boxed(Star(boxed(Byte(b'a')))), boxed(Byte(b'b'))));
}

#[test]
fn parser_test_grouping_affects_precedence() {
    let ast = parse("(a|b)c").unwrap();
    assert_eq!(
        ast,
        Concat(
            boxed(Alt(boxed(Byte(b'a')), boxed(Byte(b'b')))),
            boxed(Byte(b'c'))
        )
    );
}

#[test]
fn parser_tests_test_grouping_affects_precedence() {
    let ast = parse("(a|b)c").unwrap();
    assert_eq!(
        ast,
        Concat(
            boxed(Alt(boxed(Byte(b'a')), boxed(Byte(b'b')))),
            boxed(Byte(b'c'))
        )
    );
}

#[test]
fn parser_test_nested_groups() {
    let ast = parse("((a|b)*)c").unwrap();
    assert_eq!(
        ast,
        Concat(
            boxed(Star(boxed(Alt(boxed(Byte(b'a')), boxed(Byte(b'b')))))),
            boxed(Byte(b'c'))
        )
    );
}

#[test]
fn parser_tests_test_nested_groups() {
    let ast = parse("((a|b)*)c").unwrap();
    assert_eq!(
        ast,
        Concat(
            boxed(Star(boxed(Alt(boxed(Byte(b'a')), boxed(Byte(b'b')))))),
            boxed(Byte(b'c'))
        )
    );
}

#[test]
fn parser_test_unclosed_group_panics() {
    assert_eq!(
        parse("(ab"),
        Err(CompileError::Parse(ParseError::UnterminatedGroup))
    );
}

#[test]
fn parser_tests_test_unclosed_group_panics() {
    assert_eq!(
        parse("(ab"),
        Err(CompileError::Parse(ParseError::UnterminatedGroup))
    );
}

#[test]
fn parser_test_invalid_start_token_panics() {
    assert_eq!(
        parse("*a"),
        Err(CompileError::Parse(ParseError::UnexpectedToken))
    );
}

#[test]
fn parser_tests_test_invalid_start_token_panics() {
    assert_eq!(
        parse("*a"),
        Err(CompileError::Parse(ParseError::UnexpectedToken))
    );
}

#[test]
fn lex_error_reaches_the_caller() {
    assert_eq!(
        parse("a&"),
        Err(CompileError::Lex(LexError {
            character: '&',
            position: 1
        }))
    );
    assert_eq!(
        parse("&"),
        Err(CompileError::Lex(LexError {
            character: '&',
            position: 0
        }))
    );
    assert_eq!(
        parse("(a|b)$"),
        Err(CompileError::Lex(LexError {
            character: '$',
            position: 5
        }))
    );
}

#[test]
fn first_error_from_the_left_wins() {
    // the parser stops at `*` and never looks at `&`
    assert_eq!(
        parse("*a&"),
        Err(CompileError::Parse(ParseError::UnexpectedToken))
    );
    // `&` is read before the missing `)` is noticed
    assert_eq!(
        parse("(a&"),
        Err(CompileError::Lex(LexError {
            character: '&',
            position: 2
        }))
    );
}

#[test]
fn repetition_operators_stack() {
    assert_eq!(
        parse("a**").unwrap(),
        Star(boxed(Star(boxed(Byte(b'a')))))
    );
    assert_eq!(
        parse("a+?").unwrap(),
        Optional(boxed(Plus(boxed(Byte(b'a')))))
    );
    assert_eq!(
        parse("a?*+").unwrap(),
        Plus(boxed(Star(boxed(Optional(boxed(Byte(b'a')))))))
    );
}

#[test]
fn dot_plus_and_question() {
    assert_eq!(parse(".").unwrap(), Dot);
    assert_eq!(parse("a+").unwrap(), Plus(boxed(Byte(b'a'))));
    assert_eq!(parse("a?").unwrap(), Optional(boxed(Byte(b'a'))));
    assert_eq!(
        parse(".a").unwrap(),
        Concat(boxed(Dot), boxed(Byte(b'a')))
    );
    assert_eq!(
        parse("a.").unwrap(),
        Concat(boxed(Byte(b'a')), boxed(Dot))
    );
}

#[test]
fn concatenation_and_alternation_fold_left() {
    assert_eq!(
        parse("abc").unwrap(),
        Concat(
            boxed(Concat(boxed(Byte(b'a')), boxed(Byte(b'b')))),
            boxed(Byte(b'c'))
        )
    );
    assert_eq!(
        parse("a|b|c").unwrap(),
        Alt(
            boxed(Alt(boxed(Byte(b'a')), boxed(Byte(b'b')))),
            boxed(Byte(b'c'))
        )
    );
}

#[test]
fn empty_and_dangling_patterns_are_rejected() {
    let unexpected = Err(CompileError::Parse(ParseError::UnexpectedToken));
    assert_eq!(parse(""), unexpected);
    assert_eq!(parse("()"), unexpected);
    assert_eq!(parse("a|"), unexpected);
    assert_eq!(parse("|a"), unexpected);
    assert_eq!(parse(")"), unexpected);
    assert_eq!(parse("(|a)"), unexpected);
}

#[test]
fn trailing_tokens_are_rejected() {
    assert_eq!(
        parse("a)"),
        Err(CompileError::Parse(ParseError::UnexpectedToken))
    );
    assert_eq!(
        parse("(a))"),
        Err(CompileError::Parse(ParseError::UnexpectedToken))
    );
}

#[test]
fn unterminated_groups() {
    let open = Err(CompileError::Parse(ParseError::UnterminatedGroup));
    assert_eq!(parse("(a"), open);
    assert_eq!(parse("((a)"), open);
    assert_eq!(parse("(a|b"), open);
    assert_eq!(parse("(a*"), open);
}

#[test]
fn parse_alt_leaves_what_follows() {
    let mut parser = Parser::new(Lexer::new("a|b)c"));
    assert_eq!(
        parser.parse_alt(),
        Ok(Alt(boxed(Byte(b'a')), boxed(Byte(b'b'))))
    );
    // what is left is `)c`, which is no pattern
    assert_eq!(
        parser.parse(),
        Err(CompileError::Parse(ParseError::UnexpectedToken))
    );
}

#[test]
fn parser_starts_where_the_lexer_stands() {
    let mut lexer = Lexer::new("*ab");
    lexer.next_token().unwrap();
    let mut parser = Parser::new(lexer);
    assert_eq!(
        parser.parse(),
        Ok(Concat(boxed(Byte(b'a')), boxed(Byte(b'b'))))
    );
}
