use adam_regex::ast::Regex;
use adam_regex::ast::Regex::{Alt, Byte, Concat, Dot, Optional, Plus, Star};
use adam_regex::compiler::{compile, CompiledPattern};
use adam_regex::error::{CompileError, LexError, ParseError};

fn bm(r: Regex) -> Box<Regex> {
    Box::new(r)
}

fn pattern_from(r: &Regex) -> CompiledPattern {
    CompiledPattern::from_ast(r, true)
}

fn accepts(pattern: &str, input: &str) -> bool {
    let plain = compile(pattern, false).unwrap().matches(input.as_bytes());
    let small = compile(pattern, true).unwrap().matches(input.as_bytes());
    assert_eq!(plain, small, "{:?} on {:?}", pattern, input);
    plain
}

#[test]
fn matcher_tests_char_basic() {
    let dfa = pattern_from(&Byte(b'a'));
    assert!(dfa.matches(b"a"));
    assert!(!dfa.matches(b""));
    assert!(!dfa.matches(b"b"));
    assert!(!dfa.matches(b"aa"));
}

#[test]
fn matcher_tests_star() {
    let dfa = pattern_from(&Star(bm(Byte(b'a'))));
    assert!(dfa.matches(b""));
    assert!(dfa.matches(b"a"));
    assert!(dfa.matches(b"aaaa"));
    assert!(!dfa.matches(b"ab"));
}

#[test]
fn matcher_tests_concat() {
    let dfa = pattern_from(&Concat(bm(Byte(b'a')), bm(Byte(b'b'))));
    assert!(dfa.matches(b"ab"));
    assert!(!dfa.matches(b"a"));
    assert!(!dfa.matches(b""));
    assert!(!dfa.matches(b"abc"));
}

#[test]
fn matcher_tests_star_of_concat() {
    let ab = Concat(bm(Byte(b'a')), bm(Byte(b'b')));
    let dfa = pattern_from(&Star(bm(ab)));
    assert!(dfa.matches(b""));
    assert!(dfa.matches(b"ab"));
    assert!(dfa.matches(b"abab"));
    assert!(!dfa.matches(b"a"));
    assert!(!dfa.matches(b"aba"));
}

#[test]
fn matcher_tests_nested_star_star() {
    let inner = Star(bm(Byte(b'x')));
    let outer = Star(bm(inner));
    let dfa = pattern_from(&outer);
    assert!(dfa.matches(b""));
    assert!(dfa.matches(b"x"));
    assert!(dfa.matches(b"xx"));
}

#[test]
fn matcher_tests_alt_star() {
    let alt = Alt(bm(Byte(b'a')), bm(Byte(b'b')));
    let dfa = pattern_from(&Star(bm(alt)));
    assert!(dfa.matches(b""));
    assert!(dfa.matches(b"a"));
    assert!(dfa.matches(b"abab"));
    assert!(!dfa.matches(b"abc"));
}

#[test]
fn matcher_tests_long_repetition() {
    let pattern = Concat(bm(Star(bm(Byte(b'a')))), bm(Byte(b'b')));
    let dfa = pattern_from(&pattern);
    assert!(dfa.matches(b"b"));
    assert!(dfa.matches(b"ab"));
    assert!(dfa.matches(b"aaaaab"));
    assert!(!dfa.matches(b"a"));
    assert!(!dfa.matches(b""));
}

#[test]
fn dot_matches_anything() {
    let pattern = Dot;
    let dfa = pattern_from(&pattern);
    assert!(dfa.matches(b"a"));
    assert!(dfa.matches(b"z"));
    assert!(dfa.matches(b"1"));
    assert!(!dfa.matches(b""));
    assert!(!dfa.matches(b"ab"));
}

#[test]
fn plus_matches_one_or_more() {
    let pattern = Plus(bm(Byte(b'a')));
    let dfa = pattern_from(&pattern);
    assert!(dfa.matches(b"a"));
    assert!(dfa.matches(b"aaaa"));
    assert!(!dfa.matches(b""));
    assert!(!dfa.matches(b"b"));
}

#[test]
fn optional_matches_zero_or_one() {
    let pattern = Optional(bm(Byte(b'a')));
    let dfa = pattern_from(&pattern);
    assert!(dfa.matches(b""));
    assert!(dfa.matches(b"a"));
    assert!(!dfa.matches(b"aa"));
    assert!(!dfa.matches(b"b"));
}

#[test]
fn test_dfa_minimization_reduces_states() {
    let cases: Vec<Regex> = vec![
        // a*
        Star(bm(Byte(b'a'))),
        // (a|b)*
        Star(bm(Alt(bm(Byte(b'a')), bm(Byte(b'b'))))),
        // (a|b|a)
        Alt(bm(Alt(bm(Byte(b'a')), bm(Byte(b'b')))), bm(Byte(b'a'))),
        // ((a|b)*)*
        Star(bm(Star(bm(Alt(bm(Byte(b'a')), bm(Byte(b'b'))))))),
    ];

    for pattern in cases {
        let minimized = CompiledPattern::from_ast(&pattern, true);
        let plain = CompiledPattern::from_ast(&pattern, false);

        assert!(
            minimized.state_count() < plain.state_count(),
            "Expected minimized DFA to shrink for pattern '{:?}': {} → {}",
            pattern,
            plain.state_count(),
            minimized.state_count()
        );
    }
}

#[test]
fn test_dfa_minimization_preserves_state_count() {
    let cases: Vec<Regex> = vec![
        // (a|a)
        Alt(bm(Byte(b'a')), bm(Byte(b'a'))),
        // (ab|ab)
        Alt(
            bm(Concat(bm(Byte(b'a')), bm(Byte(b'b')))),
            bm(Concat(bm(Byte(b'a')), bm(Byte(b'b')))),
        ),
    ];

    for pattern in cases {
        let minimized = CompiledPattern::from_ast(&pattern, true);
        let plain = CompiledPattern::from_ast(&pattern, false);

        assert_eq!(
            minimized.state_count(),
            plain.state_count(),
            "Expected no change in DFA size for pattern '{:?}'",
            pattern
        );
    }
}

#[test]
fn literal_matches_itself_only() {
    assert!(accepts("a", "a"));
    assert!(!accepts("a", ""));
    assert!(!accepts("a", "b"));
    assert!(!accepts("a", "aa"));
    assert!(!accepts("a", "A"));
}

#[test]
fn star_matches_any_number() {
    assert!(accepts("a*", ""));
    assert!(accepts("a*", "a"));
    assert!(accepts("a*", "aaaa"));
    assert!(!accepts("a*", "ab"));
}

#[test]
fn alternation_matches_either() {
    assert!(accepts("a|b", "a"));
    assert!(accepts("a|b", "b"));
    assert!(!accepts("a|b", ""));
    assert!(!accepts("a|b", "ab"));
    assert!(!accepts("a|b", "c"));
}

#[test]
fn group_under_star() {
    assert!(accepts("(ab)*", ""));
    assert!(accepts("(ab)*", "ab"));
    assert!(accepts("(ab)*", "abab"));
    assert!(!accepts("(ab)*", "a"));
    assert!(!accepts("(ab)*", "aba"));
}

#[test]
fn plus_needs_one() {
    assert!(!accepts("a+", ""));
    assert!(accepts("a+", "a"));
    assert!(accepts("a+", "aaaa"));
    assert!(!accepts("a+", "b"));
}

#[test]
fn question_allows_one() {
    assert!(accepts("a?", ""));
    assert!(accepts("a?", "a"));
    assert!(!accepts("a?", "aa"));
}

#[test]
fn dot_matches_every_single_byte() {
    for minimize in [false, true] {
        let dot = compile(".", minimize).unwrap();
        for b in 0..=255u8 {
            assert!(dot.matches(&[b]));
            assert!(!dot.matches(&[b, b]));
        }
        assert!(!dot.matches(&[]));
    }
}

#[test]
fn match_is_anchored_at_both_ends() {
    assert!(!accepts("b", "abc"));
    assert!(!accepts("ab", "abc"));
    assert!(!accepts("bc", "abc"));
    assert!(accepts("abc", "abc"));
    assert!(accepts(".*b.*", "abc"));
}

#[test]
fn mixed_patterns() {
    assert!(accepts("(a|b)*c", "aaaabbbbbc"));
    assert!(!accepts("(a|b)*c", "aaaabbbbb"));
    assert!(accepts("x(y|z)+w?", "xyzzy"));
    assert!(accepts("x(y|z)+w?", "xzw"));
    assert!(!accepts("x(y|z)+w?", "xw"));
    assert!(accepts("((a*)*)*", "aaaaaaaaaaaaaaaaaaaaaaaaaaaaaaaa"));
    assert!(accepts("(ab|cd|ef|gh|ij|kl|mn|op)*z", "abefcdghmnklijopz"));
    assert!(!accepts("(ab|cd|ef|gh|ij|kl|mn|op)*z", "abefcdghmnklijop"));
    assert!(accepts("0(1|2)?3+", "0333"));
    assert!(accepts("A.Z", "A-Z"));
}

#[test]
fn same_pattern_same_answers() {
    let inputs = ["", "a", "b", "ab", "ba", "abab", "abc", "aab", "bbbb"];
    for pattern in ["a", "a*", "a|b", "(ab)*", "a+", "a?", ".", "(a|b)*b", "a.b"] {
        let first = compile(pattern, true).unwrap();
        let second = compile(pattern, true).unwrap();
        assert_eq!(first.state_count(), second.state_count());
        for input in inputs {
            let answer = first.matches(input.as_bytes());
            assert_eq!(answer, second.matches(input.as_bytes()));
            assert_eq!(answer, first.matches(input.as_bytes()));
        }
    }
}

#[test]
fn minimized_pattern_is_no_larger() {
    for pattern in [
        "a", "a*", "a|b", "(ab)*", "a+", "a?", ".", "(a|b)*b", "(a|b|a)", ".*", "(a?b?)*",
    ] {
        let plain = compile(pattern, false).unwrap();
        let small = compile(pattern, true).unwrap();
        assert!(small.state_count() <= plain.state_count());
        assert!(small.state_count() >= 1);
    }
    assert_eq!(compile("(a|b|a)", false).unwrap().state_count(), 3);
    assert_eq!(compile("(a|b|a)", true).unwrap().state_count(), 2);
    assert_eq!(compile(".*", true).unwrap().state_count(), 1);
}

#[test]
fn compile_reports_errors() {
    assert_eq!(
        compile("(ab", true).err(),
        Some(CompileError::Parse(ParseError::UnterminatedGroup))
    );
    assert_eq!(
        compile("*a", false).err(),
        Some(CompileError::Parse(ParseError::UnexpectedToken))
    );
    assert_eq!(
        compile("a&", true).err(),
        Some(CompileError::Lex(LexError {
            character: '&',
            position: 1
        }))
    );
    assert_eq!(
        compile("", true).err(),
        Some(CompileError::Parse(ParseError::UnexpectedToken))
    );
    assert_eq!(
        compile("a\\*", true).err(),
        Some(CompileError::Lex(LexError {
            character: '\\',
            position: 1
        }))
    );
    assert_eq!(
        compile("é", true).err(),
        Some(CompileError::Lex(LexError {
            character: 'é',
            position: 0
        }))
    );
}

#[test]
fn failed_compile_can_be_retried() {
    assert!(compile("(a|b", true).is_err());
    let fixed = compile("(a|b)", true).unwrap();
    assert!(fixed.matches(b"a"));
    assert!(fixed.matches(b"b"));
    assert!(!fixed.matches(b"c"));
}
