use adam_regex::ast::Regex;
use adam_regex::ast::Regex::{Alt, Byte, Concat, Dot, Optional, Plus, Star};
use adam_regex::dfa::DFA;
use adam_regex::nfa::from_regex;
use adam_regex::simulate::matches_bytes;

fn bd(r: Regex) -> Box<Regex> {
    Box::new(r)
}

fn dfa_from(r: &Regex) -> DFA {
    let nfa = from_regex(r);
    nfa.to_dfa()
}

#[test]
fn dfa_tests_char_basic() {
    let dfa = dfa_from(&Byte(b'a'));
    assert!(dfa.matches("a"));
    assert!(!dfa.matches(""));
    assert!(!dfa.matches("b"));
    assert!(!dfa.matches("aa"));
}

#[test]
fn dfa_tests_star() {
    let dfa = dfa_from(&Star(bd(Byte(b'a'))));
    assert!(dfa.matches(""));
    assert!(dfa.matches("a"));
    assert!(dfa.matches("aaaa"));
    assert!(!dfa.matches("ab"));
}

#[test]
fn dfa_tests_concat() {
    let dfa = dfa_from(&Concat(bd(Byte(b'a')), bd(Byte(b'b'))));
    assert!(dfa.matches("ab"));
    assert!(!dfa.matches("a"));
    assert!(!dfa.matches(""));
    assert!(!dfa.matches("abc"));
}

#[test]
fn dfa_tests_star_of_concat() {
    let ab = Concat(bd(Byte(b'a')), bd(Byte(b'b')));
    let dfa = dfa_from(&Star(bd(ab)));
    assert!(dfa.matches(""));
    assert!(dfa.matches("ab"));
    assert!(dfa.matches("abab"));
    assert!(!dfa.matches("a"));
    assert!(!dfa.matches("aba"));
}

#[test]
fn dfa_tests_nested_star_star() {
    let inner = Star(bd(Byte(b'x')));
    let outer = Star(bd(inner));
    let dfa = dfa_from(&outer);
    assert!(dfa.matches(""));
    assert!(dfa.matches("x"));
    assert!(dfa.matches("xx"));
}

#[test]
fn dfa_tests_alt_star() {
    let alt = Alt(bd(Byte(b'a')), bd(Byte(b'b')));
    let dfa = dfa_from(&Star(bd(alt)));
    assert!(dfa.matches(""));
    assert!(dfa.matches("a"));
    assert!(dfa.matches("abab"));
    assert!(!dfa.matches("abc"));
}

#[test]
fn dfa_tests_long_repetition() {
    let pattern = Concat(bd(Star(bd(Byte(b'a')))), bd(Byte(b'b')));
    let dfa = dfa_from(&pattern);
    assert!(dfa.matches("b"));
    assert!(dfa.matches("ab"));
    assert!(dfa.matches("aaaaab"));
    assert!(!dfa.matches("a"));
    assert!(!dfa.matches(""));
}

#[test]
fn subset_construction_shape_of_a_literal() {
    let dfa = dfa_from(&Byte(b'a'));
    assert_eq!(dfa.states.len(), 2);
    assert_eq!(dfa.start, 0);
    for b in 0..256usize {
        let expected = if b == usize::from(b'a') { Some(1) } else { None };
        assert_eq!(dfa.states[0][b], expected);
        assert_eq!(dfa.states[1][b], None);
    }
}

#[test]
fn subset_construction_numbers_states_in_order_of_discovery() {
    // b is a smaller byte than c, so the state reached on b comes first
    let dfa = dfa_from(&Alt(bd(Byte(b'c')), bd(Byte(b'b'))));
    assert_eq!(dfa.states.len(), 3);
    assert_eq!(dfa.states[0][usize::from(b'b')], Some(1));
    assert_eq!(dfa.states[0][usize::from(b'c')], Some(2));
}

#[test]
fn subset_construction_makes_no_dead_state() {
    let dfa = dfa_from(&Concat(bd(Byte(b'a')), bd(Byte(b'b'))));
    assert_eq!(dfa.states.len(), 3);
    assert_eq!(dfa.states[0][usize::from(b'b')], None);
    assert_eq!(dfa.states[1][usize::from(b'a')], None);
}

#[test]
fn dot_fills_the_whole_table() {
    let dfa = dfa_from(&Dot);
    assert_eq!(dfa.states.len(), 2);
    for b in 0..256usize {
        assert_eq!(dfa.states[0][b], Some(1));
        assert_eq!(dfa.states[1][b], None);
    }
    for b in 0..=255u8 {
        assert!(dfa.matches_bytes(&[b]));
    }
    assert!(!dfa.matches_bytes(&[]));
    assert!(!dfa.matches_bytes(&[0, 0]));
}

#[test]
fn matches_reads_the_bytes_of_the_text() {
    let dfa = dfa_from(&Concat(bd(Dot), bd(Dot)));
    // one character, two bytes
    assert!(dfa.matches("é"));
    assert!(!dfa.matches("e"));
    assert!(dfa.matches("ee"));
}

fn sample_trees() -> Vec<Regex> {
    vec![
        Byte(b'a'),
        Dot,
        Star(bd(Byte(b'a'))),
        Plus(bd(Byte(b'a'))),
        Optional(bd(Byte(b'a'))),
        Concat(bd(Byte(b'a')), bd(Byte(b'b'))),
        Alt(bd(Byte(b'a')), bd(Byte(b'b'))),
        Star(bd(Alt(bd(Byte(b'a')), bd(Byte(b'b'))))),
        Star(bd(Concat(bd(Byte(b'a')), bd(Byte(b'b'))))),
        Concat(bd(Star(bd(Byte(b'a')))), bd(Byte(b'b'))),
        Alt(bd(Alt(bd(Byte(b'a')), bd(Byte(b'b')))), bd(Byte(b'a'))),
        Plus(bd(Alt(bd(Byte(b'a')), bd(Concat(bd(Byte(b'b')), bd(Dot)))))),
        Optional(bd(Star(bd(Plus(bd(Byte(b'b'))))))),
        Concat(bd(Optional(bd(Byte(b'a')))), bd(Optional(bd(Byte(b'a'))))),
        Star(bd(Star(bd(Alt(bd(Byte(b'a')), bd(Byte(b'b'))))))),
    ]
}

fn sample_inputs() -> Vec<Vec<u8>> {
    let alphabet = [b'a', b'b', b'c'];
    let mut inputs: Vec<Vec<u8>> = vec![vec![]];
    let mut last: Vec<Vec<u8>> = vec![vec![]];
    for _ in 0..5 {
        let mut next = Vec::new();
        for word in &last {
            for letter in alphabet {
                let mut longer = word.clone();
                longer.push(letter);
                next.push(longer);
            }
        }
        inputs.extend(next.iter().cloned());
        last = next;
    }
    inputs
}

#[test]
fn simulation_and_dfa_agree() {
    let inputs = sample_inputs();
    assert_eq!(inputs.len(), 1 + 3 + 9 + 27 + 81 + 243);
    for tree in sample_trees() {
        let nfa = from_regex(&tree);
        let dfa = nfa.to_dfa();
        for input in &inputs {
            assert_eq!(
                matches_bytes(&nfa, input),
                dfa.matches_bytes(input),
                "{:?} on {:?}",
                tree,
                input
            );
        }
    }
}

#[test]
fn minimization_keeps_the_language() {
    let inputs = sample_inputs();
    for tree in sample_trees() {
        let dfa = dfa_from(&tree);
        let min = dfa.minimize();
        assert!(min.states.len() <= dfa.states.len());
        assert!(min.start < min.states.len());
        for input in &inputs {
            assert_eq!(
                dfa.matches_bytes(input),
                min.matches_bytes(input),
                "{:?} on {:?}",
                tree,
                input
            );
        }
    }
}

#[test]
fn minimizing_twice_changes_nothing_more() {
    for tree in sample_trees() {
        let once = dfa_from(&tree).minimize();
        let twice = once.minimize();
        assert_eq!(once.states.len(), twice.states.len());
    }
}

#[test]
fn minimized_sizes() {
    let sizes = |tree: &Regex| {
        let dfa = dfa_from(tree);
        (dfa.states.len(), dfa.minimize().states.len())
    };
    assert_eq!(sizes(&Byte(b'a')), (2, 2));
    assert_eq!(sizes(&Star(bd(Byte(b'a')))), (2, 1));
    assert_eq!(sizes(&Plus(bd(Byte(b'a')))), (3, 2));
    assert_eq!(sizes(&Optional(bd(Byte(b'a')))), (2, 2));
    assert_eq!(
        sizes(&Alt(bd(Alt(bd(Byte(b'a')), bd(Byte(b'b')))), bd(Byte(b'a')))),
        (3, 2)
    );
    assert_eq!(
        sizes(&Star(bd(Alt(bd(Byte(b'a')), bd(Byte(b'b')))))),
        (3, 1)
    );
}

#[test]
fn minimized_star_is_one_looping_state() {
    let min = dfa_from(&Star(bd(Byte(b'a')))).minimize();
    assert_eq!(min.states.len(), 1);
    assert_eq!(min.start, 0);
    for b in 0..256usize {
        let expected = if b == usize::from(b'a') { Some(0) } else { None };
        assert_eq!(min.states[0][b], expected);
    }
    assert!(min.matches(""));
    assert!(min.matches("aaa"));
    assert!(!min.matches("ab"));
}
