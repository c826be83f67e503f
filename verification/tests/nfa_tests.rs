use adam_regex::ast::Regex;
use adam_regex::ast::Regex::{Alt, Byte, Concat, Dot, Optional, Plus, Star};
use adam_regex::nfa::{char_nfa, concat_nfa, from_regex, star_nfa, Edge, State, Transition, NFA};
use adam_regex::simulate::{matches_bytes, no_flags, none_marked};

fn bx(r: Regex) -> Box<Regex> {
    Box::new(r)
}

fn expected_char(c: u8) -> NFA {
    NFA {
        states: vec![
            State {
                edges: vec![Edge {
                    label: Transition::Byte(c),
                    to: 1,
                }],
            },
            State { edges: vec![] },
        ],
        start: 0,
        accept: 1,
    }
}

fn expected_concat() -> NFA {
    NFA {
        states: vec![
            State {
                edges: vec![Edge {
                    label: Transition::Byte(b'x'),
                    to: 1,
                }],
            },
            State {
                edges: vec![Edge {
                    label: Transition::Epsilon,
                    to: 2,
                }],
            },
            State {
                edges: vec![Edge {
                    label: Transition::Byte(b'y'),
                    to: 3,
                }],
            },
            State { edges: vec![] },
        ],
        start: 0,
        accept: 3,
    }
}

fn expected_alt() -> NFA {
    NFA {
        states: vec![
            // state 0: start
            State {
                edges: vec![
                    Edge {
                        label: Transition::Epsilon,
                        to: 1,
                    },
                    Edge {
                        label: Transition::Epsilon,
                        to: 3,
                    },
                ],
            },
            // state 1: a start
            State {
                edges: vec![Edge {
                    label: Transition::Byte(b'a'),
                    to: 2,
                }],
            },
            // state 2: a accept
            State {
                edges: vec![Edge {
                    label: Transition::Epsilon,
                    to: 5,
                }],
            },
            // state 3: b start
            State {
                edges: vec![Edge {
                    label: Transition::Byte(b'b'),
                    to: 4,
                }],
            },
            // state 4: b accept
            State {
                edges: vec![Edge {
                    label: Transition::Epsilon,
                    to: 5,
                }],
            },
            // state 5: final accept
            State { edges: vec![] },
        ],
        start: 0,
        accept: 5,
    }
}

fn expected_star() -> NFA {
    NFA {
        states: vec![
            State {
                edges: vec![Edge {
                    label: Transition::Byte(b'z'),
                    to: 1,
                }],
            },
            State {
                edges: vec![
                    Edge {
                        label: Transition::Epsilon,
                        to: 0,
                    },
                    Edge {
                        label: Transition::Epsilon,
                        to: 3,
                    },
                ],
            },
            State {
                edges: vec![
                    Edge {
                        label: Transition::Epsilon,
                        to: 0,
                    },
                    Edge {
                        label: Transition::Epsilon,
                        to: 3,
                    },
                ],
            },
            State { edges: vec![] },
        ],
        start: 2,
        accept: 3,
    }
}

#[test]
fn nfa_from_regex_char_structure() {
    let actual = from_regex(&Byte(b'a'));
    assert_eq!(actual, expected_char(b'a'));
}

#[test]
fn matcher_from_regex_char_structure() {
    let actual = from_regex(&Byte(b'a'));
    assert_eq!(actual, expected_char(b'a'));
}

#[test]
fn nfa_from_regex_concat_structure() {
    let actual = from_regex(&Concat(bx(Byte(b'x')), bx(Byte(b'y'))));
    assert_eq!(actual, expected_concat());
}

#[test]
fn matcher_from_regex_concat_structure() {
    let actual = from_regex(&Concat(bx(Byte(b'x')), bx(Byte(b'y'))));
    assert_eq!(actual, expected_concat());
}

#[test]
fn nfa_from_regex_alt_structure() {
    let actual = from_regex(&Alt(bx(Byte(b'a')), bx(Byte(b'b'))));
    assert_eq!(actual, expected_alt());
}

#[test]
fn matcher_from_regex_alt_structure() {
    let actual = from_regex(&Alt(bx(Byte(b'a')), bx(Byte(b'b'))));
    assert_eq!(actual, expected_alt());
}

#[test]
fn nfa_from_regex_star_structure() {
    let actual = from_regex(&Star(Box::new(Byte(b'z'))));
    assert_eq!(actual, expected_star());
}

#[test]
fn matcher_from_regex_star_structure() {
    let actual = from_regex(&Star(Box::new(Byte(b'z'))));
    assert_eq!(actual, expected_star());
}

#[test]
fn from_regex_dot_structure() {
    let actual = from_regex(&Dot);
    let expected = NFA {
        states: vec![
            State {
                edges: vec![Edge {
                    label: Transition::AnyByte,
                    to: 1,
                }],
            },
            State { edges: vec![] },
        ],
        start: 0,
        accept: 1,
    };
    assert_eq!(actual, expected);
}

#[test]
fn from_regex_optional_structure() {
    let actual = from_regex(&Optional(bx(Byte(b'q'))));
    let eps = |to: usize| Edge {
        label: Transition::Epsilon,
        to,
    };
    let expected = NFA {
        states: vec![
            State {
                edges: vec![Edge {
                    label: Transition::Byte(b'q'),
                    to: 1,
                }],
            },
            State {
                edges: vec![eps(3)],
            },
            State {
                edges: vec![eps(0), eps(3)],
            },
            State { edges: vec![] },
        ],
        start: 2,
        accept: 3,
    };
    assert_eq!(actual, expected);
}

#[test]
fn from_regex_plus_is_inner_then_star() {
    let plus = from_regex(&Plus(bx(Byte(b'p'))));
    let spelled = from_regex(&Concat(bx(Byte(b'p')), bx(Star(bx(Byte(b'p'))))));
    assert_eq!(plus, spelled);
    // the two states of the operand, then the four of its star
    assert_eq!(plus.states.len(), 6);
    assert_eq!(plus.start, 0);
    // the star's accepting state, moved up by the two states of the operand
    assert_eq!(plus.accept, 5);
    assert_eq!(
        plus.states[1].edges,
        vec![Edge {
            label: Transition::Epsilon,
            to: 4
        }]
    );
}

#[test]
fn accept_state_has_no_edges() {
    let trees = vec![
        Byte(b'a'),
        Dot,
        Star(bx(Byte(b'a'))),
        Plus(bx(Byte(b'a'))),
        Optional(bx(Byte(b'a'))),
        Concat(bx(Byte(b'a')), bx(Star(bx(Dot)))),
        Alt(bx(Star(bx(Byte(b'a')))), bx(Plus(bx(Byte(b'b'))))),
    ];
    for tree in trees {
        let nfa = from_regex(&tree);
        assert!(nfa.start < nfa.states.len());
        assert!(nfa.accept < nfa.states.len());
        assert!(nfa.states[nfa.accept].edges.is_empty());
        for state in &nfa.states {
            for edge in &state.edges {
                assert!(edge.to < nfa.states.len());
            }
        }
    }
}

#[test]
fn builders_agree_with_from_regex() {
    assert_eq!(char_nfa(b'a'), from_regex(&Byte(b'a')));
    assert_eq!(
        concat_nfa(&char_nfa(b'x'), &char_nfa(b'y')),
        from_regex(&Concat(bx(Byte(b'x')), bx(Byte(b'y'))))
    );
    let star = star_nfa(char_nfa(b'z'));
    assert_eq!(star, expected_star());
    assert_eq!(star, from_regex(&Star(bx(Byte(b'z')))));
    assert_eq!(star.states.len(), 4);
    assert_eq!(star.start, 2);
    assert_eq!(star.accept, 3);
}

#[test]
fn concat_nfa_leaves_its_arguments() {
    let first = char_nfa(b'a');
    let second = star_nfa(char_nfa(b'b'));
    let joined = concat_nfa(&first, &second);
    assert_eq!(first, char_nfa(b'a'));
    assert_eq!(second, star_nfa(char_nfa(b'b')));
    assert_eq!(joined.states.len(), 6);
    assert_eq!(joined.start, 0);
    assert_eq!(joined.accept, 5);
    assert!(adam_regex::simulate::matches(&joined, "a"));
    assert!(adam_regex::simulate::matches(&joined, "abbb"));
    assert!(!adam_regex::simulate::matches(&joined, "b"));
}

#[test]
fn char_nfa_basic() {
    // 'a'
    let nfa = from_regex(&Byte(b'a'));
    assert!(adam_regex::simulate::matches(&nfa, "a"));
    assert!(!adam_regex::simulate::matches(&nfa, ""));
    assert!(!adam_regex::simulate::matches(&nfa, "b"));
    assert!(!adam_regex::simulate::matches(&nfa, "aa"));
}

#[test]
fn star_nfa_zero_or_more() {
    // 'a*'
    let nfa = from_regex(&Star(bx(Byte(b'a'))));
    assert!(adam_regex::simulate::matches(&nfa, ""));
    assert!(adam_regex::simulate::matches(&nfa, "a"));
    assert!(adam_regex::simulate::matches(&nfa, "aa"));
    assert!(adam_regex::simulate::matches(&nfa, "aaaaaa"));
    assert!(!adam_regex::simulate::matches(&nfa, "b"));
    assert!(!adam_regex::simulate::matches(&nfa, "ab"));
}

#[test]
fn concat_two_chars() {
    // 'ab'
    let nfa = from_regex(&Concat(bx(Byte(b'a')), bx(Byte(b'b'))));
    assert!(adam_regex::simulate::matches(&nfa, "ab"));
    assert!(!adam_regex::simulate::matches(&nfa, ""));
    assert!(!adam_regex::simulate::matches(&nfa, "a"));
    assert!(!adam_regex::simulate::matches(&nfa, "b"));
    assert!(!adam_regex::simulate::matches(&nfa, "abc"));
}

#[test]
fn concat_with_star() {
    // 'ab*'
    let a = Byte(b'a');
    let b_star = Star(bx(Byte(b'b')));
    let nfa = from_regex(&Concat(bx(a), bx(b_star)));

    assert!(adam_regex::simulate::matches(&nfa, "a"));
    assert!(adam_regex::simulate::matches(&nfa, "ab"));
    assert!(adam_regex::simulate::matches(&nfa, "abbb"));
    assert!(!adam_regex::simulate::matches(&nfa, "b"));
    assert!(!adam_regex::simulate::matches(&nfa, ""));
}

#[test]
fn nfa_tests_star_of_concat() {
    // '(ab)*'
    let ab = Concat(bx(Byte(b'a')), bx(Byte(b'b')));
    let nfa = from_regex(&Star(bx(ab)));

    assert!(adam_regex::simulate::matches(&nfa, ""));
    assert!(adam_regex::simulate::matches(&nfa, "ab"));
    assert!(adam_regex::simulate::matches(&nfa, "abab"));
    assert!(adam_regex::simulate::matches(&nfa, "ababab"));
    assert!(!adam_regex::simulate::matches(&nfa, "a"));
    assert!(!adam_regex::simulate::matches(&nfa, "b"));
    assert!(!adam_regex::simulate::matches(&nfa, "aba"));
}

#[test]
fn nfa_tests_nested_star_star() {
    // 'x**'
    let base = Byte(b'x');
    let star1 = Star(bx(base));
    let nfa = from_regex(&Star(bx(star1)));

    assert!(adam_regex::simulate::matches(&nfa, ""));
    assert!(adam_regex::simulate::matches(&nfa, "x"));
    assert!(adam_regex::simulate::matches(&nfa, "xx"));
}

#[test]
fn nfa_tests_alt_star() {
    // '(a|b)*'
    let alt = Star(bx(Alt(bx(Byte(b'a')), bx(Byte(b'b')))));
    let nfa = from_regex(&alt);

    assert!(adam_regex::simulate::matches(&nfa, "aaa"));
    assert!(adam_regex::simulate::matches(&nfa, "bbb"));
    assert!(adam_regex::simulate::matches(&nfa, "abbb"));
    assert!(adam_regex::simulate::matches(&nfa, "aaab"));
    assert!(!adam_regex::simulate::matches(&nfa, "abc"));
}

#[test]
fn long_string_repetition() {
    // 'a*b'
    let a_star = Star(bx(Byte(b'a')));
    let nfa = from_regex(&Concat(bx(a_star), bx(Byte(b'b'))));

    assert!(adam_regex::simulate::matches(&nfa, "b"));
    assert!(adam_regex::simulate::matches(&nfa, "ab"));
    assert!(adam_regex::simulate::matches(&nfa, "aaaaaaaab"));
    assert!(!adam_regex::simulate::matches(&nfa, "a"));
    assert!(!adam_regex::simulate::matches(&nfa, "aaaa"));
}

#[test]
fn empty_string_on_char_nfa() {
    let nfa = from_regex(&Byte(b'a'));
    assert!(!adam_regex::simulate::matches(&nfa, ""));
}

#[test]
fn epsilon_closure_follows_empty_edges_only() {
    // (a|b): 0 -> {1, 3}, 1 -a-> 2, 3 -b-> 4, {2, 4} -> 5
    let nfa = from_regex(&Alt(bx(Byte(b'a')), bx(Byte(b'b'))));
    let mut seeds = no_flags(6);
    seeds[0] = true;
    assert_eq!(
        nfa.epsilon_closure(&seeds),
        vec![true, true, false, true, false, false]
    );
    let mut seeds = no_flags(6);
    seeds[2] = true;
    assert_eq!(
        nfa.epsilon_closure(&seeds),
        vec![false, false, true, false, false, true]
    );
    assert_eq!(nfa.epsilon_closure(&no_flags(6)), no_flags(6));
}

#[test]
fn epsilon_closure_goes_round_loops() {
    // z*: states 1 and 2 lead to 0 and 3, and 0 leads on `z` to 1
    let nfa = from_regex(&Star(bx(Byte(b'z'))));
    let mut seeds = no_flags(4);
    seeds[1] = true;
    assert_eq!(
        nfa.epsilon_closure(&seeds),
        vec![true, true, false, true]
    );
}

#[test]
fn move_on_takes_byte_and_any_byte_edges() {
    let nfa = from_regex(&Alt(bx(Byte(b'a')), bx(Dot)));
    let all = vec![true; 6];
    assert_eq!(
        nfa.move_on(&all, b'a'),
        vec![false, false, true, false, true, false]
    );
    assert_eq!(
        nfa.move_on(&all, b'b'),
        vec![false, false, false, false, true, false]
    );
    let mut only_first = no_flags(6);
    only_first[1] = true;
    assert_eq!(nfa.move_on(&only_first, b'b'), no_flags(6));
    assert!(none_marked(&nfa.move_on(&only_first, b'b')));
    assert!(!none_marked(&nfa.move_on(&only_first, b'a')));
}

#[test]
fn any_byte_edge_reads_every_byte() {
    let nfa = from_regex(&Dot);
    for b in 0..=255u8 {
        assert!(matches_bytes(&nfa, &[b]));
        assert!(!matches_bytes(&nfa, &[b, b]));
    }
    assert!(!matches_bytes(&nfa, &[]));
}

#[test]
fn clone_of_a_state_has_the_same_edges() {
    let nfa = from_regex(&Alt(bx(Byte(b'a')), bx(Dot)));
    for state in &nfa.states {
        let copy = state.clone();
        assert_eq!(&copy, state);
    }
    let copy = nfa.states[0].clone();
    assert_eq!(copy.edges.len(), 2);
}

#[test]
fn stars_add_two_states_each() {
    // one literal under k stars: 2 + 2k states
    let mut tree = Byte(b'a');
    for k in 1..=12usize {
        tree = Star(bx(tree));
        let nfa = from_regex(&tree);
        assert_eq!(nfa.states.len(), 2 + 2 * k);
        assert_eq!(nfa.start, 2 * k);
        assert_eq!(nfa.accept, 2 * k + 1);
    }
    assert!(adam_regex::simulate::matches(&from_regex(&tree), "aaa"));
}
