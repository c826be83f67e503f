use adam_regex::bits::StateSet;
use adam_regex::dfa::DFA;

fn row(edges: &[(u8, usize)]) -> [Option<usize>; 256] {
    let mut slots = [None; 256];
    for &(byte, to) in edges {
        slots[usize::from(byte)] = Some(to);
    }
    slots
}

fn automaton(rows: Vec<[Option<usize>; 256]>, start: usize, accepting: &[usize]) -> DFA {
    DFA {
        states: rows,
        start,
        accepting: StateSet::from_indices(accepting),
    }
}

fn words(alphabet: &[u8], longest: usize) -> Vec<Vec<u8>> {
    let mut all: Vec<Vec<u8>> = vec![vec![]];
    let mut last: Vec<Vec<u8>> = vec![vec![]];
    for _ in 0..longest {
        let mut next = Vec::new();
        for word in &last {
            for &letter in alphabet {
                let mut longer = word.clone();
                longer.push(letter);
                next.push(longer);
            }
        }
        all.extend(next.iter().cloned());
        last = next;
    }
    all
}

#[test]
fn state_set_holds_what_it_was_given() {
    let set = StateSet::from_indices(&[3, 0, 3, 70]);
    for index in 0..100 {
        assert_eq!(set.holds(index), index == 0 || index == 3 || index == 70);
    }
    let none = StateSet::from_indices(&[]);
    assert!(!none.holds(0));
}

#[test]
fn accepting_set_decides_the_match() {
    // 0 -a-> 1 -a-> 2, only 1 accepts
    let dfa = automaton(
        vec![row(&[(b'a', 1)]), row(&[(b'a', 2)]), row(&[])],
        0,
        &[1],
    );
    assert!(!dfa.matches(""));
    assert!(dfa.matches("a"));
    assert!(!dfa.matches("aa"));
    assert!(!dfa.matches("aaa"));
    assert!(!dfa.matches("b"));
}

#[test]
fn equal_tails_are_merged() {
    // 0 -a-> 1 -c-> 3, 0 -b-> 2 -c-> 4, with 3 and 4 accepting
    let dfa = automaton(
        vec![
            row(&[(b'a', 1), (b'b', 2)]),
            row(&[(b'c', 3)]),
            row(&[(b'c', 4)]),
            row(&[]),
            row(&[]),
        ],
        0,
        &[3, 4],
    );
    let min = dfa.minimize();
    assert_eq!(min.states.len(), 3);
    let middle = min.states[min.start][usize::from(b'a')].unwrap();
    assert_eq!(min.states[min.start][usize::from(b'b')], Some(middle));
    let end = min.states[middle][usize::from(b'c')].unwrap();
    assert!(min.accepting.holds(end));
    assert!(!min.accepting.holds(middle));
    assert!(!min.accepting.holds(min.start));
    for word in words(b"abc", 4) {
        assert_eq!(dfa.matches_bytes(&word), min.matches_bytes(&word));
    }
}

#[test]
fn first_blocks_are_accepting_then_others() {
    // nothing to split: the accepting states form block 0, the others block 1
    let dfa = automaton(vec![row(&[(b'a', 1)]), row(&[])], 0, &[1]);
    let min = dfa.minimize();
    assert_eq!(min.states.len(), 2);
    assert_eq!(min.start, 1);
    assert!(min.accepting.holds(0));
    assert!(!min.accepting.holds(1));
    assert_eq!(min.states[1][usize::from(b'a')], Some(0));
}

#[test]
fn split_off_states_form_the_new_block() {
    // 0 -a-> 1 -a-> 2 (accepting): state 0 and state 1 start in one block,
    // and state 1, which goes into the accepting block, is split off
    let dfa = automaton(vec![row(&[(b'a', 1)]), row(&[(b'a', 2)]), row(&[])], 0, &[2]);
    let min = dfa.minimize();
    assert_eq!(min.states.len(), 3);
    assert!(min.accepting.holds(0));
    assert_eq!(min.start, 1);
    assert_eq!(min.states[1][usize::from(b'a')], Some(2));
    assert_eq!(min.states[2][usize::from(b'a')], Some(0));
}

#[test]
fn dead_end_is_kept_apart_from_a_stop() {
    // from 1 the run stops on `a`, from 2 it goes on to a dead end: no input
    // is accepted from either, but the outcomes differ
    let dfa = automaton(
        vec![
            row(&[(b'x', 1), (b'y', 2), (b'z', 4)]),
            row(&[]),
            row(&[(b'a', 3)]),
            row(&[]),
            row(&[]),
        ],
        0,
        &[4],
    );
    let min = dfa.minimize();
    // 1 and 3 are alike; 0, 2 and 4 are each of their own kind
    assert_eq!(min.states.len(), 4);
    let at = |state: usize, byte: u8| min.states[state][usize::from(byte)];
    let stop = at(min.start, b'x').unwrap();
    let goes_on = at(min.start, b'y').unwrap();
    assert_ne!(stop, goes_on);
    assert_eq!(at(goes_on, b'a'), Some(stop));
    assert_eq!(at(stop, b'a'), None);
    for word in words(b"axyz", 3) {
        assert_eq!(dfa.matches_bytes(&word), min.matches_bytes(&word));
    }
}

#[test]
fn unreachable_states_are_merged_too() {
    // state 2 cannot be reached, but behaves as state 1 does
    let dfa = automaton(
        vec![row(&[(b'a', 1)]), row(&[(b'b', 1)]), row(&[(b'b', 2)])],
        0,
        &[1, 2],
    );
    let min = dfa.minimize();
    assert_eq!(min.states.len(), 2);
    assert!(min.matches("a"));
    assert!(min.matches("abbb"));
    assert!(!min.matches(""));
    assert!(!min.matches("b"));
}

#[test]
fn no_accepting_state() {
    let dfa = automaton(vec![row(&[(b'a', 1)]), row(&[(b'a', 1)])], 0, &[]);
    let min = dfa.minimize();
    // 0 and 1 both loop on `a` for ever
    assert_eq!(min.states.len(), 1);
    assert_eq!(min.start, 0);
    assert_eq!(min.states[0][usize::from(b'a')], Some(0));
    assert!(!min.matches(""));
    assert!(!min.matches("aaa"));
}

#[test]
fn all_states_accepting() {
    let dfa = automaton(vec![row(&[(b'a', 1)]), row(&[(b'a', 0)])], 1, &[0, 1]);
    let min = dfa.minimize();
    assert_eq!(min.states.len(), 1);
    assert!(min.matches(""));
    assert!(min.matches("aaaa"));
    assert!(!min.matches("ab"));
}

#[test]
fn single_state() {
    let dfa = automaton(vec![row(&[])], 0, &[0]);
    let min = dfa.minimize();
    assert_eq!(min.states.len(), 1);
    assert!(min.matches(""));
    assert!(!min.matches("a"));
}

#[test]
fn two_rounds_of_splitting() {
    // a chain 0 -a-> 1 -a-> 2 -a-> 3 -a-> 4 where only 4 accepts: every state
    // is of its own kind, and it takes one split after the other to see it
    let dfa = automaton(
        vec![
            row(&[(b'a', 1)]),
            row(&[(b'a', 2)]),
            row(&[(b'a', 3)]),
            row(&[(b'a', 4)]),
            row(&[]),
        ],
        0,
        &[4],
    );
    let min = dfa.minimize();
    assert_eq!(min.states.len(), 5);
    assert!(min.matches("aaaa"));
    assert!(!min.matches("aaa"));
    assert!(!min.matches("aaaaa"));
}

#[test]
fn bytes_at_both_ends_of_the_table() {
    let dfa = automaton(
        vec![row(&[(0, 1), (255, 2)]), row(&[]), row(&[])],
        0,
        &[1, 2],
    );
    let min = dfa.minimize();
    assert_eq!(min.states.len(), 2);
    assert!(min.matches_bytes(&[0]));
    assert!(min.matches_bytes(&[255]));
    assert!(!min.matches_bytes(&[1]));
    assert!(!min.matches_bytes(&[254]));
    assert!(!min.matches_bytes(&[0, 0]));
}
