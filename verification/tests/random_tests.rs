use adam_regex::ast::Regex;
use adam_regex::compiler::CompiledPattern;
use adam_regex::nfa::from_regex;
use adam_regex::simulate::matches_bytes;

/// A small generator of numbers that gives the same numbers on every run.
struct Numbers(u64);

impl Numbers {
    fn next(&mut self) -> u64 {
        self.0 = self
            .0
            .wrapping_mul(6364136223846793005)
            .wrapping_add(1442695040888963407);
        self.0 >> 33
    }

    fn below(&mut self, bound: u64) -> u64 {
        self.next() % bound
    }
}

fn tree(numbers: &mut Numbers, depth: u32) -> Regex {
    let kinds = if depth == 0 { 2 } else { 7 };
    match numbers.below(kinds) {
        0 => Regex::Byte(b'a' + numbers.below(3) as u8),
        1 => Regex::Dot,
        2 => Regex::Star(Box::new(tree(numbers, depth - 1))),
        3 => Regex::Plus(Box::new(tree(numbers, depth - 1))),
        4 => Regex::Optional(Box::new(tree(numbers, depth - 1))),
        5 => Regex::Concat(
            Box::new(tree(numbers, depth - 1)),
            Box::new(tree(numbers, depth - 1)),
        ),
        _ => Regex::Alt(
            Box::new(tree(numbers, depth - 1)),
            Box::new(tree(numbers, depth - 1)),
        ),
    }
}

fn input(numbers: &mut Numbers) -> Vec<u8> {
    let len = numbers.below(7);
    (0..len).map(|_| b'a' + numbers.below(4) as u8).collect()
}

/// Whether the tree matches the whole input, decided on the tree itself by
/// trying every way to cut the input.
fn matches_tree(tree: &Regex, w: &[u8]) -> bool {
    match tree {
        Regex::Byte(b) => w.len() == 1 && w[0] == *b,
        Regex::Dot => w.len() == 1,
        Regex::Star(inner) => {
            w.is_empty()
                || (1..=w.len()).any(|k| matches_tree(inner, &w[..k]) && matches_tree(tree, &w[k..]))
        }
        Regex::Plus(inner) => (0..=w.len()).any(|k| {
            matches_tree(inner, &w[..k]) && {
                let rest = &w[k..];
                rest.is_empty()
                    || (1..=rest.len()).any(|j| {
                        matches_tree(inner, &rest[..j]) && repeats(inner, &rest[j..])
                    })
            }
        }),
        Regex::Optional(inner) => w.is_empty() || matches_tree(inner, w),
        Regex::Concat(left, right) => {
            (0..=w.len()).any(|k| matches_tree(left, &w[..k]) && matches_tree(right, &w[k..]))
        }
        Regex::Alt(left, right) => matches_tree(left, w) || matches_tree(right, w),
    }
}

fn repeats(inner: &Regex, w: &[u8]) -> bool {
    w.is_empty() || (1..=w.len()).any(|k| matches_tree(inner, &w[..k]) && repeats(inner, &w[k..]))
}

#[test]
fn random_trees_simulation_and_dfa_agree() {
    let mut numbers = Numbers(2024);
    for _ in 0..150 {
        let tree = tree(&mut numbers, 3);
        let nfa = from_regex(&tree);
        let dfa = nfa.to_dfa();
        let min = dfa.minimize();
        assert!(min.states.len() <= dfa.states.len());
        for _ in 0..40 {
            let word = input(&mut numbers);
            let expected = matches_bytes(&nfa, &word);
            assert_eq!(dfa.matches_bytes(&word), expected, "{:?} on {:?}", tree, word);
            assert_eq!(min.matches_bytes(&word), expected, "{:?} on {:?}", tree, word);
        }
    }
}

#[test]
fn random_trees_match_what_the_tree_says() {
    let mut numbers = Numbers(7);
    for _ in 0..120 {
        let tree = tree(&mut numbers, 3);
        let plain = CompiledPattern::from_ast(&tree, false);
        let small = CompiledPattern::from_ast(&tree, true);
        assert!(small.state_count() <= plain.state_count());
        for _ in 0..30 {
            let word = input(&mut numbers);
            let expected = matches_tree(&tree, &word);
            assert_eq!(plain.matches(&word), expected, "{:?} on {:?}", tree, word);
            assert_eq!(small.matches(&word), expected, "{:?} on {:?}", tree, word);
        }
    }
}

#[test]
fn random_trees_minimizing_again_keeps_the_size() {
    let mut numbers = Numbers(99);
    for _ in 0..100 {
        let tree = tree(&mut numbers, 3);
        let once = from_regex(&tree).to_dfa().minimize();
        let twice = once.minimize();
        assert_eq!(once.states.len(), twice.states.len(), "{:?}", tree);
    }
}
