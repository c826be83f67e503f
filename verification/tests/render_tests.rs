use adam_regex::ast::Regex;
use adam_regex::ast::Regex::{Alt, Byte, Concat, Dot, Optional, Plus, Star};
use adam_regex::parser::parse;

fn br(r: Regex) -> Box<Regex> {
    Box::new(r)
}

fn letter(c: char) -> Regex {
    Byte(c as u8)
}

#[test]
fn text_of_atoms() {
    assert_eq!(letter('a').to_text(), "a");
    assert_eq!(letter('Z').to_text(), "Z");
    assert_eq!(letter('0').to_text(), "0");
    assert_eq!(Dot.to_text(), ".");
}

#[test]
fn text_of_operators() {
    assert_eq!(Star(br(letter('a'))).to_text(), "a*");
    assert_eq!(Plus(br(letter('a'))).to_text(), "a+");
    assert_eq!(Optional(br(letter('a'))).to_text(), "a?");
    assert_eq!(Concat(br(letter('a')), br(letter('b'))).to_text(), "ab");
    assert_eq!(Alt(br(letter('a')), br(letter('b'))).to_text(), "a|b");
    assert_eq!(Star(br(Star(br(letter('a'))))).to_text(), "a**");
    assert_eq!(Optional(br(Plus(br(Dot)))).to_text(), ".+?");
}

#[test]
fn parentheses_only_where_needed() {
    let ab = || Concat(br(letter('a')), br(letter('b')));
    let a_or_b = || Alt(br(letter('a')), br(letter('b')));
    assert_eq!(Star(br(ab())).to_text(), "(ab)*");
    assert_eq!(Star(br(a_or_b())).to_text(), "(a|b)*");
    assert_eq!(Concat(br(a_or_b()), br(letter('c'))).to_text(), "(a|b)c");
    assert_eq!(Concat(br(letter('c')), br(a_or_b())).to_text(), "c(a|b)");
    assert_eq!(Alt(br(ab()), br(letter('c'))).to_text(), "ab|c");
    assert_eq!(Alt(br(letter('c')), br(ab())).to_text(), "c|ab");
    assert_eq!(Concat(br(Star(br(letter('a')))), br(letter('b'))).to_text(), "a*b");
    assert_eq!(Alt(br(Star(br(letter('a')))), br(letter('b'))).to_text(), "a*|b");
}

#[test]
fn operands_on_the_right_keep_their_grouping() {
    let bc = Concat(br(letter('b')), br(letter('c')));
    assert_eq!(Concat(br(letter('a')), br(bc)).to_text(), "a(bc)");
    let ab = Concat(br(letter('a')), br(letter('b')));
    assert_eq!(Concat(br(ab), br(letter('c'))).to_text(), "abc");
    let b_or_c = Alt(br(letter('b')), br(letter('c')));
    assert_eq!(Alt(br(letter('a')), br(b_or_c)).to_text(), "a|(b|c)");
    let a_or_b = Alt(br(letter('a')), br(letter('b')));
    assert_eq!(Alt(br(a_or_b), br(letter('c'))).to_text(), "a|b|c");
}

#[test]
fn bytes_that_are_no_literals() {
    // visible characters that are no operator stand for themselves
    assert_eq!(Byte(b'&').to_text(), "&");
    assert_eq!(Byte(b'~').to_text(), "~");
    assert_eq!(Byte(b'!').to_text(), "!");
    // operators and all other bytes are written in hexadecimal
    assert_eq!(Byte(b'*').to_text(), "\\x2A");
    assert_eq!(Byte(b'(').to_text(), "\\x28");
    assert_eq!(Byte(b')').to_text(), "\\x29");
    assert_eq!(Byte(b'+').to_text(), "\\x2B");
    assert_eq!(Byte(b'?').to_text(), "\\x3F");
    assert_eq!(Byte(b'.').to_text(), "\\x2E");
    assert_eq!(Byte(b'|').to_text(), "\\x7C");
    assert_eq!(Byte(b' ').to_text(), "\\x20");
    assert_eq!(Byte(0).to_text(), "\\x00");
    assert_eq!(Byte(0x7f).to_text(), "\\x7F");
    assert_eq!(Byte(0x9a).to_text(), "\\x9A");
    assert_eq!(Byte(255).to_text(), "\\xFF");
    assert_eq!(
        Concat(br(Byte(10)), br(letter('a'))).to_text(),
        "\\x0Aa"
    );
}

#[test]
fn parsing_the_text_gives_the_tree_back() {
    let trees = vec![
        letter('a'),
        Dot,
        Star(br(Star(br(letter('a'))))),
        Concat(
            br(letter('a')),
            br(Concat(br(letter('b')), br(letter('c')))),
        ),
        Alt(
            br(letter('a')),
            br(Alt(br(letter('b')), br(letter('c')))),
        ),
        Plus(br(Alt(
            br(Concat(br(letter('x')), br(Optional(br(Dot))))),
            br(Star(br(Concat(br(letter('y')), br(letter('z')))))),
        ))),
        Concat(
            br(Alt(br(letter('a')), br(letter('b')))),
            br(Alt(br(letter('c')), br(letter('d')))),
        ),
        Optional(br(Concat(br(Plus(br(letter('q')))), br(Star(br(Dot)))))),
    ];
    for tree in trees {
        let text = tree.to_text();
        assert_eq!(parse(&text), Ok(tree), "{:?}", text);
    }
}

struct Numbers(u64);

impl Numbers {
    fn below(&mut self, bound: u64) -> u64 {
        self.0 = self
            .0
            .wrapping_mul(6364136223846793005)
            .wrapping_add(1442695040888963407);
        (self.0 >> 33) % bound
    }
}

fn some_tree(numbers: &mut Numbers, depth: u32) -> Regex {
    let kinds = if depth == 0 { 2 } else { 7 };
    match numbers.below(kinds) {
        0 => Byte(b"abcXYZ019"[numbers.below(9) as usize]),
        1 => Dot,
        2 => Star(br(some_tree(numbers, depth - 1))),
        3 => Plus(br(some_tree(numbers, depth - 1))),
        4 => Optional(br(some_tree(numbers, depth - 1))),
        5 => Concat(
            br(some_tree(numbers, depth - 1)),
            br(some_tree(numbers, depth - 1)),
        ),
        _ => Alt(
            br(some_tree(numbers, depth - 1)),
            br(some_tree(numbers, depth - 1)),
        ),
    }
}

#[test]
fn parsing_the_text_of_random_trees_gives_them_back() {
    let mut numbers = Numbers(11);
    for _ in 0..500 {
        let tree = some_tree(&mut numbers, 4);
        let text = tree.to_text();
        assert_eq!(parse(&text), Ok(tree), "{:?}", text);
    }
}

#[test]
fn clone_of_a_tree_is_equal() {
    let tree = Alt(
        br(Concat(br(letter('a')), br(Star(br(Dot))))),
        br(Optional(br(Plus(br(letter('b')))))),
    );
    let copy = tree.clone();
    assert_eq!(copy, tree);
    assert_eq!(copy.to_text(), "a.*|b+?");
}
