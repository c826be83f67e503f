use crate::ast::Regex;
use crate::error::{CompileError, LexError};
use crate::lexer::{classify, is_literal, token_at, Token};
use crate::parser::{
    alt_at, alt_rest_at, atom_at, concat_at, concat_rest_at, pattern_tree, postfix_at, rep_at,
    tree_from,
};
use vstd::prelude::*;

verus! {

/// How tightly the outermost operator of a tree binds: alternation least,
/// then concatenation, then the postfix operators, then the atoms.
pub open spec fn binding(t: Regex) -> nat {
    match t {
        Regex::Alt(_, _) => 1,
        Regex::Concat(_, _) => 2,
        Regex::Star(_) => 3,
        Regex::Plus(_) => 3,
        Regex::Optional(_) => 3,
        Regex::Byte(_) => 4,
        Regex::Dot => 4,
    }
}

/// The text in parentheses, if asked for.
pub open spec fn wrapped(text: Seq<char>, needed: bool) -> Seq<char> {
    if needed {
        seq!['('] + text + seq![')']
    } else {
        text
    }
}

/// Whether a byte is shown as the character it is: the visible ASCII
/// characters that are no operator of the grammar.
pub open spec fn shown_plainly(b: u8) -> bool {
    0x21 <= b <= 0x7e && b != 0x28 && b != 0x29 && b != 0x2a && b != 0x2b && b != 0x2e && b
        != 0x3f && b != 0x7c
}

/// The hexadecimal digit for a number below sixteen.
pub open spec fn hex_digit(n: u8) -> char {
    if n < 10 {
        (0x30 + n) as char
    } else {
        (0x41 + n - 10) as char
    }
}

/// How a byte is shown: as itself, or as `\x` and two hexadecimal digits.
pub open spec fn shown_byte(b: u8) -> Seq<char> {
    if shown_plainly(b) {
        seq![b as char]
    } else {
        seq!['\\', 'x', hex_digit(b / 16), hex_digit(b % 16)]
    }
}

/// The pattern text of a tree, with parentheses only where an operand binds
/// less tightly than its place asks for.
pub open spec fn text(t: Regex) -> Seq<char>
    decreases t,
{
    match t {
        Regex::Byte(b) => shown_byte(b),
        Regex::Dot => seq!['.'],
        Regex::Star(x) => wrapped(text(*x), binding(*x) < 3) + seq!['*'],
        Regex::Plus(x) => wrapped(text(*x), binding(*x) < 3) + seq!['+'],
        Regex::Optional(x) => wrapped(text(*x), binding(*x) < 3) + seq!['?'],
        Regex::Concat(l, r) => wrapped(text(*l), binding(*l) < 2) + wrapped(
            text(*r),
            binding(*r) < 3,
        ),
        Regex::Alt(l, r) => text(*l) + seq!['|'] + wrapped(text(*r), binding(*r) < 2),
    }
}

/// Every byte in the tree is an ASCII letter or digit, so that the pattern
/// text can spell it.
pub open spec fn printable(t: Regex) -> bool
    decreases t,
{
    match t {
        Regex::Byte(b) => is_literal(b as char),
        Regex::Dot => true,
        Regex::Star(x) => printable(*x),
        Regex::Plus(x) => printable(*x),
        Regex::Optional(x) => printable(*x),
        Regex::Concat(l, r) => printable(*l) && printable(*r),
        Regex::Alt(l, r) => printable(*l) && printable(*r),
    }
}

/// The characters of `part` stand in `s` from index `i` on.
pub open spec fn stands_at(s: Seq<char>, i: nat, part: Seq<char>) -> bool {
    i + part.len() <= s.len() && forall|k: int| 0 <= k < part.len() ==> s[i + k] == part[k]
}

/// Where two texts in a row stand, each of them stands.
proof fn lemma_stands_parts(s: Seq<char>, i: nat, first: Seq<char>, second: Seq<char>)
    requires
        stands_at(s, i, first + second),
    ensures
        stands_at(s, i, first),
        stands_at(s, i + first.len(), second),
{
    let both = first + second;
    assert forall|k: int| 0 <= k < first.len() implies s[i + k] == first[k] by {
        assert(both[k] == first[k]);
    }
    assert forall|k: int| 0 <= k < second.len() implies s[i + first.len() + k] == second[k] by {
        assert(both[first.len() + k] == second[k]);
        assert(s[i + (first.len() + k)] == both[first.len() + k]);
    }
}

/// The token is one of the postfix operators.
pub open spec fn is_postfix(f: Result<Token, LexError>) -> bool {
    f == Ok::<Token, LexError>(Token::Star) || f == Ok::<Token, LexError>(Token::Plus) || f
        == Ok::<Token, LexError>(Token::Question)
}

/// The token can begin an atom.
pub open spec fn begins_atom(f: Result<Token, LexError>) -> bool {
    match f {
        Ok(t) => t.starts_atom(),
        Err(_) => false,
    }
}

/// The text of a tree is not empty, and it begins with a token that can
/// begin an atom.
proof fn lemma_text_begins(t: Regex, s: Seq<char>, i: nat)
    requires
        printable(t),
        stands_at(s, i, text(t)),
    ensures
        text(t).len() > 0,
        begins_atom(token_at(s, i)),
    decreases t, 0nat,
{
    match t {
        Regex::Byte(b) => {
            assert(s[i + 0int] == text(t)[0]);
        },
        Regex::Dot => {
            assert(s[i + 0int] == text(t)[0]);
        },
        Regex::Star(x) => {
            lemma_stands_parts(s, i, wrapped(text(*x), binding(*x) < 3), seq!['*']);
            lemma_wrapped_begins(*x, binding(*x) < 3, s, i);
        },
        Regex::Plus(x) => {
            lemma_stands_parts(s, i, wrapped(text(*x), binding(*x) < 3), seq!['+']);
            lemma_wrapped_begins(*x, binding(*x) < 3, s, i);
        },
        Regex::Optional(x) => {
            lemma_stands_parts(s, i, wrapped(text(*x), binding(*x) < 3), seq!['?']);
            lemma_wrapped_begins(*x, binding(*x) < 3, s, i);
        },
        Regex::Concat(l, r) => {
            lemma_stands_parts(
                s,
                i,
                wrapped(text(*l), binding(*l) < 2),
                wrapped(text(*r), binding(*r) < 3),
            );
            lemma_wrapped_begins(*l, binding(*l) < 2, s, i);
        },
        Regex::Alt(l, r) => {
            lemma_stands_parts(
                s,
                i,
                text(*l) + seq!['|'],
                wrapped(text(*r), binding(*r) < 2),
            );
            lemma_stands_parts(s, i, text(*l), seq!['|']);
            lemma_text_begins(*l, s, i);
        },
    }
}

/// The text of an operand, in parentheses or not, is not empty, and it
/// begins with a token that can begin an atom.
proof fn lemma_wrapped_begins(t: Regex, needed: bool, s: Seq<char>, i: nat)
    requires
        printable(t),
        stands_at(s, i, wrapped(text(t), needed)),
    ensures
        wrapped(text(t), needed).len() > 0,
        begins_atom(token_at(s, i)),
    decreases t, 1nat,
{
    if needed {
        let whole = wrapped(text(t), needed);
        assert(whole[0] == '(');
        assert(s[i + 0int] == whole[0]);
    } else {
        lemma_text_begins(t, s, i);
    }
}

/// After a repetition that is followed by no postfix operator, the
/// concatenation goes on with what it has.
proof fn lemma_rep_to_concat(t: Regex, s: Seq<char>, i: nat, j: nat)
    requires
        i < j <= s.len(),
        rep_at(s, i) == Ok::<(Regex, nat), CompileError>(postfix_at(s, j, t)),
        !is_postfix(token_at(s, j)),
    ensures
        concat_at(s, i) == concat_rest_at(s, j, t),
{
    assert(postfix_at(s, j, t) == (t, j));
}

/// After a concatenation that is followed by no token of an atom, the
/// alternation goes on with what it has.
proof fn lemma_concat_to_alt(t: Regex, s: Seq<char>, i: nat, j: nat)
    requires
        i < j <= s.len(),
        concat_at(s, i) == concat_rest_at(s, j, t),
        !begins_atom(token_at(s, j)),
    ensures
        alt_at(s, i) == alt_rest_at(s, j, t),
{
    assert(concat_rest_at(s, j, t) == Ok::<(Regex, nat), CompileError>((t, j)));
}

/// What the grammar makes of the text of a tree that stands at index `i`,
/// at each level at which the tree can stand without parentheses.
proof fn lemma_reads(t: Regex, s: Seq<char>, i: nat)
    requires
        printable(t),
        stands_at(s, i, text(t)),
    ensures
        ({
            let j = i + text(t).len();
            let f = token_at(s, j);
            &&& i < j <= s.len()
            &&& binding(t) >= 3 ==> rep_at(s, i) == Ok::<(Regex, nat), CompileError>(
                postfix_at(s, j, t),
            )
            &&& binding(t) >= 2 && !is_postfix(f) ==> concat_at(s, i) == concat_rest_at(s, j, t)
            &&& !is_postfix(f) && !begins_atom(f) ==> alt_at(s, i) == alt_rest_at(s, j, t)
        }),
    decreases t, 0nat,
{
    let j = i + text(t).len();
    let f = token_at(s, j);
    lemma_text_begins(t, s, i);
    match t {
        Regex::Byte(b) => {
            assert(s[i + 0int] == text(t)[0]);
            assert(classify(b as char) == Some(Token::Byte(b)));
            assert(atom_at(s, i) == Ok::<(Regex, nat), CompileError>((t, j)));
        },
        Regex::Dot => {
            assert(s[i + 0int] == text(t)[0]);
            assert(classify('.') == Some(Token::Dot));
            assert(atom_at(s, i) == Ok::<(Regex, nat), CompileError>((t, j)));
        },
        Regex::Star(x) => {
            let w = wrapped(text(*x), binding(*x) < 3);
            lemma_stands_parts(s, i, w, seq!['*']);
            lemma_reads_tight(*x, s, i);
            let k = i + w.len();
            assert(s[k + 0int] == seq!['*'][0]);
            assert(classify('*') == Some(Token::Star));
            assert(token_at(s, k) == Ok::<Token, LexError>(Token::Star));
            assert(postfix_at(s, k, *x) == postfix_at(s, k + 1, t));
        },
        Regex::Plus(x) => {
            let w = wrapped(text(*x), binding(*x) < 3);
            lemma_stands_parts(s, i, w, seq!['+']);
            lemma_reads_tight(*x, s, i);
            let k = i + w.len();
            assert(s[k + 0int] == seq!['+'][0]);
            assert(classify('+') == Some(Token::Plus));
            assert(token_at(s, k) == Ok::<Token, LexError>(Token::Plus));
            assert(postfix_at(s, k, *x) == postfix_at(s, k + 1, t));
        },
        Regex::Optional(x) => {
            let w = wrapped(text(*x), binding(*x) < 3);
            lemma_stands_parts(s, i, w, seq!['?']);
            lemma_reads_tight(*x, s, i);
            let k = i + w.len();
            assert(s[k + 0int] == seq!['?'][0]);
            assert(classify('?') == Some(Token::Question));
            assert(token_at(s, k) == Ok::<Token, LexError>(Token::Question));
            assert(postfix_at(s, k, *x) == postfix_at(s, k + 1, t));
        },
        Regex::Concat(l, r) => {
            let wl = wrapped(text(*l), binding(*l) < 2);
            let wr = wrapped(text(*r), binding(*r) < 3);
            lemma_stands_parts(s, i, wl, wr);
            let k = i + wl.len();
            lemma_wrapped_begins(*l, binding(*l) < 2, s, i);
            lemma_wrapped_begins(*r, binding(*r) < 3, s, k);
            lemma_reads_loose(*l, s, i);
            lemma_reads_tight(*r, s, k);
            if !is_postfix(f) {
                assert(concat_at(s, i) == concat_rest_at(s, k, *l));
                assert(postfix_at(s, j, *r) == (*r, j));
                assert(concat_rest_at(s, k, *l) == concat_rest_at(s, j, t));
            }
        },
        Regex::Alt(l, r) => {
            let wr = wrapped(text(*r), binding(*r) < 2);
            lemma_stands_parts(s, i, text(*l) + seq!['|'], wr);
            lemma_stands_parts(s, i, text(*l), seq!['|']);
            let k = i + text(*l).len();
            assert(s[k + 0int] == seq!['|'][0]);
            assert(classify('|') == Some(Token::Alt));
            assert(token_at(s, k) == Ok::<Token, LexError>(Token::Alt));
            lemma_reads(*l, s, i);
            lemma_wrapped_begins(*r, binding(*r) < 2, s, k + 1);
            lemma_reads_loose(*r, s, k + 1);
            if !is_postfix(f) && !begins_atom(f) {
                assert(alt_at(s, i) == alt_rest_at(s, k, *l));
                assert(concat_at(s, k + 1) == concat_rest_at(s, j, *r));
                assert(concat_rest_at(s, j, *r) == Ok::<(Regex, nat), CompileError>((*r, j)));
                assert(alt_rest_at(s, k, *l) == alt_rest_at(s, j, t));
            }
        },
    }
    if binding(t) >= 3 && !is_postfix(f) {
        lemma_rep_to_concat(t, s, i, j);
    }
    if binding(t) >= 2 && !is_postfix(f) && !begins_atom(f) {
        lemma_concat_to_alt(t, s, i, j);
    }
}

/// What the grammar makes of the text of a tree in parentheses.
proof fn lemma_reads_group(t: Regex, s: Seq<char>, i: nat)
    requires
        printable(t),
        stands_at(s, i, wrapped(text(t), true)),
    ensures
        atom_at(s, i) == Ok::<(Regex, nat), CompileError>((t, i + text(t).len() + 2)),
        rep_at(s, i) == Ok::<(Regex, nat), CompileError>(
            postfix_at(s, i + text(t).len() + 2, t),
        ),
        i + text(t).len() + 2 <= s.len(),
    decreases t, 1nat,
{
    let whole = wrapped(text(t), true);
    let k = i + 1 + text(t).len();
    lemma_stands_parts(s, i, seq!['('] + text(t), seq![')']);
    lemma_stands_parts(s, i, seq!['('], text(t));
    assert(s[i + 0int] == seq!['('][0]);
    assert(s[k + 0int] == seq![')'][0]);
    assert(classify('(') == Some(Token::LParen));
    assert(classify(')') == Some(Token::RParen));
    assert(token_at(s, i) == Ok::<Token, LexError>(Token::LParen));
    assert(token_at(s, k) == Ok::<Token, LexError>(Token::RParen));
    lemma_reads(t, s, i + 1);
    assert(alt_at(s, i + 1) == alt_rest_at(s, k, t));
    assert(alt_rest_at(s, k, t) == Ok::<(Regex, nat), CompileError>((t, k)));
}

/// What the grammar makes of an operand of a postfix operator or the right
/// operand of a concatenation.
proof fn lemma_reads_tight(t: Regex, s: Seq<char>, i: nat)
    requires
        printable(t),
        stands_at(s, i, wrapped(text(t), binding(t) < 3)),
    ensures
        rep_at(s, i) == Ok::<(Regex, nat), CompileError>(
            postfix_at(s, i + wrapped(text(t), binding(t) < 3).len(), t),
        ),
        i < i + wrapped(text(t), binding(t) < 3).len() <= s.len(),
    decreases t, 2nat,
{
    if binding(t) < 3 {
        lemma_reads_group(t, s, i);
    } else {
        lemma_reads(t, s, i);
    }
}

/// What the grammar makes of the left operand of a concatenation or the
/// right operand of an alternation.
proof fn lemma_reads_loose(t: Regex, s: Seq<char>, i: nat)
    requires
        printable(t),
        stands_at(s, i, wrapped(text(t), binding(t) < 2)),
    ensures
        !is_postfix(token_at(s, i + wrapped(text(t), binding(t) < 2).len())) ==> concat_at(s, i)
            == concat_rest_at(s, i + wrapped(text(t), binding(t) < 2).len(), t),
        i < i + wrapped(text(t), binding(t) < 2).len() <= s.len(),
    decreases t, 2nat,
{
    let j = i + wrapped(text(t), binding(t) < 2).len();
    if binding(t) < 2 {
        lemma_reads_group(t, s, i);
        if !is_postfix(token_at(s, j)) {
            lemma_rep_to_concat(t, s, i, j);
        }
    } else {
        lemma_reads(t, s, i);
    }
}

/// Parsing the text of a tree gives the tree back.
pub proof fn lemma_text_parses(t: Regex)
    requires
        printable(t),
    ensures
        pattern_tree(text(t)) == Ok::<Regex, CompileError>(t),
{
    let s = text(t);
    lemma_reads(t, s, 0);
    assert(token_at(s, s.len()) == Ok::<Token, LexError>(Token::EOF));
    assert(alt_rest_at(s, s.len(), t) == Ok::<(Regex, nat), CompileError>((t, s.len())));
    assert(tree_from(s, 0) == Ok::<Regex, CompileError>(t));
}

/// `String::push`: appends the character to the end of the string.
#[verifier::external_body]
fn push_char(out: &mut String, c: char)
    ensures
        final(out)@ == old(out)@.push(c),
{
    out.push(c)
}

/// The hexadecimal digit for a number below sixteen.
fn hex(n: u8) -> (c: char)
    requires
        n < 16,
    ensures
        c == hex_digit(n),
{
    if n < 10 {
        (0x30 + n) as char
    } else {
        (0x41 + n - 10) as char
    }
}

impl Regex {
    /// How tightly the outermost operator binds.
    fn binding(&self) -> (level: u8)
        ensures
            level == binding(*self),
    {
        match self {
            Regex::Alt(_, _) => 1,
            Regex::Concat(_, _) => 2,
            Regex::Star(_) => 3,
            Regex::Plus(_) => 3,
            Regex::Optional(_) => 3,
            Regex::Byte(_) => 4,
            Regex::Dot => 4,
        }
    }

    /// Appends the pattern text of the tree, in parentheses if it binds less
    /// tightly than `level`.
    fn write_operand(&self, level: u8, out: &mut String)
        ensures
            final(out)@ == old(out)@ + wrapped(text(*self), binding(*self) < level),
        decreases self, 1nat,
    {
        if self.binding() < level {
            push_char(out, '(');
            self.write_text(out);
            push_char(out, ')');
            assert(out@ =~= old(out)@ + wrapped(text(*self), true));
        } else {
            self.write_text(out);
        }
    }

    /// Appends the pattern text of the tree.
    fn write_text(&self, out: &mut String)
        ensures
            final(out)@ == old(out)@ + text(*self),
        decreases self, 0nat,
    {
        match self {
            Regex::Byte(b) => {
                let b = *b;
                if 0x21 <= b && b <= 0x7e && b != 0x28 && b != 0x29 && b != 0x2a && b != 0x2b && b
                    != 0x2e && b != 0x3f && b != 0x7c {
                    push_char(out, b as char);
                } else {
                    push_char(out, '\\');
                    push_char(out, 'x');
                    push_char(out, hex(b / 16));
                    push_char(out, hex(b % 16));
                }
                assert(out@ =~= old(out)@ + shown_byte(b));
            },
            Regex::Dot => {
                push_char(out, '.');
                assert(out@ =~= old(out)@ + seq!['.']);
            },
            Regex::Star(inner) => {
                inner.write_operand(3, out);
                push_char(out, '*');
                assert(out@ =~= old(out)@ + text(*self));
            },
            Regex::Plus(inner) => {
                inner.write_operand(3, out);
                push_char(out, '+');
                assert(out@ =~= old(out)@ + text(*self));
            },
            Regex::Optional(inner) => {
                inner.write_operand(3, out);
                push_char(out, '?');
                assert(out@ =~= old(out)@ + text(*self));
            },
            Regex::Concat(left, right) => {
                left.write_operand(2, out);
                right.write_operand(3, out);
                assert(out@ =~= old(out)@ + text(*self));
            },
            Regex::Alt(left, right) => {
                left.write_text(out);
                push_char(out, '|');
                right.write_operand(2, out);
                assert(out@ =~= old(out)@ + text(*self));
            },
        }
    }

    /// The pattern text of the tree, with parentheses only where they are
    /// needed. If every byte in the tree is an ASCII letter or digit, parsing
    /// the text gives the tree back.
    pub fn to_text(&self) -> (out: String)
        ensures
            out@ == text(*self),
            printable(*self) ==> pattern_tree(out@) == Ok::<Regex, CompileError>(*self),
    {
        let mut out = String::new();
        self.write_text(&mut out);
        proof {
            assert(out@ =~= text(*self));
            if printable(*self) {
                lemma_text_parses(*self);
            }
        }
        out
    }
}

} // verus!
