use crate::ast::Regex;
use crate::error::{CompileError, LexError, ParseError};
use crate::lexer::{token_at, Lexer, Token};
use vstd::prelude::*;

verus! {

// The grammar, lowest precedence first:
//
//     alt    := concat ('|' concat)*
//     concat := rep+
//     rep    := atom ('*' | '+' | '?')*
//     atom   := LITERAL | '.' | '(' alt ')'
//
// Each function below reads the tokens of `s` from index `i` on and gives the
// tree it recognises together with the index of the first token it left
// unread. A character that spells no token gives its error where the
// grammar first asks which token stands there.
//
// Where a function goes on after a sub-parse it first compares the index that
// came back with its own and with the length. That comparison makes the
// definitions well-founded; `lemma_progress` shows that it always holds.
/// One atom.
pub open spec fn atom_at(s: Seq<char>, i: nat) -> Result<(Regex, nat), CompileError>
    decreases s.len() - i, 0nat,
{
    match token_at(s, i) {
        Err(e) => Err(CompileError::Lex(e)),
        Ok(Token::Byte(b)) => Ok((Regex::Byte(b), i + 1)),
        Ok(Token::Dot) => Ok((Regex::Dot, i + 1)),
        Ok(Token::LParen) => match alt_at(s, i + 1) {
            Err(e) => Err(e),
            Ok((inner, k)) => match token_at(s, k) {
                Err(e) => Err(CompileError::Lex(e)),
                Ok(Token::RParen) => Ok((inner, k + 1)),
                Ok(_) => Err(CompileError::Parse(ParseError::UnterminatedGroup)),
            },
        },
        Ok(_) => Err(CompileError::Parse(ParseError::UnexpectedToken)),
    }
}

/// The postfix operators from index `i` on, applied to `inner` from left to
/// right.
pub open spec fn postfix_at(s: Seq<char>, i: nat, inner: Regex) -> (Regex, nat)
    decreases s.len() - i,
{
    match token_at(s, i) {
        Ok(Token::Star) => postfix_at(s, i + 1, Regex::Star(Box::new(inner))),
        Ok(Token::Plus) => postfix_at(s, i + 1, Regex::Plus(Box::new(inner))),
        Ok(Token::Question) => postfix_at(s, i + 1, Regex::Optional(Box::new(inner))),
        _ => (inner, i),
    }
}

/// An atom with its postfix operators.
pub open spec fn rep_at(s: Seq<char>, i: nat) -> Result<(Regex, nat), CompileError>
    decreases s.len() - i, 1nat,
{
    match atom_at(s, i) {
        Err(e) => Err(e),
        Ok((atom, k)) => Ok(postfix_at(s, k, atom)),
    }
}

/// The repetitions from index `i` on, each appended to `left`.
pub open spec fn concat_rest_at(s: Seq<char>, i: nat, left: Regex) -> Result<
    (Regex, nat),
    CompileError,
>
    decreases s.len() - i, 2nat,
{
    match token_at(s, i) {
        Ok(t) => if t.starts_atom() {
            match rep_at(s, i) {
                Err(e) => Err(e),
                Ok((right, k)) => if i < k <= s.len() {
                    concat_rest_at(s, k, Regex::Concat(Box::new(left), Box::new(right)))
                } else {
                    Ok((left, i))
                },
            }
        } else {
            Ok((left, i))
        },
        Err(_) => Ok((left, i)),
    }
}

/// One or more repetitions, folded to the left.
pub open spec fn concat_at(s: Seq<char>, i: nat) -> Result<(Regex, nat), CompileError>
    decreases s.len() - i, 3nat,
{
    match rep_at(s, i) {
        Err(e) => Err(e),
        Ok((first, k)) => if i < k <= s.len() {
            concat_rest_at(s, k, first)
        } else {
            Ok((first, k))
        },
    }
}

/// The alternatives from index `i` on, each joined to `left`.
pub open spec fn alt_rest_at(s: Seq<char>, i: nat, left: Regex) -> Result<
    (Regex, nat),
    CompileError,
>
    decreases s.len() - i, 4nat,
{
    match token_at(s, i) {
        Ok(Token::Alt) => match concat_at(s, i + 1) {
            Err(e) => Err(e),
            Ok((right, k)) => if i < k <= s.len() {
                alt_rest_at(s, k, Regex::Alt(Box::new(left), Box::new(right)))
            } else {
                Ok((left, i))
            },
        },
        _ => Ok((left, i)),
    }
}

/// One or more concatenations separated by `|`, folded to the left.
pub open spec fn alt_at(s: Seq<char>, i: nat) -> Result<(Regex, nat), CompileError>
    decreases s.len() - i, 5nat,
{
    match concat_at(s, i) {
        Err(e) => Err(e),
        Ok((first, k)) => if i < k <= s.len() {
            alt_rest_at(s, k, first)
        } else {
            Ok((first, k))
        },
    }
}

/// One alternation from index `i` on, after which the pattern must end.
pub open spec fn tree_from(s: Seq<char>, i: nat) -> Result<Regex, CompileError> {
    match alt_at(s, i) {
        Err(e) => Err(e),
        Ok((tree, k)) => match token_at(s, k) {
            Err(e) => Err(CompileError::Lex(e)),
            Ok(Token::EOF) => Ok(tree),
            Ok(_) => Err(CompileError::Parse(ParseError::UnexpectedToken)),
        },
    }
}

/// The tree of a whole pattern.
pub open spec fn pattern_tree(s: Seq<char>) -> Result<Regex, CompileError> {
    tree_from(s, 0)
}

/// Whether a parse from index `i` of `s`, if it succeeded, read at least one
/// token and stopped no later than the end.
pub open spec fn progressed(s: Seq<char>, i: nat, r: Result<(Regex, nat), CompileError>) -> bool {
    match r {
        Ok((_, k)) => i < k <= s.len(),
        Err(_) => true,
    }
}

/// The postfix operators never move backwards nor past the end.
pub proof fn lemma_postfix_bounds(s: Seq<char>, i: nat, inner: Regex)
    requires
        i <= s.len(),
    ensures
        i <= postfix_at(s, i, inner).1 <= s.len(),
    decreases s.len() - i,
{
    match token_at(s, i) {
        Ok(Token::Star) => lemma_postfix_bounds(s, i + 1, Regex::Star(Box::new(inner))),
        Ok(Token::Plus) => lemma_postfix_bounds(s, i + 1, Regex::Plus(Box::new(inner))),
        Ok(Token::Question) => lemma_postfix_bounds(s, i + 1, Regex::Optional(Box::new(inner))),
        _ => {},
    }
}

/// Every successful parse of an atom, a repetition, a concatenation or an
/// alternation reads at least one token and stops no later than the end.
pub proof fn lemma_progress(s: Seq<char>, i: nat)
    ensures
        progressed(s, i, atom_at(s, i)),
        progressed(s, i, rep_at(s, i)),
        progressed(s, i, concat_at(s, i)),
        progressed(s, i, alt_at(s, i)),
    decreases s.len() - i, 1nat,
{
    if let Ok(Token::LParen) = token_at(s, i) {
        lemma_progress(s, i + 1);
    }
    if let Ok((atom, k)) = atom_at(s, i) {
        lemma_postfix_bounds(s, k, atom);
    }
    if let Ok((first, k)) = rep_at(s, i) {
        lemma_concat_rest_bounds(s, k, first);
    }
    if let Ok((first, k)) = concat_at(s, i) {
        lemma_alt_rest_bounds(s, k, first);
    }
}

/// Further repetitions never move backwards nor past the end.
pub proof fn lemma_concat_rest_bounds(s: Seq<char>, i: nat, left: Regex)
    requires
        i <= s.len(),
    ensures
        match concat_rest_at(s, i, left) {
            Ok((_, k)) => i <= k <= s.len(),
            Err(_) => true,
        },
    decreases s.len() - i, 2nat,
{
    if let Ok(t) = token_at(s, i) {
        if t.starts_atom() {
            lemma_progress(s, i);
            if let Ok((right, k)) = rep_at(s, i) {
                lemma_concat_rest_bounds(
                    s,
                    k,
                    Regex::Concat(Box::new(left), Box::new(right)),
                );
            }
        }
    }
}

/// Further alternatives never move backwards nor past the end.
pub proof fn lemma_alt_rest_bounds(s: Seq<char>, i: nat, left: Regex)
    requires
        i <= s.len(),
    ensures
        match alt_rest_at(s, i, left) {
            Ok((_, k)) => i <= k <= s.len(),
            Err(_) => true,
        },
    decreases s.len() - i, 0nat,
{
    if let Ok(Token::Alt) = token_at(s, i) {
        lemma_progress(s, i + 1);
        if let Ok((right, k)) = concat_at(s, i + 1) {
            lemma_alt_rest_bounds(s, k, Regex::Alt(Box::new(left), Box::new(right)));
        }
    }
}

/// A recursive-descent parser that looks one token ahead.
pub struct Parser {
    lexer: Lexer,
    current: Result<Token, LexError>,
}

impl Parser {
    /// The token that the parser holds is the one the lexer handed out last.
    pub closed spec fn wf(&self) -> bool {
        let s = self.lexer.source();
        let p = self.lexer.position();
        &&& p <= s.len() <= usize::MAX
        &&& if self.current == Ok::<Token, LexError>(Token::EOF) {
            p == s.len()
        } else {
            p >= 1 && self.current == token_at(s, (p - 1) as nat)
        }
    }

    /// The characters of the pattern.
    pub closed spec fn source(&self) -> Seq<char> {
        self.lexer.source()
    }

    /// The index of the token that the parser looks at.
    pub closed spec fn index(&self) -> nat {
        if self.current == Ok::<Token, LexError>(Token::EOF) {
            self.lexer.source().len()
        } else {
            (self.lexer.position() - 1) as nat
        }
    }

    /// A parser that looks at the first token the lexer has not yet handed
    /// out.
    pub fn new(lexer: Lexer) -> (parser: Parser)
        ensures
            parser.wf(),
            parser.source() == lexer.source(),
            parser.index() == lexer.position(),
    {
        let mut lexer = lexer;
        let current = lexer.next_token();
        Parser { lexer, current }
    }

    fn peek(&self) -> (t: Result<Token, LexError>)
        requires
            self.wf(),
        ensures
            t == token_at(self.source(), self.index()),
            self.index() <= self.source().len(),
    {
        self.current
    }

    fn advance(&mut self)
        requires
            old(self).wf(),
        ensures
            final(self).wf(),
            final(self).source() == old(self).source(),
            final(self).index() == if old(self).index() < old(self).source().len() {
                old(self).index() + 1
            } else {
                old(self).index()
            },
    {
        self.current = self.lexer.next_token();
    }

    /// Parses a whole pattern: one alternation, after which the pattern must
    /// end.
    pub fn parse(&mut self) -> (r: Result<Regex, CompileError>)
        requires
            old(self).wf(),
        ensures
            final(self).wf(),
            final(self).source() == old(self).source(),
            r == tree_from(old(self).source(), old(self).index()),
    {
        let tree = match self.parse_alt() {
            Ok(tree) => tree,
            Err(e) => {
                return Err(e);
            },
        };
        match self.peek() {
            Err(e) => Err(CompileError::Lex(e)),
            Ok(Token::EOF) => Ok(tree),
            Ok(_) => Err(CompileError::Parse(ParseError::UnexpectedToken)),
        }
    }

    /// Parses one alternation and stops at the first token that cannot
    /// continue it.
    pub fn parse_alt(&mut self) -> (r: Result<Regex, CompileError>)
        requires
            old(self).wf(),
        ensures
            final(self).wf(),
            final(self).source() == old(self).source(),
            match alt_at(old(self).source(), old(self).index()) {
                Ok((tree, k)) => r == Ok::<Regex, CompileError>(tree) && final(self).index() == k,
                Err(e) => r == Err::<Regex, CompileError>(e),
            },
        decreases old(self).source().len() - old(self).index(), 5nat,
    {
        let ghost s = self.source();
        let ghost start = self.index();
        proof {
            lemma_progress(s, start);
        }
        let mut expr = match self.parse_concat() {
            Ok(first) => first,
            Err(e) => {
                return Err(e);
            },
        };
        loop
            invariant
                s == old(self).source(),
                start == old(self).index(),
                self.wf(),
                self.source() == s,
                start < self.index() <= s.len(),
                alt_at(s, start) == alt_rest_at(s, self.index(), expr),
            decreases s.len() - self.index(),
        {
            match self.peek() {
                Ok(Token::Alt) => {},
                _ => {
                    return Ok(expr);
                },
            }
            let ghost here = self.index();
            self.advance();
            proof {
                lemma_progress(s, here + 1);
            }
            let right = match self.parse_concat() {
                Ok(right) => right,
                Err(e) => {
                    return Err(e);
                },
            };
            expr = Regex::Alt(Box::new(expr), Box::new(right));
        }
    }

    fn parse_concat(&mut self) -> (r: Result<Regex, CompileError>)
        requires
            old(self).wf(),
        ensures
            final(self).wf(),
            final(self).source() == old(self).source(),
            match concat_at(old(self).source(), old(self).index()) {
                Ok((tree, k)) => r == Ok::<Regex, CompileError>(tree) && final(self).index() == k,
                Err(e) => r == Err::<Regex, CompileError>(e),
            },
        decreases old(self).source().len() - old(self).index(), 3nat,
    {
        let ghost s = self.source();
        let ghost start = self.index();
        proof {
            lemma_progress(s, start);
        }
        let mut expr = match self.parse_repeat() {
            Ok(first) => first,
            Err(e) => {
                return Err(e);
            },
        };
        loop
            invariant
                s == old(self).source(),
                start == old(self).index(),
                self.wf(),
                self.source() == s,
                start < self.index() <= s.len(),
                concat_at(s, start) == concat_rest_at(s, self.index(), expr),
            decreases s.len() - self.index(),
        {
            match self.peek() {
                Ok(t) => {
                    if !t.is_atom_start() {
                        return Ok(expr);
                    }
                },
                Err(_) => {
                    return Ok(expr);
                },
            }
            proof {
                lemma_progress(s, self.index());
            }
            let right = match self.parse_repeat() {
                Ok(right) => right,
                Err(e) => {
                    return Err(e);
                },
            };
            expr = Regex::Concat(Box::new(expr), Box::new(right));
        }
    }

    fn parse_repeat(&mut self) -> (r: Result<Regex, CompileError>)
        requires
            old(self).wf(),
        ensures
            final(self).wf(),
            final(self).source() == old(self).source(),
            match rep_at(old(self).source(), old(self).index()) {
                Ok((tree, k)) => r == Ok::<Regex, CompileError>(tree) && final(self).index() == k,
                Err(e) => r == Err::<Regex, CompileError>(e),
            },
        decreases old(self).source().len() - old(self).index(), 1nat,
    {
        let ghost s = self.source();
        let ghost start = self.index();
        proof {
            lemma_progress(s, start);
        }
        let mut expr = match self.parse_atom() {
            Ok(atom) => atom,
            Err(e) => {
                return Err(e);
            },
        };
        loop
            invariant
                s == old(self).source(),
                start == old(self).index(),
                self.wf(),
                self.source() == s,
                self.index() <= s.len(),
                rep_at(s, start) == Ok::<(Regex, nat), CompileError>(
                    postfix_at(s, self.index(), expr),
                ),
            decreases s.len() - self.index(),
        {
            match self.peek() {
                Ok(Token::Star) => {
                    expr = Regex::Star(Box::new(expr));
                },
                Ok(Token::Plus) => {
                    expr = Regex::Plus(Box::new(expr));
                },
                Ok(Token::Question) => {
                    expr = Regex::Optional(Box::new(expr));
                },
                _ => {
                    return Ok(expr);
                },
            }
            self.advance();
        }
    }

    fn parse_atom(&mut self) -> (r: Result<Regex, CompileError>)
        requires
            old(self).wf(),
        ensures
            final(self).wf(),
            final(self).source() == old(self).source(),
            match atom_at(old(self).source(), old(self).index()) {
                Ok((tree, k)) => r == Ok::<Regex, CompileError>(tree) && final(self).index() == k,
                Err(e) => r == Err::<Regex, CompileError>(e),
            },
        decreases old(self).source().len() - old(self).index(), 0nat,
    {
        let ghost s = self.source();
        match self.peek() {
            Err(e) => Err(CompileError::Lex(e)),
            Ok(Token::Byte(b)) => {
                self.advance();
                Ok(Regex::Byte(b))
            },
            Ok(Token::Dot) => {
                self.advance();
                Ok(Regex::Dot)
            },
            Ok(Token::LParen) => {
                proof {
                    lemma_progress(s, self.index() + 1);
                }
                self.advance();
                let inner = match self.parse_alt() {
                    Ok(inner) => inner,
                    Err(e) => {
                        return Err(e);
                    },
                };
                match self.peek() {
                    Err(e) => Err(CompileError::Lex(e)),
                    Ok(Token::RParen) => {
                        self.advance();
                        Ok(inner)
                    },
                    Ok(_) => Err(CompileError::Parse(ParseError::UnterminatedGroup)),
                }
            },
            Ok(_) => Err(CompileError::Parse(ParseError::UnexpectedToken)),
        }
    }
}

/// Parses a pattern into its syntax tree.
pub fn parse(input: &str) -> (r: Result<Regex, CompileError>)
    ensures
        r == pattern_tree(input@),
{
    let lexer = Lexer::new(input);
    let mut parser = Parser::new(lexer);
    parser.parse()
}

} // verus!
