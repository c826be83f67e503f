use crate::error::LexError;
use vstd::prelude::*;

verus! {

/// One lexical unit of a pattern.
#[derive(Debug, Clone, Copy, PartialEq, Eq)]
pub enum Token {
    /// An ASCII letter or digit, standing for itself.
    Byte(u8),
    Star,
    Plus,
    Question,
    Dot,
    LParen,
    RParen,
    Alt,
    /// The end of the pattern.
    EOF,
}

impl Token {
    /// Whether an atom of the grammar can begin with this token.
    pub open spec fn starts_atom(&self) -> bool {
        self is Byte || self is Dot || self is LParen
    }

    #[verifier::when_used_as_spec(starts_atom)]
    pub fn is_atom_start(&self) -> (r: bool)
        ensures
            r == self.starts_atom(),
    {
        match self {
            Token::Byte(_) => true,
            Token::Dot => true,
            Token::LParen => true,
            _ => false,
        }
    }
}

/// Whether a character stands for itself in a pattern: the ASCII letters and
/// digits.
pub open spec fn is_literal(c: char) -> bool {
    ('a' <= c && c <= 'z') || ('A' <= c && c <= 'Z') || ('0' <= c && c <= '9')
}

/// The token that a single character spells, if it spells one.
pub open spec fn classify(c: char) -> Option<Token> {
    if is_literal(c) {
        Some(Token::Byte(c as u8))
    } else if c == '*' {
        Some(Token::Star)
    } else if c == '+' {
        Some(Token::Plus)
    } else if c == '?' {
        Some(Token::Question)
    } else if c == '.' {
        Some(Token::Dot)
    } else if c == '|' {
        Some(Token::Alt)
    } else if c == '(' {
        Some(Token::LParen)
    } else if c == ')' {
        Some(Token::RParen)
    } else {
        None
    }
}

/// What the lexer yields for the character at index `i` of `source`: its
/// token, the end-of-input token past the last character, or the error that
/// names the character and its index.
pub open spec fn token_at(source: Seq<char>, i: nat) -> Result<Token, LexError> {
    if i >= source.len() {
        Ok(Token::EOF)
    } else {
        match classify(source[i as int]) {
            Some(t) => Ok(t),
            None => Err(LexError { character: source[i as int], position: i as usize }),
        }
    }
}

/// A cursor over the characters of a pattern that hands out one token per
/// call.
pub struct Lexer {
    chars: Vec<char>,
    pos: usize,
}

impl Lexer {
    #[verifier::type_invariant]
    closed spec fn in_bounds(&self) -> bool {
        self.pos <= self.chars.len()
    }

    /// The characters of the pattern.
    pub closed spec fn source(&self) -> Seq<char> {
        self.chars@
    }

    /// How many characters have been consumed.
    pub closed spec fn position(&self) -> nat {
        self.pos as nat
    }

    /// A lexer at the start of `input`.
    pub fn new(input: &str) -> (lexer: Lexer)
        ensures
            lexer.source() == input@,
            lexer.position() == 0,
            lexer.source().len() <= usize::MAX,
    {
        let mut chars: Vec<char> = Vec::new();
        for c in it: input.chars()
            invariant
                chars@ == it.seq().take(it.index() as int),
                it.seq() == input@,
        {
            chars.push(c);
            assert(chars@ =~= it.seq().take(it.index() + 1));
        }
        assert(chars@ =~= input@);
        Lexer { chars, pos: 0 }
    }

    /// Consumes one character and returns its token. At the end of the
    /// pattern nothing is consumed and the end-of-input token is returned,
    /// again on every later call. A character that spells no token is
    /// consumed too, and the error names it.
    pub fn next_token(&mut self) -> (r: Result<Token, LexError>)
        ensures
            r == token_at(old(self).source(), old(self).position()),
            final(self).source() == old(self).source(),
            final(self).position() == if old(self).position() < old(self).source().len() {
                old(self).position() + 1
            } else {
                old(self).position()
            },
            old(self).position() <= old(self).source().len(),
            final(self).position() <= final(self).source().len() <= usize::MAX,
    {
        proof {
            use_type_invariant(&*self);
        }
        if self.pos >= self.chars.len() {
            return Ok(Token::EOF);
        }
        let c = self.chars[self.pos];
        let at = self.pos;
        self.pos = self.pos + 1;
        if ('a' <= c && c <= 'z') || ('A' <= c && c <= 'Z') || ('0' <= c && c <= '9') {
            Ok(Token::Byte(c as u8))
        } else if c == '*' {
            Ok(Token::Star)
        } else if c == '+' {
            Ok(Token::Plus)
        } else if c == '?' {
            Ok(Token::Question)
        } else if c == '.' {
            Ok(Token::Dot)
        } else if c == '|' {
            Ok(Token::Alt)
        } else if c == '(' {
            Ok(Token::LParen)
        } else if c == ')' {
            Ok(Token::RParen)
        } else {
            Err(LexError { character: c, position: at })
        }
    }
}

} // verus!
