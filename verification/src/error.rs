use vstd::prelude::*;

verus! {

/// A character of the pattern that starts no token, with its index among the
/// pattern's characters.
#[derive(Debug, Clone, Copy, PartialEq, Eq)]
pub struct LexError {
    pub character: char,
    pub position: usize,
}

/// Why a token sequence is not a pattern.
#[derive(Debug, Clone, Copy, PartialEq, Eq)]
pub enum ParseError {
    /// A token stands where the grammar allows none of its kind.
    UnexpectedToken,
    /// A `(` has no matching `)`.
    UnterminatedGroup,
}

/// Why a pattern could not be compiled.
#[derive(Debug, Clone, Copy, PartialEq, Eq)]
pub enum CompileError {
    Lex(LexError),
    Parse(ParseError),
}

} // verus!
