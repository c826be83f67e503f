use vstd::prelude::*;

verus! {

/// The syntax tree of a pattern.
#[derive(Debug, PartialEq, Eq)]
pub enum Regex {
    /// One given byte.
    Byte(u8),
    /// Any one byte.
    Dot,
    /// Zero or more repetitions.
    Star(Box<Regex>),
    /// One or more repetitions.
    Plus(Box<Regex>),
    /// Zero or one occurrence.
    Optional(Box<Regex>),
    /// The first, then the second.
    Concat(Box<Regex>, Box<Regex>),
    /// The first or the second.
    Alt(Box<Regex>, Box<Regex>),
}

/// `w` is made of pieces that are not empty, each of them in `language`.
pub open spec fn repeated(language: spec_fn(Seq<u8>) -> bool, w: Seq<u8>) -> bool
    decreases w.len(),
{
    w.len() == 0 || exists|k: int|
        1 <= k <= w.len() && #[trigger] language(w.take(k)) && repeated(language, w.skip(k))
}

/// `w` is a word of `first` followed by a word of `second`.
pub open spec fn joined(
    first: spec_fn(Seq<u8>) -> bool,
    second: spec_fn(Seq<u8>) -> bool,
    w: Seq<u8>,
) -> bool {
    exists|k: int| 0 <= k <= w.len() && #[trigger] first(w.take(k)) && second(w.skip(k))
}

/// The words made of pieces from `language`, as a predicate.
pub open spec fn star_of(language: spec_fn(Seq<u8>) -> bool) -> spec_fn(Seq<u8>) -> bool {
    |u: Seq<u8>| repeated(language, u)
}

impl Regex {
    /// Whether the pattern matches the whole of `w`.
    pub open spec fn matches(self, w: Seq<u8>) -> bool
        decreases self, 0nat,
    {
        match self {
            Regex::Byte(b) => w == seq![b],
            Regex::Dot => w.len() == 1,
            Regex::Star(inner) => repeated(inner.words(), w),
            Regex::Plus(inner) => joined(inner.words(), star_of(inner.words()), w),
            Regex::Optional(inner) => w.len() == 0 || inner.matches(w),
            Regex::Concat(left, right) => joined(left.words(), right.words(), w),
            Regex::Alt(left, right) => left.matches(w) || right.matches(w),
        }
    }

    /// What the pattern matches, as a predicate.
    pub open spec fn words(self) -> spec_fn(Seq<u8>) -> bool
        decreases self, 1nat,
    {
        |u: Seq<u8>| self.matches(u)
    }
}

impl Clone for Regex {
    fn clone(&self) -> (copy: Regex)
        ensures
            copy == *self,
        decreases self,
    {
        match self {
            Regex::Byte(b) => Regex::Byte(*b),
            Regex::Dot => Regex::Dot,
            Regex::Star(inner) => Regex::Star(Box::new((**inner).clone())),
            Regex::Plus(inner) => Regex::Plus(Box::new((**inner).clone())),
            Regex::Optional(inner) => Regex::Optional(Box::new((**inner).clone())),
            Regex::Concat(left, right) => Regex::Concat(
                Box::new((**left).clone()),
                Box::new((**right).clone()),
            ),
            Regex::Alt(left, right) => Regex::Alt(
                Box::new((**left).clone()),
                Box::new((**right).clone()),
            ),
        }
    }
}

} // verus!
