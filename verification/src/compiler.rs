use crate::ast::Regex;
use crate::dfa::{lemma_minimal_least, DfaModel, DFA};
use crate::error::CompileError;
use crate::nfa::{from_regex, thompson};
use crate::parser::{parse, pattern_tree};
use crate::subset::determinizes;
use vstd::prelude::*;

verus! {

/// A pattern made ready for matching. The automaton inside is well-formed
/// and never changes.
pub struct CompiledPattern {
    dfa: DFA,
}

impl CompiledPattern {
    #[verifier::type_invariant]
    closed spec fn sound(&self) -> bool {
        self.dfa@.wf()
    }

    /// Whether the pattern matches the whole of `input`.
    pub open spec fn accepts(&self, input: Seq<u8>) -> bool {
        self.automaton().accepts(input)
    }

    /// The automaton inside.
    pub closed spec fn automaton(&self) -> DfaModel {
        self.dfa@
    }

    /// The number of states of the automaton inside.
    pub open spec fn size(&self) -> nat {
        self.automaton().rows.len()
    }

    /// The pattern matches exactly the inputs that the syntax tree matches.
    pub open spec fn recognizes(&self, ast: Regex) -> bool {
        forall|input: Seq<u8>| self.accepts(input) == ast.matches(input)
    }

    /// How the automaton inside is made: it is the subset automaton of the
    /// automaton built for the syntax tree or, if minimized, the minimal
    /// automaton.
    pub open spec fn made_from(&self, ast: Regex, minimize: bool) -> bool {
        &&& self.recognizes(ast)
        &&& self.automaton().wf()
        &&& if minimize {
            self.automaton().minimal()
        } else {
            exists|sets: Seq<Set<usize>>| determinizes(self.automaton(), thompson(ast), sets)
        }
    }

    /// Compiles a syntax tree: builds its automaton, makes it deterministic
    /// and, if asked to, minimizes it.
    pub fn from_ast(ast: &Regex, minimize: bool) -> (compiled: CompiledPattern)
        ensures
            compiled.made_from(*ast, minimize),
    {
        let nfa = from_regex(ast);
        let dfa = nfa.to_dfa();
        if minimize {
            CompiledPattern { dfa: dfa.minimize() }
        } else {
            CompiledPattern { dfa }
        }
    }

    /// Whether the pattern matches the whole of `input`. The time taken grows
    /// with the length of the input alone.
    pub fn matches(&self, input: &[u8]) -> (r: bool)
        ensures
            r == self.accepts(input@),
    {
        proof {
            use_type_invariant(self);
        }
        self.dfa.matches_bytes(input)
    }

    /// The number of states of the automaton inside.
    pub fn state_count(&self) -> (n: usize)
        ensures
            n == self.size(),
    {
        self.dfa.states.len()
    }
}

/// Compiles a pattern. A pattern that does not lex or parse gives the error
/// of the parser; any other pattern gives a compiled pattern that matches
/// what its syntax tree matches, whether minimized or not. A minimized
/// pattern holds the minimal automaton.
pub fn compile(pattern: &str, minimize: bool) -> (r: Result<CompiledPattern, CompileError>)
    ensures
        match pattern_tree(pattern@) {
            Ok(ast) => r is Ok && r->Ok_0.made_from(ast, minimize),
            Err(e) => r is Err && r->Err_0 == e,
        },
{
    match parse(pattern) {
        Ok(ast) => Ok(CompiledPattern::from_ast(&ast, minimize)),
        Err(e) => Err(e),
    }
}

/// A minimized compilation of a syntax tree has no more states than any
/// other compilation of it.
pub proof fn lemma_minimized_smallest(ast: Regex, small: CompiledPattern, other: CompiledPattern)
    requires
        small.made_from(ast, true),
        other.recognizes(ast),
        other.automaton().wf(),
    ensures
        small.size() <= other.size(),
{
    assert forall|w: Seq<u8>| small.automaton().accepts(w) == other.automaton().accepts(w) by {
        assert(small.accepts(w) == ast.matches(w));
        assert(other.accepts(w) == ast.matches(w));
    }
    lemma_minimal_least(small.automaton(), other.automaton());
}

/// Two compilations of one syntax tree answer alike on every input, however
/// each was made.
pub proof fn lemma_same_answers(
    ast: Regex,
    first: CompiledPattern,
    second: CompiledPattern,
    input: Seq<u8>,
)
    requires
        first.recognizes(ast),
        second.recognizes(ast),
    ensures
        first.accepts(input) == second.accepts(input),
{
}

} // verus!
