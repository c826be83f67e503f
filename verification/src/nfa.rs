use crate::ast::{joined, repeated, Regex};
use crate::thompson::{
    accepted, lemma_concat_accepts, lemma_literal_accepts, lemma_star_accepts,
    lemma_thompson_accepts, lemma_thompson_trim,
};
use vstd::prelude::*;

verus! {

/// What an edge of the automaton reads.
#[derive(Debug, Clone, Copy, PartialEq, Eq)]
pub enum Transition {
    /// One given byte.
    Byte(u8),
    /// Any one byte.
    AnyByte,
    /// Nothing.
    Epsilon,
}

/// An edge to the state with index `to`.
#[derive(Debug, Clone, Copy, PartialEq, Eq)]
pub struct Edge {
    pub label: Transition,
    pub to: usize,
}

/// A state: the edges that leave it, in the order in which they were added.
#[derive(Debug, PartialEq, Eq)]
pub struct State {
    pub edges: Vec<Edge>,
}

/// A nondeterministic automaton with one start state and one accepting state.
#[derive(Debug, PartialEq, Eq)]
pub struct NFA {
    pub states: Vec<State>,
    pub start: usize,
    pub accept: usize,
}

/// The mathematical content of an automaton: for each state the sequence of
/// its edges, and the two distinguished indices.
pub struct NfaModel {
    pub states: Seq<Seq<Edge>>,
    pub start: usize,
    pub accept: usize,
}

impl View for State {
    type V = Seq<Edge>;

    open spec fn view(&self) -> Seq<Edge> {
        self.edges@
    }
}

/// The edge lists of a sequence of states.
pub open spec fn rows(states: Seq<State>) -> Seq<Seq<Edge>> {
    Seq::new(states.len(), |i: int| states[i]@)
}

impl View for NFA {
    type V = NfaModel;

    open spec fn view(&self) -> NfaModel {
        NfaModel { states: rows(self.states@), start: self.start, accept: self.accept }
    }
}

/// An edge that reads nothing.
pub open spec fn eps(to: int) -> Edge {
    Edge { label: Transition::Epsilon, to: to as usize }
}

/// The edge with its target moved up by `by`.
pub open spec fn shift_edge(e: Edge, by: int) -> Edge {
    Edge { label: e.label, to: (e.to + by) as usize }
}

/// The edge lists with every target moved up by `by`.
pub open spec fn shift_rows(states: Seq<Seq<Edge>>, by: int) -> Seq<Seq<Edge>> {
    Seq::new(
        states.len(),
        |i: int| Seq::new(states[i].len(), |j: int| shift_edge(states[i][j], by)),
    )
}

/// The edge lists with one more edge at the end of list `p`.
pub open spec fn with_edge(states: Seq<Seq<Edge>>, p: int, e: Edge) -> Seq<Seq<Edge>> {
    states.update(p, states[p].push(e))
}

impl NfaModel {
    /// Every index that the automaton mentions is the index of a state.
    pub open spec fn wf(self) -> bool {
        &&& self.start < self.states.len()
        &&& self.accept < self.states.len()
        &&& self.closed()
    }

    /// Every edge leads to a state of the automaton.
    pub open spec fn closed(self) -> bool {
        forall|p: int, j: int|
            0 <= p < self.states.len() && 0 <= j < self.states[p].len() ==> (
            #[trigger] self.states[p][j]).to < self.states.len()
    }

    /// The automaton is well-formed and no edge leaves its accepting state,
    /// so that a larger automaton can splice it in.
    pub open spec fn is_fragment(self) -> bool {
        self.wf() && self.states[self.accept as int].len() == 0
    }
}

/// Two states joined by one edge with the given label.
pub open spec fn literal_model(label: Transition) -> NfaModel {
    NfaModel { states: seq![seq![Edge { label, to: 1 }], seq![]], start: 0, accept: 1 }
}

/// `a` followed by `b`: the states of `a`, then those of `b` moved up by the
/// size of `a`, and an empty edge from the accepting state of `a` to the
/// start of `b`.
pub open spec fn concat_model(a: NfaModel, b: NfaModel) -> NfaModel {
    let n = a.states.len() as int;
    NfaModel {
        states: with_edge(a.states, a.accept as int, eps(b.start + n)) + shift_rows(b.states, n),
        start: a.start,
        accept: (b.accept + n) as usize,
    }
}

/// `a` or `b`: a new start state, the states of `a`, those of `b`, and a new
/// accepting state; empty edges lead from the new start into both and from
/// both accepting states to the new one.
pub open spec fn alt_model(a: NfaModel, b: NfaModel) -> NfaModel {
    let na = a.states.len() as int;
    let nb = b.states.len() as int;
    let last = 1 + na + nb;
    NfaModel {
        states: seq![seq![eps(a.start + 1), eps(b.start + 1 + na)]] + with_edge(
            shift_rows(a.states, 1),
            a.accept as int,
            eps(last),
        ) + with_edge(shift_rows(b.states, 1 + na), b.accept as int, eps(last)) + seq![
            Seq::<Edge>::empty(),
        ],
        start: 0,
        accept: last as usize,
    }
}

/// Zero or more of `a`: the states of `a`, then a new start and a new
/// accepting state. The new start enters `a` or skips it; the old accepting
/// state goes round again or leaves.
pub open spec fn star_model(a: NfaModel) -> NfaModel {
    let n = a.states.len() as int;
    NfaModel {
        states: with_edge(
            with_edge(a.states, a.accept as int, eps(a.start as int)),
            a.accept as int,
            eps(n + 1),
        ) + seq![seq![eps(a.start as int), eps(n + 1)], Seq::<Edge>::empty()],
        start: n as usize,
        accept: (n + 1) as usize,
    }
}

/// Zero or one of `a`: as for the star, without the way round.
pub open spec fn optional_model(a: NfaModel) -> NfaModel {
    let n = a.states.len() as int;
    NfaModel {
        states: with_edge(a.states, a.accept as int, eps(n + 1)) + seq![
            seq![eps(a.start as int), eps(n + 1)],
            Seq::<Edge>::empty(),
        ],
        start: n as usize,
        accept: (n + 1) as usize,
    }
}

/// The automaton that the construction gives for a syntax tree. One or more
/// of an operand is the operand followed by its star.
pub open spec fn thompson(r: Regex) -> NfaModel
    decreases r,
{
    match r {
        Regex::Byte(b) => literal_model(Transition::Byte(b)),
        Regex::Dot => literal_model(Transition::AnyByte),
        Regex::Concat(l, r) => concat_model(thompson(*l), thompson(*r)),
        Regex::Alt(l, r) => alt_model(thompson(*l), thompson(*r)),
        Regex::Star(inner) => star_model(thompson(*inner)),
        Regex::Plus(inner) => concat_model(thompson(*inner), star_model(thompson(*inner))),
        Regex::Optional(inner) => optional_model(thompson(*inner)),
    }
}

impl NFA {
    /// Adds a state without edges and returns its index.
    fn new_state(&mut self) -> (index: usize)
        ensures
            index == old(self).states.len(),
            final(self).states.len() == old(self).states.len() + 1,
            final(self)@ == (NfaModel {
                states: old(self)@.states.push(Seq::<Edge>::empty()),
                ..old(self)@
            }),
    {
        self.states.push(State { edges: Vec::new() });
        assert(rows(self.states@) =~= rows(old(self).states@).push(Seq::<Edge>::empty()));
        self.states.len() - 1
    }

    /// Adds an edge at the end of the edges of `from`.
    fn add_transition(&mut self, from: usize, to: usize, label: Transition)
        requires
            from < old(self).states.len(),
        ensures
            final(self).states.len() == old(self).states.len(),
            final(self)@ == (NfaModel {
                states: with_edge(old(self)@.states, from as int, Edge { label, to }),
                ..old(self)@
            }),
    {
        self.states[from].edges.push(Edge { label, to });
        assert(rows(self.states@) =~= with_edge(
            rows(old(self).states@),
            from as int,
            Edge { label, to },
        ));
    }
}

/// Moves every edge of the states from index `from` on up by `by`.
fn shift_targets(states: &mut Vec<State>, from: usize, by: usize)
    requires
        from <= old(states).len(),
        forall|p: int, j: int|
            from <= p < old(states).len() && 0 <= j < old(states)[p]@.len() ==> (
            #[trigger] old(states)[p]@[j]).to + by <= usize::MAX,
    ensures
        final(states).len() == old(states).len(),
        rows(final(states)@) == rows(old(states)@).take(from as int) + shift_rows(
            rows(old(states)@).skip(from as int),
            by as int,
        ),
{
    let n = states.len();
    let mut p = from;
    while p < n
        invariant
            from <= p <= n,
            states.len() == n,
            n == old(states).len(),
            forall|q: int| 0 <= q < from ==> states[q]@ == old(states)[q]@,
            forall|q: int| p <= q < n ==> states[q]@ == old(states)[q]@,
            forall|q: int|
                from <= q < p ==> #[trigger] states[q]@ == shift_rows(
                    rows(old(states)@),
                    by as int,
                )[q],
            forall|q: int, j: int|
                from <= q < n && 0 <= j < old(states)[q]@.len() ==> (
                #[trigger] old(states)[q]@[j]).to + by <= usize::MAX,
        decreases n - p,
    {
        let m = states[p].edges.len();
        let mut j: usize = 0;
        while j < m
            invariant
                from <= p < n,
                j <= m,
                states.len() == n,
                n == old(states).len(),
                m == old(states)[p as int]@.len(),
                states[p as int]@.len() == m,
                forall|q: int| 0 <= q < from ==> states[q]@ == old(states)[q]@,
                forall|q: int| p < q < n ==> states[q]@ == old(states)[q]@,
                forall|q: int|
                    from <= q < p ==> #[trigger] states[q]@ == shift_rows(
                        rows(old(states)@),
                        by as int,
                    )[q],
                forall|i: int| j <= i < m ==> states[p as int]@[i] == old(states)[p as int]@[i],
                forall|i: int|
                    0 <= i < j ==> states[p as int]@[i] == shift_edge(
                        old(states)[p as int]@[i],
                        by as int,
                    ),
                forall|q: int, i: int|
                    from <= q < n && 0 <= i < old(states)[q]@.len() ==> (
                    #[trigger] old(states)[q]@[i]).to + by <= usize::MAX,
            decreases m - j,
        {
            let ghost before = states[p as int]@;
            assert(old(states)[p as int]@[j as int].to + by <= usize::MAX);
            states[p].edges[j].to += by;
            assert(states[p as int]@ == before.update(
                j as int,
                shift_edge(old(states)[p as int]@[j as int], by as int),
            ));
            j += 1;
        }
        assert(states[p as int]@ =~= shift_rows(rows(old(states)@), by as int)[p as int]);
        p += 1;
    }
    assert(rows(states@) =~= rows(old(states)@).take(from as int) + shift_rows(
        rows(old(states)@).skip(from as int),
        by as int,
    ));
}

impl Clone for State {
    fn clone(&self) -> (copy: State)
        ensures
            copy@ == self@,
    {
        let mut edges: Vec<Edge> = Vec::new();
        let m = self.edges.len();
        let mut j: usize = 0;
        while j < m
            invariant
                j <= m,
                m == self@.len(),
                edges@ == self@.take(j as int),
            decreases m - j,
        {
            edges.push(self.edges[j]);
            assert(edges@ =~= self@.take(j + 1));
            j += 1;
        }
        assert(edges@ =~= self@);
        State { edges }
    }
}

/// A copy of the states.
fn copy_states(src: &Vec<State>) -> (dst: Vec<State>)
    ensures
        rows(dst@) == rows(src@),
{
    let mut dst: Vec<State> = Vec::new();
    let n = src.len();
    let mut p: usize = 0;
    while p < n
        invariant
            p <= n,
            n == src.len(),
            dst.len() == p,
            forall|q: int| 0 <= q < p ==> dst[q]@ == src[q]@,
        decreases n - p,
    {
        dst.push(src[p].clone());
        p += 1;
    }
    assert(rows(dst@) =~= rows(src@));
    dst
}

/// `a` followed by `b`, built from the states of both.
fn join(a: NFA, b: NFA) -> (nfa: NFA)
    requires
        a@.wf(),
        b@.wf(),
    ensures
        nfa@ == concat_model(a@, b@),
        nfa@.wf(),
        b@.is_fragment() ==> nfa@.is_fragment(),
{
    let mut nfa = a;
    let mut b = b;
    let ghost am = nfa@;
    let ghost bm = b@;
    let offset = nfa.states.len();
    nfa.states.append(&mut b.states);
    assert(rows(nfa.states@) =~= am.states + bm.states);
    assert forall|p: int, j: int|
        offset <= p < nfa.states.len() && 0 <= j < nfa.states[p]@.len() implies (
    #[trigger] nfa.states[p]@[j]).to + offset <= usize::MAX by {
        assert(nfa.states[p]@[j] == bm.states[p - offset][j]);
    }
    shift_targets(&mut nfa.states, offset, offset);
    assert((am.states + bm.states).take(offset as int) =~= am.states);
    assert((am.states + bm.states).skip(offset as int) =~= bm.states);
    nfa.add_transition(nfa.accept, b.start + offset, Transition::Epsilon);
    nfa.accept = b.accept + offset;
    assert(nfa@.states =~~= concat_model(am, bm).states);
    assert(nfa@.closed()) by {
        lemma_concat_closed(am, bm);
    }
    nfa
}

/// The concatenation of two well-formed automata is closed.
pub proof fn lemma_concat_closed(a: NfaModel, b: NfaModel)
    requires
        a.wf(),
        b.wf(),
        a.states.len() + b.states.len() <= usize::MAX,
    ensures
        concat_model(a, b).closed(),
{
    let c = concat_model(a, b);
    let n = a.states.len() as int;
    assert forall|p: int, j: int| 0 <= p < c.states.len() && 0 <= j < c.states[p].len() implies (
    #[trigger] c.states[p][j]).to < c.states.len() by {
        if p < n {
            if p == a.accept && j == a.states[p].len() {
            } else {
                assert(c.states[p][j] == a.states[p][j]);
            }
        } else {
            assert(c.states[p][j] == shift_edge(b.states[p - n][j], n));
        }
    }
}

/// `a` or `b`, built from the states of both.
fn either(a: NFA, b: NFA) -> (nfa: NFA)
    requires
        a@.wf(),
        b@.wf(),
    ensures
        nfa@ == alt_model(a@, b@),
        nfa@.is_fragment(),
{
    let mut a = a;
    let mut b = b;
    let ghost am = a@;
    let ghost bm = b@;
    let mut nfa = NFA { states: Vec::new(), start: 0, accept: 0 };
    let start = nfa.new_state();
    let ghost head = nfa@.states;
    assert(head =~= seq![Seq::<Edge>::empty()]);

    nfa.states.append(&mut a.states);
    assert(rows(nfa.states@) =~= head + am.states);
    assert forall|p: int, j: int|
        1 <= p < nfa.states.len() && 0 <= j < nfa.states[p]@.len() implies (
    #[trigger] nfa.states[p]@[j]).to + 1 <= usize::MAX by {
        assert(nfa.states[p]@[j] == am.states[p - 1][j]);
    }
    shift_targets(&mut nfa.states, 1, 1);
    assert((head + am.states).take(1) =~= head);
    assert((head + am.states).skip(1) =~= am.states);
    let ghost front = head + shift_rows(am.states, 1);
    assert(rows(nfa.states@) == front);

    let offset = nfa.states.len();
    nfa.states.append(&mut b.states);
    assert(rows(nfa.states@) =~= front + bm.states);
    assert forall|p: int, j: int|
        offset <= p < nfa.states.len() && 0 <= j < nfa.states[p]@.len() implies (
    #[trigger] nfa.states[p]@[j]).to + offset <= usize::MAX by {
        assert(nfa.states[p]@[j] == bm.states[p - offset][j]);
    }
    shift_targets(&mut nfa.states, offset, offset);
    assert((front + bm.states).take(offset as int) =~= front);
    assert((front + bm.states).skip(offset as int) =~= bm.states);

    let accept = nfa.new_state();
    nfa.add_transition(start, a.start + 1, Transition::Epsilon);
    nfa.add_transition(start, b.start + offset, Transition::Epsilon);
    nfa.add_transition(a.accept + 1, accept, Transition::Epsilon);
    nfa.add_transition(b.accept + offset, accept, Transition::Epsilon);
    nfa.start = start;
    nfa.accept = accept;
    assert(nfa@.states =~~= alt_model(am, bm).states);
    assert(nfa@.closed()) by {
        lemma_alt_closed(am, bm);
    }
    nfa
}

/// The alternation of two well-formed automata is closed.
pub proof fn lemma_alt_closed(a: NfaModel, b: NfaModel)
    requires
        a.wf(),
        b.wf(),
        a.states.len() + b.states.len() + 2 <= usize::MAX,
    ensures
        alt_model(a, b).closed(),
{
    let c = alt_model(a, b);
    let na = a.states.len() as int;
    let nb = b.states.len() as int;
    assert forall|p: int, j: int| 0 <= p < c.states.len() && 0 <= j < c.states[p].len() implies (
    #[trigger] c.states[p][j]).to < c.states.len() by {
        if p == 0 {
        } else if p < 1 + na {
            if p - 1 == a.accept && j == a.states[p - 1].len() {
            } else {
                assert(c.states[p][j] == shift_edge(a.states[p - 1][j], 1));
            }
        } else if p < 1 + na + nb {
            if p - 1 - na == b.accept && j == b.states[p - 1 - na].len() {
            } else {
                assert(c.states[p][j] == shift_edge(b.states[p - 1 - na][j], 1 + na));
            }
        } else {
        }
    }
}

/// An automaton that reads exactly the one byte `c`.
pub fn char_nfa(c: u8) -> (nfa: NFA)
    ensures
        nfa@ == literal_model(Transition::Byte(c)),
        nfa@.is_fragment(),
        forall|w: Seq<u8>| nfa@.accepts(w) == (w == seq![c]),
{
    let nfa = literal(Transition::Byte(c));
    proof {
        assert forall|w: Seq<u8>| nfa@.accepts(w) == (w == seq![c]) by {
            lemma_literal_accepts(Transition::Byte(c), w);
            if w.len() == 1 && w[0] == c {
                assert(w =~= seq![c]);
            }
        }
    }
    nfa
}

/// Two states joined by one edge with the given label.
fn literal(label: Transition) -> (nfa: NFA)
    ensures
        nfa@ == literal_model(label),
        nfa@.is_fragment(),
{
    let mut nfa = NFA { states: Vec::new(), start: 0, accept: 0 };
    let start = nfa.new_state();
    let accept = nfa.new_state();
    nfa.add_transition(start, accept, label);
    nfa.start = start;
    nfa.accept = accept;
    assert(nfa@.states =~~= literal_model(label).states);
    nfa
}

/// An automaton that reads zero or more of what `inner` reads.
pub fn star_nfa(inner: NFA) -> (nfa: NFA)
    requires
        inner@.wf(),
    ensures
        nfa@ == star_model(inner@),
        nfa@.is_fragment(),
        forall|w: Seq<u8>| nfa@.accepts(w) == repeated(accepted(inner@), w),
{
    let mut nfa = inner;
    let ghost im = nfa@;
    let inner_start = nfa.start;
    let inner_accept = nfa.accept;
    let start = nfa.new_state();
    let accept = nfa.new_state();
    nfa.add_transition(start, inner_start, Transition::Epsilon);
    nfa.add_transition(start, accept, Transition::Epsilon);
    nfa.add_transition(inner_accept, inner_start, Transition::Epsilon);
    nfa.add_transition(inner_accept, accept, Transition::Epsilon);
    nfa.start = start;
    nfa.accept = accept;
    assert(nfa@.states =~~= star_model(im).states);
    assert(nfa@.closed()) by {
        let c = star_model(im);
        assert forall|p: int, j: int|
            0 <= p < c.states.len() && 0 <= j < c.states[p].len() implies (
        #[trigger] c.states[p][j]).to < c.states.len() by {
            if p < im.states.len() && j < im.states[p].len() {
                assert(c.states[p][j] == im.states[p][j]);
            }
        }
    }
    proof {
        assert(nfa@.states.len() == nfa.states.len());
        assert forall|w: Seq<u8>| nfa@.accepts(w) == repeated(accepted(im), w) by {
            lemma_star_accepts(im, w);
        }
    }
    nfa
}

/// An automaton that reads zero or one of what `inner` reads.
fn optional(inner: NFA) -> (nfa: NFA)
    requires
        inner@.wf(),
    ensures
        nfa@ == optional_model(inner@),
        nfa@.is_fragment(),
{
    let mut nfa = inner;
    let ghost im = nfa@;
    let inner_start = nfa.start;
    let inner_accept = nfa.accept;
    let start = nfa.new_state();
    let accept = nfa.new_state();
    nfa.add_transition(start, inner_start, Transition::Epsilon);
    nfa.add_transition(start, accept, Transition::Epsilon);
    nfa.add_transition(inner_accept, accept, Transition::Epsilon);
    nfa.start = start;
    nfa.accept = accept;
    assert(nfa@.states =~~= optional_model(im).states);
    assert(nfa@.closed()) by {
        let c = optional_model(im);
        assert forall|p: int, j: int|
            0 <= p < c.states.len() && 0 <= j < c.states[p].len() implies (
        #[trigger] c.states[p][j]).to < c.states.len() by {
            if p < im.states.len() && j < im.states[p].len() {
                assert(c.states[p][j] == im.states[p][j]);
            }
        }
    }
    nfa
}

/// An automaton that reads what `first` reads and then what `second` reads.
pub fn concat_nfa(first: &NFA, second: &NFA) -> (nfa: NFA)
    requires
        first@.wf(),
        second@.wf(),
    ensures
        nfa@ == concat_model(first@, second@),
        nfa@.wf(),
        second@.is_fragment() ==> nfa@.is_fragment(),
        forall|w: Seq<u8>| nfa@.accepts(w) == joined(accepted(first@), accepted(second@), w),
{
    let a = NFA { states: copy_states(&first.states), start: first.start, accept: first.accept };
    let b = NFA {
        states: copy_states(&second.states),
        start: second.start,
        accept: second.accept,
    };
    let nfa = join(a, b);
    proof {
        assert(nfa@.states.len() == nfa.states.len());
        assert forall|w: Seq<u8>|
            nfa@.accepts(w) == joined(accepted(first@), accepted(second@), w) by {
            lemma_concat_accepts(first@, second@, w);
        }
    }
    nfa
}

/// Builds the automaton of a syntax tree, one rule for each kind of node.
/// The automaton accepts exactly the inputs that the tree matches.
pub fn from_regex(regex: &Regex) -> (nfa: NFA)
    ensures
        nfa@ == thompson(*regex),
        nfa@.is_fragment(),
        nfa@.trim(),
        forall|w: Seq<u8>| nfa@.accepts(w) == regex.matches(w),
    decreases regex,
{
    let nfa = match regex {
        Regex::Byte(b) => literal(Transition::Byte(*b)),
        Regex::Dot => literal(Transition::AnyByte),
        Regex::Concat(left, right) => {
            let a = from_regex(left);
            let b = from_regex(right);
            join(a, b)
        },
        Regex::Alt(left, right) => {
            let a = from_regex(left);
            let b = from_regex(right);
            either(a, b)
        },
        Regex::Star(inner) => star_nfa(from_regex(inner)),
        Regex::Plus(inner) => {
            let first = from_regex(inner);
            let again = NFA {
                states: copy_states(&first.states),
                start: first.start,
                accept: first.accept,
            };
            join(first, star_nfa(again))
        },
        Regex::Optional(inner) => optional(from_regex(inner)),
    };
    proof {
        assert(nfa@.states.len() == nfa.states.len());
        assert forall|w: Seq<u8>| nfa@.accepts(w) == regex.matches(w) by {
            lemma_thompson_accepts(*regex, w);
        }
        lemma_thompson_trim(*regex);
    }
    nfa
}

} // verus!
