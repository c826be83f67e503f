use crate::bits::{contains, StateSet};
use vstd::prelude::*;
use vstd::string::StringSliceAdditionalSpecFns;

verus! {

/// A deterministic automaton: for each state a table with one slot per byte,
/// a start state and a set of accepting states.
#[derive(Debug)]
pub struct DFA {
    pub states: Vec<[Option<usize>; 256]>,
    pub start: usize,
    pub accepting: StateSet,
}

/// The mathematical content of a deterministic automaton.
pub struct DfaModel {
    pub rows: Seq<Seq<Option<usize>>>,
    pub start: usize,
    pub accepting: Set<usize>,
}

/// The tables as sequences.
pub open spec fn tables(states: Seq<[Option<usize>; 256]>) -> Seq<Seq<Option<usize>>> {
    Seq::new(states.len(), |i: int| states[i]@)
}

impl View for DFA {
    type V = DfaModel;

    open spec fn view(&self) -> DfaModel {
        DfaModel { rows: tables(self.states@), start: self.start, accepting: self.accepting@ }
    }
}

impl DfaModel {
    /// Every table has a slot for each byte, and every index that the
    /// automaton mentions is the index of a state.
    pub open spec fn wf(self) -> bool {
        &&& self.start < self.rows.len() <= usize::MAX
        &&& forall|s: int| 0 <= s < self.rows.len() ==> (#[trigger] self.rows[s]).len() == 256
        &&& forall|s: int, b: int|
            0 <= s < self.rows.len() && 0 <= b < 256 ==> match #[trigger] self.rows[s][b] {
                Some(t) => t < self.rows.len(),
                None => true,
            }
        &&& forall|s: usize| self.accepting.contains(s) ==> s < self.rows.len()
    }

    /// The state that follows `s` on reading `b`, if there is one.
    pub open spec fn next(self, s: usize, b: u8) -> Option<usize> {
        self.rows[s as int][b as int]
    }

    /// The automaton, started in `s`, reads all of `w` and ends in an
    /// accepting state.
    pub open spec fn accepts_from(self, s: usize, w: Seq<u8>) -> bool
        decreases w.len(),
    {
        if w.len() == 0 {
            self.accepting.contains(s)
        } else {
            match self.next(s, w[0]) {
                Some(t) => self.accepts_from(t, w.drop_first()),
                None => false,
            }
        }
    }

    /// The automaton reads all of `w` from its start and ends in an accepting
    /// state.
    pub open spec fn accepts(self, w: Seq<u8>) -> bool {
        self.accepts_from(self.start, w)
    }

    /// What becomes of the automaton started in `s` on the input `w`: nothing
    /// if it comes to an empty slot, else whether the state it ends in is an
    /// accepting one.
    pub open spec fn outcome(self, s: usize, w: Seq<u8>) -> Option<bool>
        decreases w.len(),
    {
        if w.len() == 0 {
            Some(self.accepting.contains(s))
        } else {
            match self.next(s, w[0]) {
                Some(t) => self.outcome(t, w.drop_first()),
                None => None,
            }
        }
    }

    /// Some input has different outcomes from the two states.
    pub open spec fn told_apart(self, s: usize, t: usize) -> bool {
        exists|w: Seq<u8>| self.outcome(s, w) != self.outcome(t, w)
    }

    /// Every input has the same outcome from the two states.
    pub open spec fn alike(self, s: usize, t: usize) -> bool {
        forall|w: Seq<u8>| self.outcome(s, w) == self.outcome(t, w)
    }

    /// The two states accept the same inputs.
    pub open spec fn equivalent(self, s: usize, t: usize) -> bool {
        forall|w: Seq<u8>| self.accepts_from(s, w) == self.accepts_from(t, w)
    }

    /// Some input is accepted from the state.
    pub open spec fn can_accept(self, s: usize) -> bool {
        exists|w: Seq<u8>| self.accepts_from(s, w)
    }

    /// Some input is accepted from every state.
    pub open spec fn live(self) -> bool {
        forall|s: usize| s < self.rows.len() ==> #[trigger] self.can_accept(s)
    }

    /// The state in which the automaton started in `s` is after `w`, if it
    /// comes to no empty slot.
    pub open spec fn state_after(self, s: usize, w: Seq<u8>) -> Option<usize>
        decreases w.len(),
    {
        if w.len() == 0 {
            Some(s)
        } else {
            match self.next(s, w[0]) {
                Some(t) => self.state_after(t, w.drop_first()),
                None => None,
            }
        }
    }

    /// Some input leads from the start to the state.
    pub open spec fn reached(self, j: usize) -> bool {
        exists|w: Seq<u8>| self.state_after(self.start, w) == Some(j)
    }

    /// Some input leads from the start to every state.
    pub open spec fn connected(self) -> bool {
        forall|j: usize| j < self.rows.len() ==> #[trigger] self.reached(j)
    }

    /// No two states accept the same inputs.
    pub open spec fn reduced(self) -> bool {
        forall|i: usize, j: usize|
            i < self.rows.len() && j < self.rows.len() && i != j ==> !#[trigger] self.equivalent(
                i,
                j,
            )
    }

    /// The automaton has no state that could be left out or merged with
    /// another: every state is reached from the start, some input is
    /// accepted from every state, and no two states accept the same inputs.
    pub open spec fn minimal(self) -> bool {
        self.wf() && self.connected() && self.live() && self.reduced()
    }

    /// The state after an input in two parts is the state after the second
    /// part, begun where the first part led.
    pub proof fn lemma_after_append(self, s: usize, first: Seq<u8>, second: Seq<u8>)
        ensures
            self.state_after(s, first + second) == match self.state_after(s, first) {
                Some(v) => self.state_after(v, second),
                None => None,
            },
        decreases first.len(),
    {
        if first.len() == 0 {
            assert(first + second =~= second);
        } else {
            let whole = first + second;
            assert(whole[0] == first[0]);
            assert(whole.drop_first() =~= first.drop_first() + second);
            match self.next(s, first[0]) {
                Some(t) => {
                    self.lemma_after_append(t, first.drop_first(), second);
                },
                None => {},
            }
        }
    }

    /// Where some input is accepted from every state and no input tells two
    /// states apart only if they are one state, no two states accept the
    /// same inputs.
    pub proof fn lemma_live_reduced(self)
        requires
            self.wf(),
            self.live(),
            forall|i: usize, j: usize|
                i < self.rows.len() && j < self.rows.len() && i != j ==> #[trigger] self.told_apart(
                    i,
                    j,
                ),
        ensures
            self.reduced(),
    {
        assert forall|i: usize, j: usize|
            i < self.rows.len() && j < self.rows.len() && i != j implies !#[trigger] self.equivalent(
            i,
            j,
        ) by {
            self.lemma_live_alike(i, j);
            assert(self.told_apart(i, j));
            let w = choose|w: Seq<u8>| self.outcome(i, w) != self.outcome(j, w);
            assert(!self.alike(i, j));
        }
    }

    /// The outcome of an input is whether the state after it is accepting.
    pub proof fn lemma_outcome_after(self, s: usize, w: Seq<u8>)
        requires
            self.wf(),
            s < self.rows.len(),
        ensures
            match self.state_after(s, w) {
                Some(v) => v < self.rows.len() && self.outcome(s, w) == Some(
                    self.accepting.contains(v),
                ),
                None => self.outcome(s, w) is None,
            },
        decreases w.len(),
    {
        if w.len() > 0 {
            match self.next(s, w[0]) {
                Some(t) => {
                    self.lemma_outcome_after(t, w.drop_first());
                },
                None => {},
            }
        }
    }

    /// An input in two parts is accepted exactly if the first part leads to
    /// a state from which the second is accepted.
    pub proof fn lemma_accepts_append(self, s: usize, first: Seq<u8>, second: Seq<u8>)
        ensures
            self.accepts_from(s, first + second) == match self.state_after(s, first) {
                Some(v) => self.accepts_from(v, second),
                None => false,
            },
        decreases first.len(),
    {
        if first.len() == 0 {
            assert(first + second =~= second);
        } else {
            let whole = first + second;
            assert(whole[0] == first[0]);
            assert(whole.drop_first() =~= first.drop_first() + second);
            match self.next(s, first[0]) {
                Some(t) => {
                    self.lemma_accepts_append(t, first.drop_first(), second);
                },
                None => {},
            }
        }
    }

    /// Where some input is accepted from every state, two states are alike
    /// exactly if they accept the same inputs.
    pub proof fn lemma_live_alike(self, s: usize, t: usize)
        requires
            self.wf(),
            self.live(),
            s < self.rows.len(),
            t < self.rows.len(),
        ensures
            self.alike(s, t) <==> self.equivalent(s, t),
    {
        if self.alike(s, t) {
            assert forall|w: Seq<u8>| self.accepts_from(s, w) == self.accepts_from(t, w) by {
                self.lemma_accepts_outcome(s, w);
                self.lemma_accepts_outcome(t, w);
            }
        }
        if self.equivalent(s, t) {
            assert forall|w: Seq<u8>| self.outcome(s, w) == self.outcome(t, w) by {
                self.lemma_outcome_after(s, w);
                self.lemma_outcome_after(t, w);
                self.lemma_accepts_outcome(s, w);
                self.lemma_accepts_outcome(t, w);
                match (self.state_after(s, w), self.state_after(t, w)) {
                    (Some(_), Some(_)) => {},
                    (None, None) => {},
                    (Some(v), None) => {
                        assert(self.can_accept(v));
                        let more = choose|more: Seq<u8>| self.accepts_from(v, more);
                        self.lemma_accepts_append(s, w, more);
                        self.lemma_accepts_append(t, w, more);
                        assert(self.accepts_from(s, w + more) != self.accepts_from(t, w + more));
                    },
                    (None, Some(v)) => {
                        assert(self.can_accept(v));
                        let more = choose|more: Seq<u8>| self.accepts_from(v, more);
                        self.lemma_accepts_append(s, w, more);
                        self.lemma_accepts_append(t, w, more);
                        assert(self.accepts_from(s, w + more) != self.accepts_from(t, w + more));
                    },
                }
            }
        }
    }

    /// An input is accepted exactly if its outcome is an accepting state.
    pub proof fn lemma_accepts_outcome(self, s: usize, w: Seq<u8>)
        ensures
            self.accepts_from(s, w) == (self.outcome(s, w) == Some(true)),
        decreases w.len(),
    {
        if w.len() > 0 {
            match self.next(s, w[0]) {
                Some(t) => {
                    self.lemma_accepts_outcome(t, w.drop_first());
                },
                None => {},
            }
        }
    }
}

impl DFA {
    /// Whether the automaton accepts exactly the bytes of `input`: it follows
    /// one table slot per byte and rejects at the first empty slot.
    pub fn matches_bytes(&self, input: &[u8]) -> (r: bool)
        requires
            self@.wf(),
        ensures
            r == self@.accepts(input@),
    {
        let ghost m = self@;
        let mut state = self.start;
        let len = input.len();
        let mut i: usize = 0;
        assert(input@.skip(0) =~= input@);
        while i < len
            invariant
                i <= len,
                len == input.len(),
                m == self@,
                m.wf(),
                state < self.states.len(),
                m.accepts(input@) == m.accepts_from(state, input@.skip(i as int)),
            decreases len - i,
        {
            let ghost rest = input@.skip(i as int);
            assert(rest[0] == input@[i as int]);
            assert(rest.drop_first() =~= input@.skip(i + 1));
            assert(m.rows[state as int] == self.states[state as int]@);
            match self.states[state][input[i] as usize] {
                Some(next) => {
                    state = next;
                },
                None => {
                    return false;
                },
            }
            i += 1;
        }
        assert(input@.skip(len as int).len() == 0);
        contains(&self.accepting, state)
    }

    /// Whether the automaton accepts exactly the bytes of `input`.
    pub fn matches(&self, input: &str) -> (r: bool)
        requires
            self@.wf(),
        ensures
            r == self@.accepts(input.spec_bytes()),
    {
        self.matches_bytes(input.as_bytes())
    }
}

/// A minimal automaton has no more states than any automaton that accepts
/// the same inputs.
pub proof fn lemma_minimal_least(least: DfaModel, other: DfaModel)
    requires
        least.minimal(),
        other.wf(),
        forall|w: Seq<u8>| least.accepts(w) == other.accepts(w),
    ensures
        least.rows.len() <= other.rows.len(),
{
    let words = Seq::new(
        least.rows.len(),
        |i: int| choose|w: Seq<u8>| least.state_after(least.start, w) == Some(i as usize),
    );
    let images = Seq::new(
        least.rows.len(),
        |i: int|
            match other.state_after(other.start, words[i]) {
                Some(v) => v as int,
                None => -1,
            },
    );
    assert forall|i: int| 0 <= i < images.len() implies 0 <= #[trigger] images[i]
        < other.rows.len() by {
        let s = i as usize;
        assert(least.reached(s));
        assert(least.state_after(least.start, words[i]) == Some(s));
        assert(least.can_accept(s));
        let more = choose|more: Seq<u8>| least.accepts_from(s, more);
        least.lemma_accepts_append(least.start, words[i], more);
        other.lemma_accepts_append(other.start, words[i], more);
        assert(least.accepts(words[i] + more));
        assert(other.accepts(words[i] + more));
        other.lemma_outcome_after(other.start, words[i]);
    }
    assert(images.no_duplicates()) by {
        assert forall|i: int, j: int|
            0 <= i < images.len() && 0 <= j < images.len() && i != j implies images[i]
            != images[j] by {
            if images[i] == images[j] {
                let s = i as usize;
                let t = j as usize;
                assert(0 <= images[i] < other.rows.len());
                assert(0 <= images[j] < other.rows.len());
                assert(least.reached(s));
                assert(least.reached(t));
                assert forall|w: Seq<u8>| least.accepts_from(s, w) == least.accepts_from(
                    t,
                    w,
                ) by {
                    least.lemma_accepts_append(least.start, words[i], w);
                    least.lemma_accepts_append(least.start, words[j], w);
                    other.lemma_accepts_append(other.start, words[i], w);
                    other.lemma_accepts_append(other.start, words[j], w);
                    assert(least.accepts(words[i] + w) == other.accepts(words[i] + w));
                    assert(least.accepts(words[j] + w) == other.accepts(words[j] + w));
                }
                assert(least.equivalent(s, t));
            }
        }
    }
    crate::counting::lemma_distinct_bounded(images, other.rows.len() as int);
}

} // verus!
