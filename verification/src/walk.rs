use crate::nfa::{Edge, NfaModel, Transition};
use crate::simulate::reads;
use vstd::prelude::*;

verus! {

/// One step of a walk through an automaton: what it reads, if anything, and
/// the state it leads to.
pub struct Step {
    pub read: Option<u8>,
    pub to: usize,
}

/// Whether an edge with this label can be taken by a step that reads `read`.
pub open spec fn takes(label: Transition, read: Option<u8>) -> bool {
    match read {
        None => label is Epsilon,
        Some(b) => reads(label, b),
    }
}

/// What the steps read, in order.
pub open spec fn word(steps: Seq<Step>) -> Seq<u8>
    decreases steps.len(),
{
    if steps.len() == 0 {
        Seq::empty()
    } else {
        match steps[0].read {
            Some(b) => seq![b] + word(steps.drop_first()),
            None => word(steps.drop_first()),
        }
    }
}

/// The state in which a walk from `p` ends.
pub open spec fn end_of(p: usize, steps: Seq<Step>) -> usize {
    if steps.len() == 0 {
        p
    } else {
        steps.last().to
    }
}

impl NfaModel {
    /// An edge that a step reading `read` can take leads from `p` to `q`.
    pub open spec fn has_edge(self, p: usize, read: Option<u8>, q: usize) -> bool {
        p < self.states.len() && exists|j: int|
            0 <= j < self.states[p as int].len() && (#[trigger] self.states[p as int][j]).to == q
                && takes(self.states[p as int][j].label, read)
    }

    /// Each step takes an edge from where the one before it ended, the first
    /// one from `p`.
    pub open spec fn walk(self, p: usize, steps: Seq<Step>) -> bool
        decreases steps.len(),
    {
        steps.len() == 0 || (self.has_edge(p, steps[0].read, steps[0].to) && self.walk(
            steps[0].to,
            steps.drop_first(),
        ))
    }

    /// Some walk from `p` to `q` reads exactly `w`.
    pub open spec fn reach(self, p: usize, w: Seq<u8>, q: usize) -> bool {
        exists|steps: Seq<Step>| #[trigger]
            self.walk(p, steps) && end_of(p, steps) == q && word(steps) == w
    }

    /// Some walk from the start to the accepting state reads exactly `w`.
    pub open spec fn language(self, w: Seq<u8>) -> bool {
        self.reach(self.start, w, self.accept)
    }

    /// Some walk leads from the start to `p`.
    pub open spec fn reachable(self, p: usize) -> bool {
        exists|w: Seq<u8>| #[trigger] self.reach(self.start, w, p)
    }

    /// Some walk leads from `p` to the accepting state.
    pub open spec fn useful(self, p: usize) -> bool {
        exists|w: Seq<u8>| #[trigger] self.reach(p, w, self.accept)
    }

    /// Every state that can be reached from the start can reach the
    /// accepting state.
    pub open spec fn trim(self) -> bool {
        forall|p: usize| #[trigger] self.reachable(p) ==> self.useful(p)
    }
}

/// A walk followed by a walk from where it ended is a walk; it reads what
/// the first reads and then what the second reads.
pub proof fn lemma_walk_concat(m: NfaModel, p: usize, first: Seq<Step>, second: Seq<Step>)
    requires
        m.walk(p, first),
        m.walk(end_of(p, first), second),
    ensures
        m.walk(p, first + second),
        end_of(p, first + second) == end_of(end_of(p, first), second),
        word(first + second) == word(first) + word(second),
    decreases first.len(),
{
    if first.len() == 0 {
        assert(first + second =~= second);
        assert(word(first) + word(second) =~= word(second));
    } else {
        let rest = first.drop_first();
        lemma_walk_concat(m, first[0].to, rest, second);
        assert((first + second).drop_first() =~= rest + second);
        assert((first + second)[0] == first[0]);
        assert(end_of(first[0].to, rest) == end_of(p, first));
        match first[0].read {
            Some(b) => {
                assert(word(first + second) =~= seq![b] + (word(rest) + word(second)));
                assert(word(first) + word(second) =~= seq![b] + (word(rest) + word(second)));
            },
            None => {},
        }
        if second.len() == 0 {
            assert(first + second =~= first);
        }
    }
}

/// What can be reached in two parts can be reached.
pub proof fn lemma_reach_concat(m: NfaModel, p: usize, u: Seq<u8>, r: usize, v: Seq<u8>, q: usize)
    requires
        m.reach(p, u, r),
        m.reach(r, v, q),
    ensures
        m.reach(p, u + v, q),
{
    let first = choose|steps: Seq<Step>| #[trigger]
        m.walk(p, steps) && end_of(p, steps) == r && word(steps) == u;
    let second = choose|steps: Seq<Step>| #[trigger]
        m.walk(r, steps) && end_of(r, steps) == q && word(steps) == v;
    lemma_walk_concat(m, p, first, second);
    assert(m.walk(p, first + second));
}

/// Every state reaches itself without reading.
pub proof fn lemma_reach_self(m: NfaModel, p: usize)
    ensures
        m.reach(p, Seq::<u8>::empty(), p),
{
    let none = Seq::<Step>::empty();
    assert(m.walk(p, none));
    assert(word(none) =~= Seq::<u8>::empty());
}

/// One edge is a walk of one step.
pub proof fn lemma_reach_edge(m: NfaModel, p: usize, read: Option<u8>, q: usize)
    requires
        m.has_edge(p, read, q),
    ensures
        m.reach(
            p,
            match read {
                Some(b) => seq![b],
                None => Seq::<u8>::empty(),
            },
            q,
        ),
{
    let one = seq![Step { read, to: q }];
    assert(one.drop_first() =~= Seq::<Step>::empty());
    assert(m.walk(q, one.drop_first()));
    assert(m.walk(p, one));
    assert(word(one.drop_first()) =~= Seq::<u8>::empty());
    match read {
        Some(b) => {
            assert(word(one) =~= seq![b]);
        },
        None => {
            assert(word(one) =~= Seq::<u8>::empty());
        },
    }
}

/// An edge followed by a walk is a walk.
pub proof fn lemma_reach_prepend(
    m: NfaModel,
    p: usize,
    read: Option<u8>,
    r: usize,
    w: Seq<u8>,
    q: usize,
)
    requires
        m.has_edge(p, read, r),
        m.reach(r, w, q),
    ensures
        m.reach(
            p,
            match read {
                Some(b) => seq![b] + w,
                None => w,
            },
            q,
        ),
{
    lemma_reach_edge(m, p, read, r);
    match read {
        Some(b) => {
            lemma_reach_concat(m, p, seq![b], r, w, q);
        },
        None => {
            lemma_reach_concat(m, p, Seq::<u8>::empty(), r, w, q);
            assert(Seq::<u8>::empty() + w =~= w);
        },
    }
}

/// A path of edges that read nothing is a walk that reads nothing.
pub proof fn lemma_path_reach(m: NfaModel, path: Seq<usize>)
    requires
        m.eps_path(path),
    ensures
        m.reach(path[0], Seq::<u8>::empty(), path.last()),
    decreases path.len(),
{
    if path.len() == 1 {
        lemma_reach_self(m, path[0]);
    } else {
        let rest = path.drop_first();
        assert forall|i: int| 0 <= i < rest.len() - 1 implies m.eps_edge(
            #[trigger] rest[i],
            rest[i + 1],
        ) by {
            assert(m.eps_edge(path[i + 1], path[i + 1 + 1]));
        }
        lemma_path_reach(m, rest);
        assert(m.eps_edge(path[0int], path[0int + 1]));
        let j = choose|j: int|
            0 <= j < m.states[path[0] as int].len() && (#[trigger] m.states[path[0] as int][j]) == (
            Edge { label: Transition::Epsilon, to: path[1] });
        assert(m.states[path[0] as int][j].to == path[1]);
        assert(m.has_edge(path[0], None, path[1]));
        lemma_reach_prepend(m, path[0], None, path[1], Seq::<u8>::empty(), path.last());
    }
}

/// Whatever the closure walk holds after reading `w` from the set `s` is
/// reached by a walk that reads `w` from a state of `s`.
pub proof fn lemma_run_is_reached(m: NfaModel, s: Set<usize>, w: Seq<u8>, q: usize)
    requires
        m.run_from(s, w).contains(q),
    ensures
        exists|p: usize| s.contains(p) && #[trigger] m.reach(p, w, q),
    decreases w.len(),
{
    if w.len() == 0 {
        lemma_reach_self(m, q);
        assert(w =~= Seq::<u8>::empty());
        assert(s.contains(q) && m.reach(q, w, q));
    } else {
        let b = w[0];
        let next = m.closure(m.step(s, b));
        lemma_run_is_reached(m, next, w.drop_first(), q);
        let r = choose|r: usize| next.contains(r) && #[trigger] m.reach(r, w.drop_first(), q);
        let r0 = choose|r0: usize| m.step(s, b).contains(r0) && #[trigger] m.eps_reach(r0, r);
        let p = choose|p: usize| s.contains(p) && #[trigger] m.byte_edge(p, b, r0);
        let path = choose|path: Seq<usize>| #[trigger]
            m.eps_path(path) && path[0] == r0 && path.last() == r;
        lemma_path_reach(m, path);
        lemma_reach_concat(m, r0, Seq::<u8>::empty(), r, w.drop_first(), q);
        assert(Seq::<u8>::empty() + w.drop_first() =~= w.drop_first());
        assert(m.has_edge(p, Some(b), r0));
        lemma_reach_prepend(m, p, Some(b), r0, w.drop_first(), q);
        assert(seq![b] + w.drop_first() =~= w);
        assert(s.contains(p) && m.reach(p, w, q));
    }
}

/// No edge that reads nothing leaves the set.
pub open spec fn eps_closed(m: NfaModel, s: Set<usize>) -> bool {
    forall|q: usize, r: usize| s.contains(q) && #[trigger] m.eps_edge(q, r) ==> s.contains(r)
}

/// The closure walk, started in a set that no empty edge leaves, holds the
/// end of every walk from a state of the set after it has read what the walk
/// reads.
pub proof fn lemma_walk_is_run(m: NfaModel, s: Set<usize>, p: usize, steps: Seq<Step>)
    requires
        eps_closed(m, s),
        s.contains(p),
        m.walk(p, steps),
    ensures
        m.run_from(s, word(steps)).contains(end_of(p, steps)),
    decreases steps.len(),
{
    if steps.len() > 0 {
        let rest = steps.drop_first();
        let r = steps[0].to;
        assert(end_of(r, rest) == end_of(p, steps));
        let j = choose|j: int|
            0 <= j < m.states[p as int].len() && (#[trigger] m.states[p as int][j]).to == r && takes(
                m.states[p as int][j].label,
                steps[0].read,
            );
        match steps[0].read {
            None => {
                assert(m.states[p as int][j] == (Edge { label: Transition::Epsilon, to: r }));
                assert(m.eps_edge(p, r));
                lemma_walk_is_run(m, s, r, rest);
            },
            Some(b) => {
                assert(m.byte_edge(p, b, r));
                assert(m.step(s, b).contains(r));
                let next = m.closure(m.step(s, b));
                m.lemma_closure_contains(m.step(s, b), r);
                lemma_closure_closed(m, m.step(s, b));
                lemma_walk_is_run(m, next, r, rest);
                let w = word(steps);
                assert(w =~= seq![b] + word(rest));
                assert(w[0] == b);
                assert(w.drop_first() =~= word(rest));
            },
        }
    }
}

/// No empty edge leaves a closure.
pub proof fn lemma_closure_closed(m: NfaModel, s: Set<usize>)
    ensures
        eps_closed(m, m.closure(s)),
{
    assert forall|q: usize, r: usize| m.closure(s).contains(q) && #[trigger] m.eps_edge(
        q,
        r,
    ) implies m.closure(s).contains(r) by {
        m.lemma_closure_step(s, q, r);
    }
}

/// The closure walk accepts an input exactly if a walk from the start to the
/// accepting state reads it.
pub proof fn lemma_accepts_is_language(m: NfaModel, w: Seq<u8>)
    ensures
        m.accepts(w) == m.language(w),
{
    let first = m.closure(set![m.start]);
    if m.accepts(w) {
        lemma_run_is_reached(m, first, w, m.accept);
        let p = choose|p: usize| first.contains(p) && #[trigger] m.reach(p, w, m.accept);
        let origin = choose|origin: usize| set![m.start].contains(origin)
            && #[trigger] m.eps_reach(origin, p);
        let path = choose|path: Seq<usize>| #[trigger]
            m.eps_path(path) && path[0] == origin && path.last() == p;
        lemma_path_reach(m, path);
        lemma_reach_concat(m, m.start, Seq::<u8>::empty(), p, w, m.accept);
        assert(Seq::<u8>::empty() + w =~= w);
    }
    if m.language(w) {
        let steps = choose|steps: Seq<Step>| #[trigger]
            m.walk(m.start, steps) && end_of(m.start, steps) == m.accept && word(steps) == w;
        m.lemma_closure_contains(set![m.start], m.start);
        lemma_closure_closed(m, set![m.start]);
        lemma_walk_is_run(m, first, m.start, steps);
    }
}

} // verus!
