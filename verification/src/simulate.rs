use crate::nfa::{Edge, NfaModel, Transition, NFA};
use vstd::prelude::*;
use vstd::string::StringSliceAdditionalSpecFns;

verus! {

/// Whether an edge with this label can be taken on reading `b`.
pub open spec fn reads(label: Transition, b: u8) -> bool {
    label == Transition::Byte(b) || label is AnyByte
}

impl NfaModel {
    /// An edge that reads nothing leads from `p` to `q`.
    pub open spec fn eps_edge(self, p: usize, q: usize) -> bool {
        p < self.states.len() && exists|j: int|
            0 <= j < self.states[p as int].len() && (#[trigger] self.states[p as int][j]) == (Edge {
                label: Transition::Epsilon,
                to: q,
            })
    }

    /// Each state of the path is joined to the next by an edge that reads
    /// nothing.
    pub open spec fn eps_path(self, path: Seq<usize>) -> bool {
        path.len() > 0 && forall|i: int|
            0 <= i < path.len() - 1 ==> self.eps_edge(#[trigger] path[i], path[i + 1])
    }

    /// `q` can be reached from `p` without reading anything.
    pub open spec fn eps_reach(self, p: usize, q: usize) -> bool {
        exists|path: Seq<usize>| #[trigger]
            self.eps_path(path) && path[0] == p && path.last() == q
    }

    /// The states that can be reached from a state of `s` without reading
    /// anything.
    pub open spec fn closure(self, s: Set<usize>) -> Set<usize> {
        Set::new(|q: usize| exists|p: usize| s.contains(p) && #[trigger] self.eps_reach(p, q))
    }

    /// An edge that can be taken on reading `b` leads from `p` to `q`.
    pub open spec fn byte_edge(self, p: usize, b: u8, q: usize) -> bool {
        p < self.states.len() && exists|j: int|
            0 <= j < self.states[p as int].len() && (#[trigger] self.states[p as int][j]).to == q
                && reads(self.states[p as int][j].label, b)
    }

    /// The states that one edge taken on reading `b` reaches from a state of
    /// `s`.
    pub open spec fn step(self, s: Set<usize>, b: u8) -> Set<usize> {
        Set::new(|q: usize| exists|p: usize| s.contains(p) && #[trigger] self.byte_edge(p, b, q))
    }

    /// The states in which the automaton can be after it has read `w` from
    /// the closed set `s`.
    pub open spec fn run_from(self, s: Set<usize>, w: Seq<u8>) -> Set<usize>
        decreases w.len(),
    {
        if w.len() == 0 {
            s
        } else {
            self.run_from(self.closure(self.step(s, w[0])), w.drop_first())
        }
    }

    /// The states in which the automaton can be after it has read `w` from
    /// its start.
    pub open spec fn run(self, w: Seq<u8>) -> Set<usize> {
        self.run_from(self.closure(set![self.start]), w)
    }

    /// The automaton can be in its accepting state after it has read all of
    /// `w`.
    pub open spec fn accepts(self, w: Seq<u8>) -> bool {
        self.run(w).contains(self.accept)
    }

    /// Every state of `s` is in the closure of `s`.
    pub proof fn lemma_closure_contains(self, s: Set<usize>, p: usize)
        requires
            s.contains(p),
        ensures
            self.closure(s).contains(p),
    {
        let path = seq![p];
        assert(self.eps_path(path));
        assert(self.eps_reach(p, p));
    }

    /// The closure is closed under edges that read nothing.
    pub proof fn lemma_closure_step(self, s: Set<usize>, q: usize, r: usize)
        requires
            self.closure(s).contains(q),
            self.eps_edge(q, r),
        ensures
            self.closure(s).contains(r),
    {
        let p = choose|p: usize| s.contains(p) && #[trigger] self.eps_reach(p, q);
        let path = choose|path: Seq<usize>| #[trigger]
            self.eps_path(path) && path[0] == p && path.last() == q;
        let longer = path.push(r);
        assert forall|i: int| 0 <= i < longer.len() - 1 implies self.eps_edge(
            #[trigger] longer[i],
            longer[i + 1],
        ) by {
            if i < path.len() - 1 {
                assert(longer[i] == path[i]);
                assert(longer[i + 1] == path[i + 1]);
            }
        }
        assert(self.eps_path(longer));
        assert(self.eps_reach(p, r));
    }

    /// A set that holds `s` and is closed under edges that read nothing holds
    /// the closure of `s`.
    pub proof fn lemma_closure_least(self, s: Set<usize>, t: Set<usize>)
        requires
            s.subset_of(t),
            forall|q: usize, r: usize| t.contains(q) && #[trigger] self.eps_edge(q, r) ==> t.contains(r),
        ensures
            self.closure(s).subset_of(t),
    {
        assert forall|q: usize| self.closure(s).contains(q) implies t.contains(q) by {
            let p = choose|p: usize| s.contains(p) && #[trigger] self.eps_reach(p, q);
            let path = choose|path: Seq<usize>| #[trigger]
                self.eps_path(path) && path[0] == p && path.last() == q;
            self.lemma_path_stays(t, path, path.len() - 1);
        }
    }

    /// A path that starts in a set closed under edges that read nothing stays
    /// in it.
    proof fn lemma_path_stays(self, t: Set<usize>, path: Seq<usize>, k: int)
        requires
            self.eps_path(path),
            t.contains(path[0]),
            0 <= k < path.len(),
            forall|q: usize, r: usize| t.contains(q) && #[trigger] self.eps_edge(q, r) ==> t.contains(r),
        ensures
            t.contains(path[k]),
        decreases k,
    {
        if k > 0 {
            self.lemma_path_stays(t, path, k - 1);
            assert(self.eps_edge(path[k - 1], path[k - 1 + 1]));
        }
    }

    /// The closure of the empty set is empty.
    pub proof fn lemma_closure_empty(self)
        ensures
            self.closure(Set::<usize>::empty()) == Set::<usize>::empty(),
    {
        assert(self.closure(Set::<usize>::empty()) =~= Set::<usize>::empty());
    }

    /// From the empty set the automaton reaches nothing.
    pub proof fn lemma_run_from_empty(self, w: Seq<u8>)
        ensures
            self.run_from(Set::<usize>::empty(), w) == Set::<usize>::empty(),
        decreases w.len(),
    {
        if w.len() > 0 {
            assert(self.step(Set::<usize>::empty(), w[0]) =~= Set::<usize>::empty());
            self.lemma_closure_empty();
            self.lemma_run_from_empty(w.drop_first());
        }
    }
}

/// The set of indices that a vector of flags marks.
pub open spec fn marked(flags: Seq<bool>) -> Set<usize> {
    Set::new(|i: usize| i < flags.len() && flags[i as int])
}

/// How many flags are not set.
pub open spec fn unmarked(flags: Seq<bool>) -> nat
    decreases flags.len(),
{
    if flags.len() == 0 {
        0
    } else {
        unmarked(flags.drop_last()) + if flags.last() {
            0nat
        } else {
            1nat
        }
    }
}

/// Setting a flag that was not set leaves one unset flag fewer.
pub proof fn lemma_mark(flags: Seq<bool>, i: int)
    requires
        0 <= i < flags.len(),
        !flags[i],
    ensures
        unmarked(flags.update(i, true)) + 1 == unmarked(flags),
    decreases flags.len(),
{
    let after = flags.update(i, true);
    if i == flags.len() - 1 {
        assert(after.drop_last() =~= flags.drop_last());
    } else {
        assert(after.drop_last() =~= flags.drop_last().update(i, true));
        lemma_mark(flags.drop_last(), i);
    }
}

impl NFA {
    /// The states that can be reached from a marked state without reading
    /// anything, found by a walk with an explicit stack.
    pub fn epsilon_closure(&self, seeds: &Vec<bool>) -> (closed: Vec<bool>)
        requires
            self@.wf(),
            seeds.len() == self.states.len(),
        ensures
            closed.len() == self.states.len(),
            marked(closed@) == self@.closure(marked(seeds@)),
    {
        let n = self.states.len();
        let ghost m = self@;
        let ghost s = marked(seeds@);
        let mut closed: Vec<bool> = Vec::new();
        let mut stack: Vec<usize> = Vec::new();
        let mut i: usize = 0;
        while i < n
            invariant
                i <= n,
                n == seeds.len(),
                closed@ == seeds@.take(i as int),
                forall|k: int| 0 <= k < stack.len() ==> stack[k] < i && seeds[stack[k] as int],
                forall|q: int| 0 <= q < i && seeds[q] ==> stack@.contains(q as usize),
            decreases n - i,
        {
            closed.push(seeds[i]);
            assert(closed@ =~= seeds@.take(i + 1));
            if seeds[i] {
                let ghost before = stack@;
                stack.push(i);
                assert(stack@.last() == i);
                assert forall|q: int| 0 <= q < i + 1 && seeds[q] implies stack@.contains(
                    q as usize,
                ) by {
                    if q < i {
                        let k = choose|k: int| 0 <= k < before.len() && before[k] == q as usize;
                        assert(stack@[k] == q as usize);
                    }
                }
            }
            i += 1;
        }
        assert(closed@ =~= seeds@);
        proof {
            assert forall|q: int| 0 <= q < n && closed[q] implies m.closure(s).contains(
                q as usize,
            ) by {
                m.lemma_closure_contains(s, q as usize);
            }
        }
        while stack.len() > 0
            invariant
                n == self.states.len(),
                m == self@,
                m.wf(),
                s == marked(seeds@),
                seeds.len() == n,
                closed.len() == n,
                forall|k: int| 0 <= k < stack.len() ==> stack[k] < n && closed[stack[k] as int],
                forall|q: int| 0 <= q < n && closed[q] ==> m.closure(s).contains(q as usize),
                forall|q: int| 0 <= q < n && seeds[q] ==> closed[q],
                forall|q: int, j: int|
                    0 <= q < n && closed[q] && !stack@.contains(q as usize) && 0 <= j
                        < m.states[q].len() && (#[trigger] m.states[q][j]).label is Epsilon
                        ==> closed[m.states[q][j].to as int],
            decreases unmarked(closed@), stack.len(),
        {
            let ghost stack_before = stack@;
            let ghost count_before = unmarked(closed@);
            let p = stack.pop().unwrap();
            let ghost rest = stack@;
            let edges = &self.states[p].edges;
            let len = edges.len();
            assert(edges@ == m.states[p as int]);
            proof {
                assert(stack_before =~= rest.push(p));
                assert forall|q: usize| stack_before.contains(q) && q != p implies rest.contains(
                    q,
                ) by {
                    let k = choose|k: int| 0 <= k < stack_before.len() && stack_before[k] == q;
                    assert(rest[k] == q);
                }
            }
            let mut j: usize = 0;
            while j < len
                invariant
                    n == self.states.len(),
                    m == self@,
                    m.wf(),
                    s == marked(seeds@),
                    seeds.len() == n,
                    closed.len() == n,
                    p < n,
                    closed[p as int],
                    j <= len,
                    len == edges.len(),
                    edges@ == m.states[p as int],
                    stack_before == rest.push(p),
                    stack.len() >= rest.len(),
                    stack.len() + unmarked(closed@) == rest.len() + count_before,
                    forall|k: int| 0 <= k < stack.len() ==> stack[k] < n && closed[stack[k] as int],
                    forall|q: int| 0 <= q < n && closed[q] ==> m.closure(s).contains(q as usize),
                    forall|q: int| 0 <= q < n && seeds[q] ==> closed[q],
                    forall|q: int, i: int|
                        0 <= q < n && q != p && closed[q] && !stack@.contains(q as usize) && 0 <= i
                            < m.states[q].len() && (#[trigger] m.states[q][i]).label is Epsilon
                            ==> closed[m.states[q][i].to as int],
                    forall|i: int|
                        0 <= i < j && (#[trigger] m.states[p as int][i]).label is Epsilon
                            ==> closed[m.states[p as int][i].to as int],
                decreases len - j,
            {
                let e = edges[j];
                assert(e == m.states[p as int][j as int]);
                assert(e.to < n);
                match e.label {
                    Transition::Epsilon => {
                        if !closed[e.to] {
                            let ghost flags = closed@;
                            let ghost pending = stack@;
                            proof {
                                lemma_mark(flags, e.to as int);
                                assert(m.eps_edge(p, e.to));
                                m.lemma_closure_step(s, p, e.to);
                            }
                            closed[e.to] = true;
                            stack.push(e.to);
                            assert(closed@ == flags.update(e.to as int, true));
                            assert(stack@.last() == e.to);
                            assert forall|q: int, i: int|
                                0 <= q < n && q != p && closed[q] && !stack@.contains(q as usize)
                                    && 0 <= i < m.states[q].len() && (
                                #[trigger] m.states[q][i]).label is Epsilon
                                    implies closed[m.states[q][i].to as int] by {
                                if q == e.to {
                                    assert(stack@[stack.len() - 1] == q as usize);
                                } else {
                                    if pending.contains(q as usize) {
                                        let k = choose|k: int|
                                            0 <= k < pending.len() && pending[k] == q as usize;
                                        assert(stack@[k] == q as usize);
                                    }
                                    assert(flags[q]);
                                    assert(flags[m.states[q][i].to as int]);
                                }
                            }
                        }
                    },
                    _ => {},
                }
                j += 1;
            }
            proof {
                assert forall|q: int, i: int|
                    0 <= q < n && closed[q] && !stack@.contains(q as usize) && 0 <= i
                        < m.states[q].len() && (#[trigger] m.states[q][i]).label is Epsilon
                            implies closed[m.states[q][i].to as int] by {
                    if q != p {
                    }
                }
            }
        }
        proof {
            let t = marked(closed@);
            assert(s.subset_of(t));
            assert forall|q: usize, r: usize| t.contains(q) && #[trigger] m.eps_edge(q, r)
                implies t.contains(r) by {
                let j = choose|j: int|
                    0 <= j < m.states[q as int].len() && (#[trigger] m.states[q as int][j]) == (Edge {
                        label: Transition::Epsilon,
                        to: r,
                    });
                assert(m.states[q as int][j].label is Epsilon);
                assert(!stack@.contains(q));
                assert(r < n);
            }
            m.lemma_closure_least(s, t);
            assert(t =~= m.closure(s));
        }
        closed
    }

    /// The states that one edge taken on reading `input` reaches from a
    /// marked state.
    pub fn move_on(&self, states: &Vec<bool>, input: u8) -> (reached: Vec<bool>)
        requires
            self@.wf(),
            states.len() == self.states.len(),
        ensures
            reached.len() == self.states.len(),
            marked(reached@) == self@.step(marked(states@), input),
    {
        let n = self.states.len();
        let ghost m = self@;
        let ghost s = marked(states@);
        let mut reached: Vec<bool> = no_flags(n);
        let mut p: usize = 0;
        while p < n
            invariant
                p <= n,
                n == self.states.len(),
                m == self@,
                m.wf(),
                s == marked(states@),
                states.len() == n,
                reached.len() == n,
                forall|q: int| 0 <= q < n && reached[q] ==> m.step(s, input).contains(q as usize),
                forall|o: int, j: int|
                    0 <= o < p && states[o] && 0 <= j < m.states[o].len() && reads(
                        (#[trigger] m.states[o][j]).label,
                        input,
                    ) ==> reached[m.states[o][j].to as int],
            decreases n - p,
        {
            if states[p] {
                let edges = &self.states[p].edges;
                let len = edges.len();
                assert(edges@ == m.states[p as int]);
                let mut j: usize = 0;
                while j < len
                    invariant
                        p < n,
                        n == self.states.len(),
                        m == self@,
                        m.wf(),
                        s == marked(states@),
                        states.len() == n,
                        states[p as int],
                        reached.len() == n,
                        j <= len,
                        len == edges.len(),
                        edges@ == m.states[p as int],
                        forall|q: int|
                            0 <= q < n && reached[q] ==> m.step(s, input).contains(q as usize),
                        forall|o: int, i: int|
                            0 <= o < p && states[o] && 0 <= i < m.states[o].len() && reads(
                                (#[trigger] m.states[o][i]).label,
                                input,
                            ) ==> reached[m.states[o][i].to as int],
                        forall|i: int|
                            0 <= i < j && reads((#[trigger] m.states[p as int][i]).label, input)
                                ==> reached[m.states[p as int][i].to as int],
                    decreases len - j,
                {
                    let e = edges[j];
                    assert(e == m.states[p as int][j as int]);
                    assert(e.to < n);
                    let takes = match e.label {
                        Transition::Byte(b) => b == input,
                        Transition::AnyByte => true,
                        Transition::Epsilon => false,
                    };
                    if takes {
                        proof {
                            assert(m.byte_edge(p, input, e.to));
                            assert(s.contains(p));
                        }
                        reached[e.to] = true;
                    }
                    j += 1;
                }
            }
            p += 1;
        }
        proof {
            assert forall|q: usize| m.step(s, input).contains(q) implies marked(reached@).contains(
                q,
            ) by {
                let o = choose|o: usize| s.contains(o) && #[trigger] m.byte_edge(o, input, q);
                let j = choose|j: int|
                    0 <= j < m.states[o as int].len() && (#[trigger] m.states[o as int][j]).to == q
                        && reads(m.states[o as int][j].label, input);
                assert(reached[m.states[o as int][j].to as int]);
            }
            assert(marked(reached@) =~= m.step(s, input));
        }
        reached
    }
}

/// A vector of `n` flags, none of them set.
pub fn no_flags(n: usize) -> (flags: Vec<bool>)
    ensures
        flags.len() == n,
        forall|i: int| 0 <= i < n ==> !flags[i],
        marked(flags@) == Set::<usize>::empty(),
{
    let mut flags: Vec<bool> = Vec::new();
    let mut i: usize = 0;
    while i < n
        invariant
            i <= n,
            flags.len() == i,
            forall|k: int| 0 <= k < i ==> !flags[k],
        decreases n - i,
    {
        flags.push(false);
        i += 1;
    }
    assert(marked(flags@) =~= Set::<usize>::empty());
    flags
}

/// Whether no flag is set.
pub fn none_marked(flags: &Vec<bool>) -> (r: bool)
    ensures
        r == (marked(flags@) == Set::<usize>::empty()),
{
    let n = flags.len();
    let mut i: usize = 0;
    while i < n
        invariant
            i <= n,
            n == flags.len(),
            forall|k: int| 0 <= k < i ==> !flags[k],
        decreases n - i,
    {
        if flags[i] {
            assert(marked(flags@).contains(i));
            return false;
        }
        i += 1;
    }
    assert(marked(flags@) =~= Set::<usize>::empty());
    true
}

/// Whether the automaton reads all of `input`, decided by following every
/// state that it can be in.
pub fn matches_bytes(nfa: &NFA, input: &[u8]) -> (r: bool)
    requires
        nfa@.wf(),
    ensures
        r == nfa@.accepts(input@),
{
    let n = nfa.states.len();
    let ghost m = nfa@;
    let mut seeds = no_flags(n);
    seeds[nfa.start] = true;
    assert(marked(seeds@) =~= set![nfa.start]);
    let mut current = nfa.epsilon_closure(&seeds);
    let len = input.len();
    let mut i: usize = 0;
    assert(input@.skip(0) =~= input@);
    while i < len
        invariant
            i <= len,
            len == input.len(),
            m == nfa@,
            m.wf(),
            current.len() == nfa.states.len(),
            m.run(input@) == m.run_from(marked(current@), input@.skip(i as int)),
        decreases len - i,
    {
        let next = nfa.move_on(&current, input[i]);
        proof {
            let rest = input@.skip(i as int);
            assert(rest[0] == input@[i as int]);
            assert(rest.drop_first() =~= input@.skip(i + 1));
        }
        current = nfa.epsilon_closure(&next);
        i += 1;
    }
    assert(input@.skip(len as int).len() == 0);
    current[nfa.accept]
}

/// Whether the automaton reads all the bytes of `input`.
pub fn matches(nfa: &NFA, input: &str) -> (r: bool)
    requires
        nfa@.wf(),
    ensures
        r == nfa@.accepts(input.spec_bytes()),
{
    matches_bytes(nfa, input.as_bytes())
}

} // verus!
