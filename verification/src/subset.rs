use crate::bits::{insert, with_capacity, StateSet};
use crate::counting::{lemma_distinct_flags, subsets_of};
use crate::dfa::{tables, DfaModel, DFA};
use crate::nfa::{NfaModel, NFA};
use crate::simulate::{marked, no_flags, none_marked};
use crate::walk::{
    end_of, eps_closed, lemma_closure_closed, lemma_path_reach, lemma_reach_concat,
    lemma_reach_prepend, lemma_walk_is_run, word, Step,
};
use vstd::prelude::*;

verus! {

/// What a table slot must hold for the byte `b` in the state that stands for
/// the set `from`: nothing if no edge can be taken, else the state that
/// stands for the closure of what the edges reach.
pub open spec fn slot_follows(
    nfa: NfaModel,
    sets: Seq<Set<usize>>,
    from: Set<usize>,
    b: u8,
    slot: Option<usize>,
) -> bool {
    match slot {
        Some(j) => j < sets.len() && nfa.step(from, b) != Set::<usize>::empty() && sets[j as int]
            == nfa.closure(nfa.step(from, b)),
        None => nfa.step(from, b) == Set::<usize>::empty(),
    }
}

/// Whether the slot for byte `b` of state `i` is filled before the slot for
/// byte `c` of state `k`: the states are gone through in order, and the bytes
/// in order for each state.
pub open spec fn earlier(i: usize, b: u8, k: usize, c: u8) -> bool {
    i < k || (i == k && b < c)
}

/// State `j` was found when the slot for byte `b` of state `i` was filled:
/// that slot leads to `j`, and every slot filled before it leads to a state
/// with a smaller index.
pub open spec fn found_at(table: Seq<Seq<Option<usize>>>, j: usize, i: usize, b: u8) -> bool {
    &&& i < j
    &&& table[i as int][b as int] == Some(j)
    &&& forall|k: usize, c: u8| #[trigger]
        earlier(k, c, i, b) ==> match table[k as int][c as int] {
            Some(t) => t < j,
            None => true,
        }
}

/// State `j` was found at some slot.
pub open spec fn was_found(table: Seq<Seq<Option<usize>>>, j: usize) -> bool {
    exists|i: usize, b: u8| found_at(table, j, i, b)
}

/// The start state has index 0, and the other states are numbered in the
/// order in which a breadth-first search finds them.
pub open spec fn breadth_first(dfa: DfaModel) -> bool {
    &&& dfa.start == 0
    &&& forall|j: usize| 0 < j < dfa.rows.len() ==> #[trigger] was_found(dfa.rows, j)
}

/// `dfa` is the subset automaton of `nfa` in which state `i` stands for the
/// set `sets[i]` of states of `nfa`.
pub open spec fn determinizes(dfa: DfaModel, nfa: NfaModel, sets: Seq<Set<usize>>) -> bool {
    &&& dfa.wf()
    &&& breadth_first(dfa)
    &&& sets.len() == dfa.rows.len()
    &&& sets[dfa.start as int] == nfa.closure(set![nfa.start])
    &&& forall|i: int, j: int| 0 <= i < j < sets.len() ==> sets[i] != sets[j]
    &&& forall|i: usize|
        i < sets.len() ==> (dfa.accepting.contains(i) <==> (#[trigger] sets[i as int]).contains(
            nfa.accept,
        ))
    &&& forall|i: usize, b: u8|
        i < sets.len() ==> slot_follows(
            nfa,
            sets,
            sets[i as int],
            b,
            #[trigger] dfa.rows[i as int][b as int],
        )
}

/// In a subset automaton, the state that stands for a set accepts exactly the
/// inputs on which the nondeterministic automaton, started in that set, can
/// reach its accepting state.
pub proof fn lemma_determinized_from(
    dfa: DfaModel,
    nfa: NfaModel,
    sets: Seq<Set<usize>>,
    i: usize,
    w: Seq<u8>,
)
    requires
        determinizes(dfa, nfa, sets),
        i < sets.len(),
    ensures
        dfa.accepts_from(i, w) == nfa.run_from(sets[i as int], w).contains(nfa.accept),
    decreases w.len(),
{
    if w.len() > 0 {
        let slot = dfa.rows[i as int][w[0] as int];
        assert(slot_follows(nfa, sets, sets[i as int], w[0], slot));
        match slot {
            Some(j) => {
                lemma_determinized_from(dfa, nfa, sets, j, w.drop_first());
            },
            None => {
                nfa.lemma_closure_empty();
                nfa.lemma_run_from_empty(w.drop_first());
            },
        }
    }
}

/// A subset automaton accepts exactly what the nondeterministic automaton
/// accepts.
pub proof fn lemma_determinized(dfa: DfaModel, nfa: NfaModel, sets: Seq<Set<usize>>, w: Seq<u8>)
    requires
        determinizes(dfa, nfa, sets),
    ensures
        dfa.accepts(w) == nfa.accepts(w),
{
    lemma_determinized_from(dfa, nfa, sets, dfa.start, w);
}

/// In a subset automaton every set has an element, no empty edge leaves it,
/// and each of its states can be reached from the start.
pub proof fn lemma_sets_sound(dfa: DfaModel, nfa: NfaModel, sets: Seq<Set<usize>>, j: usize)
    requires
        determinizes(dfa, nfa, sets),
        j < sets.len(),
    ensures
        exists|p: usize| sets[j as int].contains(p),
        eps_closed(nfa, sets[j as int]),
        forall|p: usize| sets[j as int].contains(p) ==> nfa.reachable(p),
    decreases j,
{
    if j == 0 {
        let first = set![nfa.start];
        nfa.lemma_closure_contains(first, nfa.start);
        lemma_closure_closed(nfa, first);
        assert forall|p: usize| sets[0].contains(p) implies nfa.reachable(p) by {
            let origin = choose|origin: usize| first.contains(origin)
                && #[trigger] nfa.eps_reach(origin, p);
            let path = choose|path: Seq<usize>| #[trigger]
                nfa.eps_path(path) && path[0] == origin && path.last() == p;
            lemma_path_reach(nfa, path);
        }
    } else {
        assert(was_found(dfa.rows, j));
        let (i, b) = choose|i: usize, b: u8| found_at(dfa.rows, j, i, b);
        assert(found_at(dfa.rows, j, i, b));
        lemma_sets_sound(dfa, nfa, sets, i);
        assert(slot_follows(nfa, sets, sets[i as int], b, dfa.rows[i as int][b as int]));
        let moved = nfa.step(sets[i as int], b);
        lemma_closure_closed(nfa, moved);
        assert(exists|r: usize| moved.contains(r)) by {
            if forall|r: usize| !moved.contains(r) {
                assert(moved =~= Set::<usize>::empty());
            }
        }
        let r = choose|r: usize| moved.contains(r);
        nfa.lemma_closure_contains(moved, r);
        assert forall|p: usize| sets[j as int].contains(p) implies nfa.reachable(p) by {
            let r0 = choose|r0: usize| moved.contains(r0) && #[trigger] nfa.eps_reach(r0, p);
            let q = choose|q: usize| sets[i as int].contains(q) && #[trigger] nfa.byte_edge(q, b, r0);
            let path = choose|path: Seq<usize>| #[trigger]
                nfa.eps_path(path) && path[0] == r0 && path.last() == p;
            lemma_path_reach(nfa, path);
            assert(nfa.has_edge(q, Some(b), r0));
            lemma_reach_prepend(nfa, q, Some(b), r0, Seq::<u8>::empty(), p);
            assert(nfa.reachable(q));
            let w = choose|w: Seq<u8>| nfa.reach(nfa.start, w, q);
            lemma_reach_concat(nfa, nfa.start, w, q, seq![b] + Seq::<u8>::empty(), p);
        }
    }
}

/// The subset automaton of a trim automaton accepts some input from every
/// state.
pub proof fn lemma_subset_live(dfa: DfaModel, nfa: NfaModel, sets: Seq<Set<usize>>)
    requires
        determinizes(dfa, nfa, sets),
        nfa.trim(),
    ensures
        dfa.live(),
{
    assert forall|i: usize| i < dfa.rows.len() implies #[trigger] dfa.can_accept(i) by {
        lemma_sets_sound(dfa, nfa, sets, i);
        let p = choose|p: usize| sets[i as int].contains(p);
        assert(nfa.reachable(p));
        assert(nfa.useful(p));
        let w = choose|w: Seq<u8>| nfa.reach(p, w, nfa.accept);
        let steps = choose|steps: Seq<Step>| #[trigger]
            nfa.walk(p, steps) && end_of(p, steps) == nfa.accept && word(steps) == w;
        lemma_walk_is_run(nfa, sets[i as int], p, steps);
        lemma_determinized_from(dfa, nfa, sets, i, w);
        assert(dfa.accepts_from(i, w));
    }
}

/// In an automaton whose states are numbered as a breadth-first search finds
/// them, some input leads from the start to every state.
pub proof fn lemma_found_reached(dfa: DfaModel, j: usize)
    requires
        dfa.wf(),
        breadth_first(dfa),
        j < dfa.rows.len(),
    ensures
        dfa.reached(j),
    decreases j,
{
    if j == 0 {
        assert(dfa.state_after(dfa.start, Seq::<u8>::empty()) == Some(j));
    } else {
        assert(was_found(dfa.rows, j));
        let (i, b) = choose|i: usize, b: u8| found_at(dfa.rows, j, i, b);
        assert(found_at(dfa.rows, j, i, b));
        lemma_found_reached(dfa, i);
        let w = choose|w: Seq<u8>| dfa.state_after(dfa.start, w) == Some(i);
        dfa.lemma_after_append(dfa.start, w, seq![b]);
        let one = seq![b];
        assert(one.drop_first() =~= Seq::<u8>::empty());
        assert(dfa.state_after(j, one.drop_first()) == Some(j));
        assert(dfa.next(i, one[0]) == Some(j));
        assert(dfa.state_after(i, one) == Some(j));
    }
}

/// An automaton whose states are numbered as a breadth-first search finds
/// them is connected.
pub proof fn lemma_breadth_first_connected(dfa: DfaModel)
    requires
        dfa.wf(),
        breadth_first(dfa),
    ensures
        dfa.connected(),
{
    assert forall|j: usize| j < dfa.rows.len() implies #[trigger] dfa.reached(j) by {
        lemma_found_reached(dfa, j);
    }
}

/// The sets that the flag vectors mark.
pub open spec fn marked_all(sets: Seq<Vec<bool>>) -> Seq<Set<usize>> {
    Seq::new(sets.len(), |i: int| marked(sets[i]@))
}

/// The flag vectors as sequences.
pub open spec fn flags_all(sets: Seq<Vec<bool>>) -> Seq<Seq<bool>> {
    Seq::new(sets.len(), |i: int| sets[i]@)
}

/// Flag vectors of one length that mark the same set are equal.
pub proof fn lemma_marked_injective(a: Seq<bool>, b: Seq<bool>)
    requires
        a.len() == b.len(),
        a.len() <= usize::MAX,
        marked(a) == marked(b),
    ensures
        a == b,
{
    assert forall|i: int| 0 <= i < a.len() implies a[i] == b[i] by {
        assert(marked(a).contains(i as usize) == a[i]);
        assert(marked(b).contains(i as usize) == b[i]);
    }
    assert(a =~= b);
}

/// Whether two flag vectors are equal.
fn same_flags(a: &Vec<bool>, b: &Vec<bool>) -> (r: bool)
    ensures
        r == (a@ == b@),
{
    if a.len() != b.len() {
        return false;
    }
    let n = a.len();
    let mut i: usize = 0;
    while i < n
        invariant
            i <= n,
            n == a.len(),
            n == b.len(),
            forall|k: int| 0 <= k < i ==> a[k] == b[k],
        decreases n - i,
    {
        if a[i] != b[i] {
            return false;
        }
        i += 1;
    }
    assert(a@ =~= b@);
    true
}

/// The index of the flag vector equal to `target`, if there is one.
fn find_flags(sets: &Vec<Vec<bool>>, target: &Vec<bool>) -> (r: Option<usize>)
    ensures
        match r {
            Some(j) => j < sets.len() && sets[j as int]@ == target@,
            None => forall|j: int| 0 <= j < sets.len() ==> sets[j]@ != target@,
        },
{
    let n = sets.len();
    let mut j: usize = 0;
    while j < n
        invariant
            j <= n,
            n == sets.len(),
            forall|k: int| 0 <= k < j ==> sets[k]@ != target@,
        decreases n - j,
    {
        if same_flags(&sets[j], target) {
            return Some(j);
        }
        j += 1;
    }
    None
}

/// Where the search stands: the slots of the states below `idx` and the
/// slots for the bytes below `b` of state `idx` are filled.
pub open spec fn filled(i: usize, c: u8, idx: usize, b: int) -> bool {
    i < idx || (i == idx && c < b)
}

/// The facts that hold of the table and the sets while the slot for byte `b`
/// of state `idx` is the next to fill; `found` names for each state but the
/// first the slot at which it was found.
pub open spec fn searching(
    nfa: NfaModel,
    sets: Seq<Set<usize>>,
    table: Seq<Seq<Option<usize>>>,
    found: Seq<(usize, u8)>,
    idx: usize,
    b: int,
) -> bool {
    &&& found.len() == sets.len()
    &&& idx < sets.len()
    &&& table.len() == idx + 1
    &&& forall|i: int| 0 <= i <= idx ==> (#[trigger] table[i]).len() == 256
    &&& forall|i: usize, c: u8|
        i <= idx ==> (if filled(i, c, idx, b) {
            slot_follows(nfa, sets, sets[i as int], c, #[trigger] table[i as int][c as int])
        } else {
            table[i as int][c as int] is None
        })
    &&& forall|j: usize|
        0 < j < sets.len() ==> filled((#[trigger] found[j as int]).0, found[j as int].1, idx, b)
            && found_at(table, j, found[j as int].0, found[j as int].1)
}

/// Filling the next slot with nothing keeps the search in order.
proof fn lemma_search_skip(
    nfa: NfaModel,
    sets: Seq<Set<usize>>,
    table: Seq<Seq<Option<usize>>>,
    found: Seq<(usize, u8)>,
    idx: usize,
    b: int,
)
    requires
        0 <= b < 256,
        searching(nfa, sets, table, found, idx, b),
        nfa.step(sets[idx as int], b as u8) == Set::<usize>::empty(),
    ensures
        searching(nfa, sets, table, found, idx, b + 1),
{
    assert forall|i: usize, c: u8| i <= idx implies (if filled(i, c, idx, b + 1) {
        slot_follows(nfa, sets, sets[i as int], c, #[trigger] table[i as int][c as int])
    } else {
        table[i as int][c as int] is None
    }) by {
        if filled(i, c, idx, b + 1) && !filled(i, c, idx, b) {
            assert(i == idx && c == b);
        }
    }
    assert forall|j: usize| 0 < j < sets.len() implies filled(
        (#[trigger] found[j as int]).0,
        found[j as int].1,
        idx,
        b + 1,
    ) && found_at(table, j, found[j as int].0, found[j as int].1) by {
        assert(filled(found[j as int].0, found[j as int].1, idx, b));
    }
}

/// Filling the next slot with a state keeps the search in order, whether the
/// state was known or is new.
proof fn lemma_search_fill(
    nfa: NfaModel,
    sets: Seq<Set<usize>>,
    table: Seq<Seq<Option<usize>>>,
    found: Seq<(usize, u8)>,
    idx: usize,
    b: int,
    grown: Seq<Set<usize>>,
    j: usize,
)
    requires
        0 <= b < 256,
        searching(nfa, sets, table, found, idx, b),
        nfa.step(sets[idx as int], b as u8) != Set::<usize>::empty(),
        grown == sets || (j == sets.len() && grown == sets.push(
            nfa.closure(nfa.step(sets[idx as int], b as u8)),
        )),
        j < grown.len(),
        grown[j as int] == nfa.closure(nfa.step(sets[idx as int], b as u8)),
    ensures
        searching(
            nfa,
            grown,
            table.update(idx as int, table[idx as int].update(b, Some(j))),
            if grown == sets {
                found
            } else {
                found.push((idx, b as u8))
            },
            idx,
            b + 1,
        ),
{
    let after = table.update(idx as int, table[idx as int].update(b, Some(j)));
    let names = if grown == sets {
        found
    } else {
        found.push((idx, b as u8))
    };
    assert forall|i: usize, c: u8| i <= idx implies (if filled(i, c, idx, b + 1) {
        slot_follows(nfa, grown, grown[i as int], c, #[trigger] after[i as int][c as int])
    } else {
        after[i as int][c as int] is None
    }) by {
        if i == idx && c == b {
        } else {
            assert(after[i as int][c as int] == table[i as int][c as int]);
            if filled(i, c, idx, b) {
                assert(slot_follows(nfa, sets, sets[i as int], c, table[i as int][c as int]));
            }
        }
    }
    assert forall|k: usize| 0 < k < grown.len() implies filled(
        (#[trigger] names[k as int]).0,
        names[k as int].1,
        idx,
        b + 1,
    ) && found_at(after, k, names[k as int].0, names[k as int].1) by {
        if k < sets.len() {
            let (i, c) = found[k as int];
            assert(names[k as int] == found[k as int]);
            assert(filled(i, c, idx, b));
            assert(found_at(table, k, i, c));
            assert(after[i as int][c as int] == table[i as int][c as int]);
            assert forall|o: usize, e: u8| #[trigger] earlier(o, e, i, c)
                implies match after[o as int][e as int] {
                Some(t) => t < k,
                None => true,
            } by {
                assert(after[o as int][e as int] == table[o as int][e as int]);
            }
        } else {
            assert(names[k as int] == (idx, b as u8));
            assert forall|o: usize, e: u8| #[trigger] earlier(o, e, idx, b as u8)
                implies match after[o as int][e as int] {
                Some(t) => t < k,
                None => true,
            } by {
                assert(after[o as int][e as int] == table[o as int][e as int]);
                assert(filled(o, e, idx, b));
                assert(slot_follows(nfa, sets, sets[o as int], e, table[o as int][e as int]));
            }
        }
    }
}

/// When all slots of a state are filled, the search goes on with the first
/// slot of the next state, if there is one.
proof fn lemma_search_next(
    nfa: NfaModel,
    sets: Seq<Set<usize>>,
    table: Seq<Seq<Option<usize>>>,
    found: Seq<(usize, u8)>,
    idx: usize,
)
    requires
        searching(nfa, sets, table, found, idx, 256),
        idx + 1 < sets.len(),
        idx < usize::MAX,
    ensures
        searching(nfa, sets, table.push(Seq::new(256, |c: int| None::<usize>)), found,
            (idx + 1) as usize, 0),
{
    let after = table.push(Seq::new(256, |c: int| None::<usize>));
    let next = (idx + 1) as usize;
    assert forall|i: usize, c: u8| i <= next implies (if filled(i, c, next, 0) {
        slot_follows(nfa, sets, sets[i as int], c, #[trigger] after[i as int][c as int])
    } else {
        after[i as int][c as int] is None
    }) by {
        if i <= idx {
            assert(after[i as int] == table[i as int]);
            assert(filled(i, c, idx, 256));
        }
    }
    assert forall|j: usize| 0 < j < sets.len() implies filled(
        (#[trigger] found[j as int]).0,
        found[j as int].1,
        next,
        0,
    ) && found_at(after, j, found[j as int].0, found[j as int].1) by {
        let (i, c) = found[j as int];
        assert(filled(i, c, idx, 256));
        assert(found_at(table, j, i, c));
        assert(after[i as int] == table[i as int]);
        assert forall|o: usize, e: u8| #[trigger] earlier(o, e, i, c)
            implies match after[o as int][e as int] {
            Some(t) => t < j,
            None => true,
        } by {
            assert(after[o as int] == table[o as int]);
        }
    }
}

impl NFA {
    /// The deterministic automaton of the subset construction. Its states
    /// stand for the sets of states that this automaton can be in; they are
    /// found breadth first from the closure of the start state, one byte
    /// value after the other, and numbered as they are found.
    pub fn to_dfa(&self) -> (dfa: DFA)
        requires
            self@.wf(),
        ensures
            dfa@.wf(),
            forall|w: Seq<u8>| dfa@.accepts(w) == self@.accepts(w),
            exists|sets: Seq<Set<usize>>| determinizes(dfa@, self@, sets),
            dfa@.connected(),
            self@.trim() ==> dfa@.live(),
    {
        let n = self.states.len();
        let ghost m = self@;
        let mut seeds = no_flags(n);
        seeds[self.start] = true;
        assert(marked(seeds@) =~= set![self.start]);
        let first = self.epsilon_closure(&seeds);
        let mut sets: Vec<Vec<bool>> = Vec::new();
        sets.push(first);
        let mut rows: Vec<[Option<usize>; 256]> = Vec::new();
        let mut accepting: StateSet = with_capacity(0);
        let ghost mut found: Seq<(usize, u8)> = seq![(0usize, 0u8)];
        let mut idx: usize = 0;
        rows.push([None;256]);
        proof {
            assert(tables(rows@)[0] =~= Seq::new(256, |c: int| None::<usize>));
            assert(searching(m, marked_all(sets@), tables(rows@), found, 0, 0));
        }
        loop
            invariant_except_break
                searching(m, marked_all(sets@), tables(rows@), found, idx, 0),
                forall|s: usize| accepting@.contains(s) ==> s < idx,
                forall|i: int|
                    0 <= i < idx
                        ==> (accepting@.contains(i as usize) <==> (#[trigger] sets[i])[m.accept as int]),
            invariant
                n == self.states.len(),
                m == self@,
                m.wf(),
                idx < sets.len(),
                rows.len() == idx + 1,
                marked(sets[0]@) == m.closure(set![m.start]),
                forall|i: int| 0 <= i < sets.len() ==> (#[trigger] sets[i]).len() == n,
                forall|i: int, j: int| 0 <= i < j < sets.len() ==> sets[i]@ != sets[j]@,
            ensures
                idx + 1 == sets.len(),
                rows.len() == sets.len(),
                marked(sets[0]@) == m.closure(set![m.start]),
                forall|i: int| 0 <= i < sets.len() ==> (#[trigger] sets[i]).len() == n,
                forall|i: int, j: int| 0 <= i < j < sets.len() ==> sets[i]@ != sets[j]@,
                searching(m, marked_all(sets@), tables(rows@), found, idx, 256),
                forall|s: usize| accepting@.contains(s) ==> s < sets.len(),
                forall|i: int|
                    0 <= i < sets.len() ==> (accepting@.contains(i as usize) <==> (
                    #[trigger] sets[i])[m.accept as int]),
            decreases subsets_of(n as nat) - idx,
        {
            proof {
                lemma_distinct_flags(flags_all(sets@), n as nat);
            }
            let ghost before = sets@;
            let mut b: usize = 0;
            while b < 256
                invariant
                    b <= 256,
                    n == self.states.len(),
                    m == self@,
                    m.wf(),
                    idx < before.len(),
                    rows.len() == idx + 1,
                    before.len() <= sets.len(),
                    forall|i: int| 0 <= i < before.len() ==> sets[i] == before[i],
                    forall|i: int| 0 <= i < sets.len() ==> (#[trigger] sets[i]).len() == n,
                    forall|i: int, j: int| 0 <= i < j < sets.len() ==> sets[i]@ != sets[j]@,
                    searching(m, marked_all(sets@), tables(rows@), found, idx, b as int),
                decreases 256 - b,
            {
                let byte = b as u8;
                let moved = self.move_on(&sets[idx], byte);
                let ghost known = marked_all(sets@);
                let ghost table = tables(rows@);
                assert(known[idx as int] == marked(sets[idx as int]@));
                if !none_marked(&moved) {
                    let next = self.epsilon_closure(&moved);
                    let j = match find_flags(&sets, &next) {
                        Some(j) => j,
                        None => {
                            proof {
                                found = found.push((idx, byte));
                            }
                            sets.push(next);
                            sets.len() - 1
                        },
                    };
                    rows[idx][b] = Some(j);
                    proof {
                        let grown = marked_all(sets@);
                        assert(grown[j as int] == marked(sets[j as int]@));
                        if sets.len() == known.len() {
                            assert(grown =~= known);
                        } else {
                            assert(grown =~= known.push(m.closure(m.step(known[idx as int], byte))));
                        }
                        assert(tables(rows@) =~~= table.update(
                            idx as int,
                            table[idx as int].update(b as int, Some(j)),
                        ));
                        if grown == known {
                            lemma_search_fill(m, known, table, found, idx, b as int, grown, j);
                        } else {
                            lemma_search_fill(
                                m,
                                known,
                                table,
                                found.drop_last(),
                                idx,
                                b as int,
                                grown,
                                j,
                            );
                            assert(found.drop_last().push((idx, byte)) =~= found);
                        }
                    }
                } else {
                    proof {
                        lemma_search_skip(m, known, table, found, idx, b as int);
                    }
                }
                b += 1;
            }
            let ghost acc_before = accepting@;
            if sets[idx][self.accept] {
                insert(&mut accepting, idx);
                assert(accepting@ == acc_before.insert(idx));
            }
            assert forall|i: int| 0 <= i < idx + 1 implies (accepting@.contains(i as usize) <==> (
            #[trigger] sets[i])[m.accept as int]) by {
                assert(sets[i] == before[i]);
            }
            if idx + 1 == sets.len() {
                break ;
            }
            proof {
                lemma_search_next(m, marked_all(sets@), tables(rows@), found, idx);
            }
            idx += 1;
            let ghost table = tables(rows@);
            rows.push([None;256]);
            proof {
                assert(tables(rows@) =~~= table.push(Seq::new(256, |c: int| None::<usize>)));
            }
        }
        let dfa = DFA { states: rows, start: 0, accepting };
        proof {
            let all = marked_all(sets@);
            let table = dfa@.rows;
            assert(table == tables(rows@));
            assert forall|i: usize, b: u8| i < all.len() implies slot_follows(
                m,
                all,
                all[i as int],
                b,
                #[trigger] table[i as int][b as int],
            ) by {
                assert(filled(i, b, idx, 256));
            }
            assert(dfa@.wf()) by {
                assert forall|s: int, b: int|
                    0 <= s < table.len() && 0 <= b < 256 implies match #[trigger] table[s][b] {
                    Some(t) => t < table.len(),
                    None => true,
                } by {
                    assert(slot_follows(m, all, all[s], b as u8,
                        table[s as usize as int][b as u8 as int]));
                }
            }
            assert forall|j: usize| 0 < j < table.len() implies #[trigger] was_found(table, j) by {
                assert(found_at(table, j, found[j as int].0, found[j as int].1));
            }
            assert forall|i: int, j: int| 0 <= i < j < all.len() implies all[i] != all[j] by {
                if all[i] == all[j] {
                    lemma_marked_injective(sets[i]@, sets[j]@);
                }
            }
            assert forall|i: usize| i < all.len() implies (dfa@.accepting.contains(i) <==> (
            #[trigger] all[i as int]).contains(m.accept)) by {
                assert(sets[i as int].len() == n);
            }
            assert(determinizes(dfa@, m, all));
            assert forall|w: Seq<u8>| dfa@.accepts(w) == m.accepts(w) by {
                lemma_determinized(dfa@, m, all, w);
            }
            lemma_breadth_first_connected(dfa@);
            if m.trim() {
                lemma_subset_live(dfa@, m, all);
            }
        }
        dfa
    }
}

} // verus!
