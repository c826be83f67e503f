use crate::nfa::{shift_edge, NfaModel};
use crate::walk::{end_of, lemma_reach_prepend, lemma_reach_self, takes, word, Step};
use vstd::prelude::*;

verus! {

// When automata are put together, the states of a part `a` appear in the
// whole `c` moved up by some `k`. The lemmas here carry walks from the part
// to the whole and back.
/// The state `s` of the whole is a state of the part.
pub open spec fn within(a: NfaModel, k: int, s: usize) -> bool {
    k <= s < k + a.states.len()
}

/// The whole holds the part moved up by `k`: the edges of each state of the
/// part, moved up, are the first edges of its state in the whole.
pub open spec fn hosts(c: NfaModel, a: NfaModel, k: int) -> bool {
    &&& 0 <= k
    &&& k + a.states.len() <= c.states.len() <= usize::MAX
    &&& forall|p: int, j: int|
        0 <= p < a.states.len() && 0 <= j < a.states[p].len() ==> j < c.states[p + k].len()
            && c.states[p + k][j] == shift_edge(#[trigger] a.states[p][j], k)
}

/// Every edge of the whole that leaves a state of the part is an edge of the
/// part, or it reads nothing and leads from the accepting state of the part
/// to one of `exits`.
pub open spec fn confined(c: NfaModel, a: NfaModel, k: int, exits: Set<usize>) -> bool {
    forall|s: usize, read: Option<u8>, t: usize|
        within(a, k, s) && #[trigger] c.has_edge(s, read, t) ==> (within(a, k, t) && a.has_edge(
            (s - k) as usize,
            read,
            (t - k) as usize,
        )) || (s == a.accept + k && read is None && exits.contains(t))
}

/// An edge of the part is an edge of the whole.
pub proof fn lemma_edge_up(
    c: NfaModel,
    a: NfaModel,
    k: int,
    p: usize,
    read: Option<u8>,
    q: usize,
)
    requires
        a.wf(),
        hosts(c, a, k),
        a.has_edge(p, read, q),
    ensures
        c.has_edge((p + k) as usize, read, (q + k) as usize),
{
    let j = choose|j: int|
        0 <= j < a.states[p as int].len() && (#[trigger] a.states[p as int][j]).to == q && takes(
            a.states[p as int][j].label,
            read,
        );
    assert(c.states[p + k][j] == shift_edge(a.states[p as int][j], k));
    assert(c.states[(p + k) as usize as int][j].to == (q + k) as usize);
}

/// The steps with every target moved up by `k`.
pub open spec fn lift(steps: Seq<Step>, k: int) -> Seq<Step> {
    Seq::new(steps.len(), |i: int| Step { read: steps[i].read, to: (steps[i].to + k) as usize })
}

/// A walk in the part is a walk in the whole.
pub proof fn lemma_walk_up(c: NfaModel, a: NfaModel, k: int, p: usize, steps: Seq<Step>)
    requires
        a.wf(),
        hosts(c, a, k),
        p < a.states.len(),
        a.walk(p, steps),
    ensures
        c.walk((p + k) as usize, lift(steps, k)),
        end_of((p + k) as usize, lift(steps, k)) == end_of(p, steps) + k,
        end_of(p, steps) < a.states.len(),
        word(lift(steps, k)) == word(steps),
    decreases steps.len(),
{
    if steps.len() > 0 {
        let r = steps[0].to;
        let j = choose|j: int|
            0 <= j < a.states[p as int].len() && (#[trigger] a.states[p as int][j]).to == r && takes(
                a.states[p as int][j].label,
                steps[0].read,
            );
        assert(r < a.states.len());
        lemma_edge_up(c, a, k, p, steps[0].read, r);
        lemma_walk_up(c, a, k, r, steps.drop_first());
        assert(lift(steps, k).drop_first() =~= lift(steps.drop_first(), k));
        assert(end_of(r, steps.drop_first()) == end_of(p, steps));
    } else {
        assert(word(lift(steps, k)) =~= word(steps));
    }
}

/// What the part reaches, the whole reaches.
pub proof fn lemma_reach_up(
    c: NfaModel,
    a: NfaModel,
    k: int,
    p: usize,
    w: Seq<u8>,
    q: usize,
)
    requires
        a.wf(),
        hosts(c, a, k),
        p < a.states.len(),
        a.reach(p, w, q),
    ensures
        c.reach((p + k) as usize, w, (q + k) as usize),
{
    let steps = choose|steps: Seq<Step>| #[trigger]
        a.walk(p, steps) && end_of(p, steps) == q && word(steps) == w;
    lemma_walk_up(c, a, k, p, steps);
    assert(c.walk((p + k) as usize, lift(steps, k)));
}

/// The first steps of a walk are a walk, the others are a walk from where
/// the first end, and the walk reads what both read.
pub proof fn lemma_walk_split(m: NfaModel, p: usize, steps: Seq<Step>, i: int)
    requires
        m.walk(p, steps),
        0 <= i <= steps.len(),
    ensures
        m.walk(p, steps.take(i)),
        m.walk(end_of(p, steps.take(i)), steps.skip(i)),
        end_of(end_of(p, steps.take(i)), steps.skip(i)) == end_of(p, steps),
        word(steps) == word(steps.take(i)) + word(steps.skip(i)),
    decreases i,
{
    if i == 0 {
        assert(steps.skip(0) =~= steps);
        assert(word(steps.take(0)) + word(steps) =~= word(steps));
    } else {
        let rest = steps.drop_first();
        lemma_walk_split(m, steps[0].to, rest, i - 1);
        assert(steps.take(i).drop_first() =~= rest.take(i - 1));
        assert(steps.skip(i) =~= rest.skip(i - 1));
        assert(end_of(steps[0].to, rest.take(i - 1)) == end_of(p, steps.take(i)));
        assert(end_of(steps[0].to, rest) == end_of(p, steps));
        match steps[0].read {
            Some(b) => {
                assert(word(steps) =~= seq![b] + (word(rest.take(i - 1)) + word(rest.skip(i - 1))));
                assert(word(steps.take(i)) + word(steps.skip(i)) =~= seq![b] + (word(
                    rest.take(i - 1),
                ) + word(rest.skip(i - 1))));
            },
            None => {},
        }
    }
}

/// A walk that starts in a state without edges has no steps.
pub proof fn lemma_stuck(m: NfaModel, p: usize, steps: Seq<Step>)
    requires
        m.walk(p, steps),
        p < m.states.len() ==> m.states[p as int].len() == 0,
    ensures
        steps.len() == 0,
{
}

/// Follows a walk of the whole that starts in the part up to the first step
/// that is not an edge of the part. The result is the number of steps before
/// it, or the number of all steps if there is none.
pub proof fn lemma_leave(
    c: NfaModel,
    a: NfaModel,
    k: int,
    exits: Set<usize>,
    s: usize,
    steps: Seq<Step>,
) -> (i: int)
    requires
        confined(c, a, k, exits),
        within(a, k, s),
        c.walk(s, steps),
    ensures
        0 <= i <= steps.len(),
        i == steps.len() ==> within(a, k, end_of(s, steps)) && a.reach(
            (s - k) as usize,
            word(steps),
            (end_of(s, steps) - k) as usize,
        ),
        i < steps.len() ==> a.reach((s - k) as usize, word(steps.take(i)), a.accept)
            && steps[i].read is None && exits.contains(steps[i].to) && end_of(s, steps.take(i))
            == a.accept + k,
    decreases steps.len(),
{
    if steps.len() == 0 {
        lemma_reach_self(a, (s - k) as usize);
        assert(word(steps) =~= Seq::<u8>::empty());
        0
    } else {
        let t = steps[0].to;
        let read = steps[0].read;
        let rest = steps.drop_first();
        assert(c.has_edge(s, read, t));
        if within(a, k, t) && a.has_edge((s - k) as usize, read, (t - k) as usize) {
            let i = lemma_leave(c, a, k, exits, t, rest);
            assert(end_of(t, rest) == end_of(s, steps));
            if i == rest.len() {
                lemma_reach_prepend(
                    a,
                    (s - k) as usize,
                    read,
                    (t - k) as usize,
                    word(rest),
                    (end_of(t, rest) - k) as usize,
                );
            } else {
                lemma_reach_prepend(
                    a,
                    (s - k) as usize,
                    read,
                    (t - k) as usize,
                    word(rest.take(i)),
                    a.accept,
                );
                assert(steps.take(i + 1).drop_first() =~= rest.take(i));
                assert(steps.take(i + 1)[0] == steps[0]);
                assert(end_of(s, steps.take(i + 1)) == end_of(t, rest.take(i)));
            }
            i + 1
        } else {
            lemma_reach_self(a, a.accept);
            assert(word(steps.take(0)) =~= Seq::<u8>::empty());
            0
        }
    }
}

} // verus!
