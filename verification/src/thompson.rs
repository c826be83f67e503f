use crate::ast::{joined, repeated, star_of, Regex};
use crate::nfa::{
    alt_model, concat_model, eps, lemma_alt_closed, lemma_concat_closed, literal_model,
    optional_model, shift_edge, shift_rows, star_model, thompson, with_edge, Edge,
    NfaModel, Transition,
};
use crate::simulate::reads;
use crate::splice::{
    confined, hosts, lemma_leave, lemma_reach_up, lemma_stuck, lemma_walk_split, within,
};
use crate::walk::{
    end_of, lemma_accepts_is_language, lemma_reach_concat, lemma_reach_edge, lemma_reach_prepend,
    lemma_reach_self, takes, word, Step,
};
use vstd::prelude::*;

verus! {

/// The words of an automaton, as a predicate.
pub open spec fn words(a: NfaModel) -> spec_fn(Seq<u8>) -> bool {
    |u: Seq<u8>| a.language(u)
}

/// An edge that reads nothing leads to `to`.
proof fn lemma_eps_edge(c: NfaModel, s: usize, j: int, to: int)
    requires
        s < c.states.len(),
        0 <= j < c.states[s as int].len(),
        0 <= to <= usize::MAX,
        c.states[s as int][j] == eps(to),
    ensures
        c.has_edge(s, None, to as usize),
{
    assert(c.states[s as int][j].to == to as usize);
    assert(takes(c.states[s as int][j].label, None));
}

/// The parts of a concatenation sit in it, and the only way from the first
/// to the second is the edge between them.
proof fn lemma_concat_parts(a: NfaModel, b: NfaModel)
    requires
        a.wf(),
        b.wf(),
        a.states.len() + b.states.len() <= usize::MAX,
    ensures
        hosts(concat_model(a, b), a, 0),
        hosts(concat_model(a, b), b, a.states.len() as int),
        confined(concat_model(a, b), a, 0, set![(b.start + a.states.len()) as usize]),
        confined(concat_model(a, b), b, a.states.len() as int, Set::<usize>::empty()),
        concat_model(a, b).has_edge(a.accept, None, (b.start + a.states.len()) as usize),
{
    let c = concat_model(a, b);
    let n = a.states.len() as int;
    let bridge = (b.start + n) as usize;
    assert forall|p: int, j: int| 0 <= p < a.states.len() && 0 <= j < a.states[p].len() implies j
        < c.states[p + 0].len() && c.states[p + 0][j] == shift_edge(
        #[trigger] a.states[p][j],
        0,
    ) by {}
    assert forall|p: int, j: int| 0 <= p < b.states.len() && 0 <= j < b.states[p].len() implies j
        < c.states[p + n].len() && c.states[p + n][j] == shift_edge(
        #[trigger] b.states[p][j],
        n,
    ) by {}
    assert forall|s: usize, read: Option<u8>, t: usize|
        within(a, 0, s) && #[trigger] c.has_edge(s, read, t) implies (within(a, 0, t) && a.has_edge(
        (s - 0) as usize,
        read,
        (t - 0) as usize,
    )) || (s == a.accept + 0 && read is None && set![bridge].contains(t)) by {
        let j = choose|j: int|
            0 <= j < c.states[s as int].len() && (#[trigger] c.states[s as int][j]).to == t && takes(
                c.states[s as int][j].label,
                read,
            );
        if j < a.states[s as int].len() {
            assert(c.states[s as int][j] == a.states[s as int][j]);
        } else {
            assert(c.states[s as int][j] == eps(b.start + n));
        }
    }
    assert forall|s: usize, read: Option<u8>, t: usize|
        within(b, n, s) && #[trigger] c.has_edge(s, read, t) implies (within(b, n, t) && b.has_edge(
        (s - n) as usize,
        read,
        (t - n) as usize,
    )) || (s == b.accept + n && read is None && Set::<usize>::empty().contains(t)) by {
        let j = choose|j: int|
            0 <= j < c.states[s as int].len() && (#[trigger] c.states[s as int][j]).to == t && takes(
                c.states[s as int][j].label,
                read,
            );
        assert(c.states[s as int][j] == shift_edge(b.states[s - n][j], n));
        assert(b.states[s - n][j].to == (t - n) as usize);
    }
    lemma_eps_edge(c, a.accept, a.states[a.accept as int].len() as int, b.start + n);
}

/// A concatenation reads a word of the first part followed by a word of the
/// second.
pub proof fn lemma_concat_language(a: NfaModel, b: NfaModel, w: Seq<u8>)
    requires
        a.wf(),
        b.wf(),
        a.states.len() + b.states.len() <= usize::MAX,
    ensures
        concat_model(a, b).language(w) == joined(words(a), words(b), w),
{
    let c = concat_model(a, b);
    let n = a.states.len() as int;
    let bridge = (b.start + n) as usize;
    lemma_concat_parts(a, b);
    if joined(words(a), words(b), w) {
        let k = choose|k: int|
            0 <= k <= w.len() && #[trigger] words(a)(w.take(k)) && words(b)(w.skip(k));
        lemma_reach_up(c, a, 0, a.start, w.take(k), a.accept);
        lemma_reach_up(c, b, n, b.start, w.skip(k), b.accept);
        lemma_reach_prepend(c, a.accept, None, bridge, w.skip(k), c.accept);
        lemma_reach_concat(c, a.start, w.take(k), a.accept, w.skip(k), c.accept);
        assert(w.take(k) + w.skip(k) =~= w);
    }
    if c.language(w) {
        let steps = choose|steps: Seq<Step>| #[trigger]
            c.walk(c.start, steps) && end_of(c.start, steps) == c.accept && word(steps) == w;
        let i = lemma_leave(c, a, 0, set![bridge], a.start, steps);
        lemma_walk_split(c, a.start, steps, i);
        lemma_walk_split(c, a.start, steps, i + 1);
        let rest = steps.skip(i + 1);
        assert(steps.take(i + 1).drop_last() =~= steps.take(i));
        assert(end_of(a.start, steps.take(i + 1)) == bridge);
        let i2 = lemma_leave(c, b, n, Set::<usize>::empty(), bridge, rest);
        lemma_walk_split(c, end_of(a.start, steps.take(i)), steps.skip(i), 1);
        assert(steps.skip(i).skip(1) =~= rest);
        assert(word(steps.skip(i).take(1)) =~= Seq::<u8>::empty()) by {
            let one = steps.skip(i).take(1);
            assert(one[0].read is None);
            assert(word(one.drop_first()) =~= Seq::<u8>::empty());
        }
        let u = word(steps.take(i));
        let v = word(rest);
        assert(w =~= u + v);
        assert(w.take(u.len() as int) =~= u);
        assert(w.skip(u.len() as int) =~= v);
        assert(words(a)(w.take(u.len() as int)));
    }
}

/// A walk that reads nothing in its first step reads what the other steps
/// read.
proof fn lemma_silent_first(steps: Seq<Step>)
    requires
        steps.len() > 0,
        steps[0].read is None,
    ensures
        word(steps) == word(steps.drop_first()),
{
}

/// Where a walk stands after it left a part through the step `i`.
proof fn lemma_after_exit(c: NfaModel, s: usize, steps: Seq<Step>, i: int)
    requires
        c.walk(s, steps),
        0 <= i < steps.len(),
        steps[i].read is None,
    ensures
        c.walk(steps[i].to, steps.skip(i + 1)),
        end_of(steps[i].to, steps.skip(i + 1)) == end_of(s, steps),
        word(steps) == word(steps.take(i)) + word(steps.skip(i + 1)),
{
    lemma_walk_split(c, s, steps, i);
    lemma_walk_split(c, s, steps, i + 1);
    assert(steps.take(i + 1).last() == steps[i]);
    let tail = steps.skip(i);
    assert(tail[0] == steps[i]);
    assert(tail.drop_first() =~= steps.skip(i + 1));
    lemma_silent_first(tail);
}

/// The parts of an alternation sit in it; each is left only through the edge
/// to the new accepting state, and the new start leads into both.
proof fn lemma_alt_parts(a: NfaModel, b: NfaModel)
    requires
        a.wf(),
        b.wf(),
        a.states.len() + b.states.len() + 2 <= usize::MAX,
    ensures
        hosts(alt_model(a, b), a, 1),
        hosts(alt_model(a, b), b, 1 + a.states.len() as int),
        confined(alt_model(a, b), a, 1, set![alt_model(a, b).accept]),
        confined(alt_model(a, b), b, 1 + a.states.len() as int, set![alt_model(a, b).accept]),
        alt_model(a, b).has_edge(0, None, (a.start + 1) as usize),
        alt_model(a, b).has_edge(0, None, (b.start + 1 + a.states.len()) as usize),
        alt_model(a, b).has_edge((a.accept + 1) as usize, None, alt_model(a, b).accept),
        alt_model(a, b).has_edge(
            (b.accept + 1 + a.states.len()) as usize,
            None,
            alt_model(a, b).accept,
        ),
        forall|read: Option<u8>, t: usize| #[trigger]
            alt_model(a, b).has_edge(0, read, t) ==> read is None && (t == a.start + 1 || t
                == b.start + 1 + a.states.len()),
        alt_model(a, b).states[alt_model(a, b).accept as int].len() == 0,
        alt_model(a, b).states.len() == a.states.len() + b.states.len() + 2,
{
    let c = alt_model(a, b);
    let na = a.states.len() as int;
    let nb = b.states.len() as int;
    let last = 1 + na + nb;
    let ka = 1;
    let kb = 1 + na;
    assert forall|p: int, j: int| 0 <= p < na && 0 <= j < a.states[p].len() implies j
        < c.states[p + ka].len() && c.states[p + ka][j] == shift_edge(
        #[trigger] a.states[p][j],
        ka,
    ) by {
        assert(c.states[p + ka] == with_edge(shift_rows(a.states, 1), a.accept as int, eps(last))[p]);
    }
    assert forall|p: int, j: int| 0 <= p < nb && 0 <= j < b.states[p].len() implies j
        < c.states[p + kb].len() && c.states[p + kb][j] == shift_edge(
        #[trigger] b.states[p][j],
        kb,
    ) by {
        assert(c.states[p + kb] == with_edge(
            shift_rows(b.states, 1 + na),
            b.accept as int,
            eps(last),
        )[p]);
    }
    assert forall|s: usize, read: Option<u8>, t: usize|
        within(a, ka, s) && #[trigger] c.has_edge(s, read, t) implies (within(a, ka, t)
        && a.has_edge((s - ka) as usize, read, (t - ka) as usize)) || (s == a.accept + ka
        && read is None && set![c.accept].contains(t)) by {
        let j = choose|j: int|
            0 <= j < c.states[s as int].len() && (#[trigger] c.states[s as int][j]).to == t && takes(
                c.states[s as int][j].label,
                read,
            );
        let p = s - ka;
        assert(c.states[s as int] == with_edge(shift_rows(a.states, 1), a.accept as int, eps(last))[p]);
        if j < a.states[p].len() {
            assert(c.states[s as int][j] == shift_edge(a.states[p][j], ka));
            assert(a.states[p][j].to == (t - ka) as usize);
        } else {
            assert(c.states[s as int][j] == eps(last));
        }
    }
    assert forall|s: usize, read: Option<u8>, t: usize|
        within(b, kb, s) && #[trigger] c.has_edge(s, read, t) implies (within(b, kb, t)
        && b.has_edge((s - kb) as usize, read, (t - kb) as usize)) || (s == b.accept + kb
        && read is None && set![c.accept].contains(t)) by {
        let j = choose|j: int|
            0 <= j < c.states[s as int].len() && (#[trigger] c.states[s as int][j]).to == t && takes(
                c.states[s as int][j].label,
                read,
            );
        let p = s - kb;
        assert(c.states[s as int] == with_edge(
            shift_rows(b.states, 1 + na),
            b.accept as int,
            eps(last),
        )[p]);
        if j < b.states[p].len() {
            assert(c.states[s as int][j] == shift_edge(b.states[p][j], kb));
            assert(b.states[p][j].to == (t - kb) as usize);
        } else {
            assert(c.states[s as int][j] == eps(last));
        }
    }
    assert(c.states[0] == seq![eps(a.start + 1), eps(b.start + 1 + na)]);
    lemma_eps_edge(c, 0, 0, a.start + 1);
    lemma_eps_edge(c, 0, 1, b.start + 1 + na);
    assert(c.states[a.accept + ka] == with_edge(
        shift_rows(a.states, 1),
        a.accept as int,
        eps(last),
    )[a.accept as int]);
    lemma_eps_edge(c, (a.accept + ka) as usize, a.states[a.accept as int].len() as int, last);
    assert(c.states[b.accept + kb] == with_edge(
        shift_rows(b.states, 1 + na),
        b.accept as int,
        eps(last),
    )[b.accept as int]);
    lemma_eps_edge(c, (b.accept + kb) as usize, b.states[b.accept as int].len() as int, last);
    assert forall|read: Option<u8>, t: usize| #[trigger] c.has_edge(0, read, t) implies read is None
        && (t == a.start + 1 || t == b.start + 1 + na) by {
        let j = choose|j: int|
            0 <= j < c.states[0].len() && (#[trigger] c.states[0][j]).to == t && takes(
                c.states[0][j].label,
                read,
            );
        if j == 0 {
            assert(c.states[0][j] == eps(a.start + 1));
        } else {
            assert(c.states[0][j] == eps(b.start + 1 + na));
        }
    }
    assert(c.states[last] == Seq::<Edge>::empty());
}

/// A walk of the whole from the start of a part to a state outside it that
/// has no edges, where the part is left only to that state, reads a word of
/// the part.
proof fn lemma_through(c: NfaModel, a: NfaModel, k: int, out: usize, steps: Seq<Step>)
    requires
        confined(c, a, k, set![out]),
        a.start < a.states.len(),
        !within(a, k, out),
        out < c.states.len() ==> c.states[out as int].len() == 0,
        c.walk((a.start + k) as usize, steps),
        end_of((a.start + k) as usize, steps) == out,
        k + a.states.len() <= usize::MAX,
        0 <= k,
    ensures
        a.language(word(steps)),
{
    let s = (a.start + k) as usize;
    let i = lemma_leave(c, a, k, set![out], s, steps);
    lemma_after_exit(c, s, steps, i);
    lemma_stuck(c, out, steps.skip(i + 1));
    assert(word(steps.skip(i + 1)) =~= Seq::<u8>::empty());
    assert(word(steps) =~= word(steps.take(i)));
}

/// An alternation reads the words of its parts.
pub proof fn lemma_alt_language(a: NfaModel, b: NfaModel, w: Seq<u8>)
    requires
        a.wf(),
        b.wf(),
        a.states.len() + b.states.len() + 2 <= usize::MAX,
    ensures
        alt_model(a, b).language(w) == (a.language(w) || b.language(w)),
{
    let c = alt_model(a, b);
    let na = a.states.len() as int;
    lemma_alt_parts(a, b);
    if a.language(w) {
        lemma_reach_up(c, a, 1, a.start, w, a.accept);
        lemma_reach_edge(c, (a.accept + 1) as usize, None, c.accept);
        lemma_reach_concat(
            c,
            (a.start + 1) as usize,
            w,
            (a.accept + 1) as usize,
            Seq::<u8>::empty(),
            c.accept,
        );
        assert(w + Seq::<u8>::empty() =~= w);
        lemma_reach_prepend(c, 0, None, (a.start + 1) as usize, w, c.accept);
    }
    if b.language(w) {
        lemma_reach_up(c, b, 1 + na, b.start, w, b.accept);
        lemma_reach_edge(c, (b.accept + 1 + na) as usize, None, c.accept);
        lemma_reach_concat(
            c,
            (b.start + 1 + na) as usize,
            w,
            (b.accept + 1 + na) as usize,
            Seq::<u8>::empty(),
            c.accept,
        );
        assert(w + Seq::<u8>::empty() =~= w);
        lemma_reach_prepend(c, 0, None, (b.start + 1 + na) as usize, w, c.accept);
    }
    if c.language(w) {
        let steps = choose|steps: Seq<Step>| #[trigger]
            c.walk(c.start, steps) && end_of(c.start, steps) == c.accept && word(steps) == w;
        assert(steps.len() > 0);
        let t = steps[0].to;
        let rest = steps.drop_first();
        assert(c.has_edge(0, steps[0].read, t));
        lemma_silent_first(steps);
        assert(end_of(t, rest) == c.accept);
        if t == a.start + 1 {
            lemma_through(c, a, 1, c.accept, rest);
        } else {
            lemma_through(c, b, 1 + na, c.accept, rest);
        }
    }
}

/// A word of the language in front of repeated words gives repeated words.
pub proof fn lemma_repeated_prepend(language: spec_fn(Seq<u8>) -> bool, u: Seq<u8>, v: Seq<u8>)
    requires
        language(u),
        repeated(language, v),
    ensures
        repeated(language, u + v),
{
    if u.len() == 0 {
        assert(u + v =~= v);
    } else {
        let k = u.len() as int;
        assert((u + v).take(k) =~= u);
        assert((u + v).skip(k) =~= v);
    }
}

/// Repetition depends only on which words the language holds.
pub proof fn lemma_repeated_same(
    first: spec_fn(Seq<u8>) -> bool,
    second: spec_fn(Seq<u8>) -> bool,
    w: Seq<u8>,
)
    requires
        forall|u: Seq<u8>| #[trigger] first(u) == second(u),
    ensures
        repeated(first, w) == repeated(second, w),
    decreases w.len(),
{
    if w.len() > 0 {
        assert forall|k: int| 1 <= k <= w.len() implies repeated(first, w.skip(k)) == repeated(
            second,
            w.skip(k),
        ) by {
            lemma_repeated_same(first, second, w.skip(k));
        }
        if repeated(first, w) {
            let k = choose|k: int|
                1 <= k <= w.len() && #[trigger] first(w.take(k)) && repeated(first, w.skip(k));
            assert(second(w.take(k)));
        }
        if repeated(second, w) {
            let k = choose|k: int|
                1 <= k <= w.len() && #[trigger] second(w.take(k)) && repeated(second, w.skip(k));
            assert(first(w.take(k)));
        }
    }
}

/// Joining depends only on which words the two languages hold.
pub proof fn lemma_joined_same(
    first: spec_fn(Seq<u8>) -> bool,
    second: spec_fn(Seq<u8>) -> bool,
    other_first: spec_fn(Seq<u8>) -> bool,
    other_second: spec_fn(Seq<u8>) -> bool,
    w: Seq<u8>,
)
    requires
        forall|u: Seq<u8>| #[trigger] first(u) == other_first(u),
        forall|u: Seq<u8>| #[trigger] second(u) == other_second(u),
    ensures
        joined(first, second, w) == joined(other_first, other_second, w),
{
    if joined(first, second, w) {
        let k = choose|k: int| 0 <= k <= w.len() && #[trigger] first(w.take(k)) && second(w.skip(k));
        assert(other_first(w.take(k)) && other_second(w.skip(k)));
    }
    if joined(other_first, other_second, w) {
        let k = choose|k: int|
            0 <= k <= w.len() && #[trigger] other_first(w.take(k)) && other_second(w.skip(k));
        assert(first(w.take(k)) && second(w.skip(k)));
    }
}

/// What holds of an automaton `c` that adds a start state `c.start` and an
/// accepting state `c.accept` behind the states of `a`: the new start leads
/// into `a` and to the new accepting state, and `a` is left only from its
/// accepting state, to one of `exits`.
pub open spec fn wraps(c: NfaModel, a: NfaModel, exits: Set<usize>) -> bool {
    &&& a.wf()
    &&& hosts(c, a, 0)
    &&& confined(c, a, 0, exits)
    &&& c.start == a.states.len()
    &&& c.accept == a.states.len() + 1
    &&& c.states.len() == a.states.len() + 2
    &&& c.states[c.accept as int].len() == 0
    &&& c.has_edge(c.start, None, a.start)
    &&& c.has_edge(c.start, None, c.accept)
    &&& c.has_edge(a.accept, None, c.accept)
    &&& forall|read: Option<u8>, t: usize| #[trigger]
        c.has_edge(c.start, read, t) ==> read is None && (t == a.start || t == c.accept)
}

/// The star of an automaton wraps it, with a way back to its start.
proof fn lemma_star_parts(a: NfaModel)
    requires
        a.wf(),
        a.states.len() + 2 <= usize::MAX,
    ensures
        wraps(star_model(a), a, set![a.start, star_model(a).accept]),
        star_model(a).has_edge(a.accept, None, a.start),
{
    let c = star_model(a);
    let n = a.states.len() as int;
    let inner = with_edge(
        with_edge(a.states, a.accept as int, eps(a.start as int)),
        a.accept as int,
        eps(n + 1),
    );
    assert forall|p: int| 0 <= p < n implies c.states[p] == inner[p] by {}
    assert forall|p: int, j: int| 0 <= p < n && 0 <= j < a.states[p].len() implies j
        < c.states[p + 0].len() && c.states[p + 0][j] == shift_edge(
        #[trigger] a.states[p][j],
        0,
    ) by {
        assert(c.states[p] == inner[p]);
    }
    assert forall|s: usize, read: Option<u8>, t: usize|
        within(a, 0, s) && #[trigger] c.has_edge(s, read, t) implies (within(a, 0, t) && a.has_edge(
        (s - 0) as usize,
        read,
        (t - 0) as usize,
    )) || (s == a.accept + 0 && read is None && set![a.start, c.accept].contains(t)) by {
        let j = choose|j: int|
            0 <= j < c.states[s as int].len() && (#[trigger] c.states[s as int][j]).to == t && takes(
                c.states[s as int][j].label,
                read,
            );
        assert(c.states[s as int] == inner[s as int]);
        if j < a.states[s as int].len() {
            assert(c.states[s as int][j] == a.states[s as int][j]);
        } else if j == a.states[s as int].len() {
            assert(c.states[s as int][j] == eps(a.start as int));
        } else {
            assert(c.states[s as int][j] == eps(n + 1));
        }
    }
    assert(c.states[n] == seq![eps(a.start as int), eps(n + 1)]);
    assert(c.states[n + 1] == Seq::<Edge>::empty());
    lemma_eps_edge(c, n as usize, 0, a.start as int);
    lemma_eps_edge(c, n as usize, 1, n + 1);
    assert(c.states[a.accept as int] == inner[a.accept as int]);
    lemma_eps_edge(c, a.accept, a.states[a.accept as int].len() as int, a.start as int);
    lemma_eps_edge(c, a.accept, a.states[a.accept as int].len() as int + 1, n + 1);
    assert forall|read: Option<u8>, t: usize| #[trigger] c.has_edge(c.start, read, t)
        implies read is None
        && (t == a.start || t == c.accept) by {
        let j = choose|j: int|
            0 <= j < c.states[n].len() && (#[trigger] c.states[n][j]).to == t && takes(
                c.states[n][j].label,
                read,
            );
        if j == 0 {
            assert(c.states[n][j] == eps(a.start as int));
        } else {
            assert(c.states[n][j] == eps(n + 1));
        }
    }
}

/// The optional form of an automaton wraps it.
proof fn lemma_optional_parts(a: NfaModel)
    requires
        a.wf(),
        a.states.len() + 2 <= usize::MAX,
    ensures
        wraps(optional_model(a), a, set![optional_model(a).accept]),
{
    let c = optional_model(a);
    let n = a.states.len() as int;
    let inner = with_edge(a.states, a.accept as int, eps(n + 1));
    assert forall|p: int| 0 <= p < n implies c.states[p] == inner[p] by {}
    assert forall|p: int, j: int| 0 <= p < n && 0 <= j < a.states[p].len() implies j
        < c.states[p + 0].len() && c.states[p + 0][j] == shift_edge(
        #[trigger] a.states[p][j],
        0,
    ) by {
        assert(c.states[p] == inner[p]);
    }
    assert forall|s: usize, read: Option<u8>, t: usize|
        within(a, 0, s) && #[trigger] c.has_edge(s, read, t) implies (within(a, 0, t) && a.has_edge(
        (s - 0) as usize,
        read,
        (t - 0) as usize,
    )) || (s == a.accept + 0 && read is None && set![c.accept].contains(t)) by {
        let j = choose|j: int|
            0 <= j < c.states[s as int].len() && (#[trigger] c.states[s as int][j]).to == t && takes(
                c.states[s as int][j].label,
                read,
            );
        assert(c.states[s as int] == inner[s as int]);
        if j < a.states[s as int].len() {
            assert(c.states[s as int][j] == a.states[s as int][j]);
        } else {
            assert(c.states[s as int][j] == eps(n + 1));
        }
    }
    assert(c.states[n] == seq![eps(a.start as int), eps(n + 1)]);
    assert(c.states[n + 1] == Seq::<Edge>::empty());
    lemma_eps_edge(c, n as usize, 0, a.start as int);
    lemma_eps_edge(c, n as usize, 1, n + 1);
    assert(c.states[a.accept as int] == inner[a.accept as int]);
    lemma_eps_edge(c, a.accept, a.states[a.accept as int].len() as int, n + 1);
    assert forall|read: Option<u8>, t: usize| #[trigger] c.has_edge(c.start, read, t)
        implies read is None
        && (t == a.start || t == c.accept) by {
        let j = choose|j: int|
            0 <= j < c.states[n].len() && (#[trigger] c.states[n][j]).to == t && takes(
                c.states[n][j].label,
                read,
            );
        if j == 0 {
            assert(c.states[n][j] == eps(a.start as int));
        } else {
            assert(c.states[n][j] == eps(n + 1));
        }
    }
}

/// A walk through the star from the start of the operand to the new
/// accepting state reads repeated words of the operand.
proof fn lemma_star_rounds(c: NfaModel, a: NfaModel, steps: Seq<Step>)
    requires
        wraps(c, a, set![a.start, c.accept]),
        c.walk(a.start, steps),
        end_of(a.start, steps) == c.accept,
    ensures
        repeated(words(a), word(steps)),
    decreases steps.len(),
{
    let i = lemma_leave(c, a, 0, set![a.start, c.accept], a.start, steps);
    lemma_after_exit(c, a.start, steps, i);
    let rest = steps.skip(i + 1);
    let t = steps[i].to;
    if t == c.accept {
        lemma_stuck(c, c.accept, rest);
        assert(word(rest) =~= Seq::<u8>::empty());
    } else {
        lemma_star_rounds(c, a, rest);
    }
    assert(words(a)(word(steps.take(i))));
    lemma_repeated_prepend(words(a), word(steps.take(i)), word(rest));
}

/// From the accepting state of the operand, the star reads repeated words
/// of the operand on its way to the new accepting state.
proof fn lemma_star_loops(c: NfaModel, a: NfaModel, w: Seq<u8>)
    requires
        wraps(c, a, set![a.start, c.accept]),
        c.has_edge(a.accept, None, a.start),
        repeated(words(a), w),
    ensures
        c.reach(a.accept, w, c.accept),
    decreases w.len(),
{
    if w.len() == 0 {
        lemma_reach_edge(c, a.accept, None, c.accept);
        assert(w =~= Seq::<u8>::empty());
    } else {
        let k = choose|k: int|
            1 <= k <= w.len() && #[trigger] words(a)(w.take(k)) && repeated(words(a), w.skip(k));
        lemma_reach_up(c, a, 0, a.start, w.take(k), a.accept);
        lemma_star_loops(c, a, w.skip(k));
        lemma_reach_concat(c, a.start, w.take(k), a.accept, w.skip(k), c.accept);
        assert(w.take(k) + w.skip(k) =~= w);
        lemma_reach_prepend(c, a.accept, None, a.start, w, c.accept);
    }
}

/// A star reads repeated words of its operand.
pub proof fn lemma_star_language(a: NfaModel, w: Seq<u8>)
    requires
        a.wf(),
        a.states.len() + 2 <= usize::MAX,
    ensures
        star_model(a).language(w) == repeated(words(a), w),
{
    let c = star_model(a);
    lemma_star_parts(a);
    if repeated(words(a), w) {
        if w.len() == 0 {
            lemma_reach_edge(c, c.start, None, c.accept);
            assert(w =~= Seq::<u8>::empty());
        } else {
            let k = choose|k: int|
                1 <= k <= w.len() && #[trigger] words(a)(w.take(k)) && repeated(
                    words(a),
                    w.skip(k),
                );
            lemma_reach_up(c, a, 0, a.start, w.take(k), a.accept);
            lemma_star_loops(c, a, w.skip(k));
            lemma_reach_concat(c, a.start, w.take(k), a.accept, w.skip(k), c.accept);
            assert(w.take(k) + w.skip(k) =~= w);
            lemma_reach_prepend(c, c.start, None, a.start, w, c.accept);
        }
    }
    if c.language(w) {
        let steps = choose|steps: Seq<Step>| #[trigger]
            c.walk(c.start, steps) && end_of(c.start, steps) == c.accept && word(steps) == w;
        assert(steps.len() > 0);
        let t = steps[0].to;
        let rest = steps.drop_first();
        assert(c.has_edge(c.start, steps[0].read, t));
        lemma_silent_first(steps);
        assert(end_of(t, rest) == c.accept);
        if t == a.start {
            lemma_star_rounds(c, a, rest);
        } else {
            lemma_stuck(c, c.accept, rest);
            assert(word(rest) =~= Seq::<u8>::empty());
        }
    }
}

/// The optional form reads the empty word and the words of its operand.
pub proof fn lemma_optional_language(a: NfaModel, w: Seq<u8>)
    requires
        a.wf(),
        a.states.len() + 2 <= usize::MAX,
    ensures
        optional_model(a).language(w) == (w.len() == 0 || a.language(w)),
{
    let c = optional_model(a);
    lemma_optional_parts(a);
    if w.len() == 0 {
        lemma_reach_edge(c, c.start, None, c.accept);
        assert(w =~= Seq::<u8>::empty());
    }
    if a.language(w) {
        lemma_reach_up(c, a, 0, a.start, w, a.accept);
        lemma_reach_edge(c, a.accept, None, c.accept);
        lemma_reach_concat(c, a.start, w, a.accept, Seq::<u8>::empty(), c.accept);
        assert(w + Seq::<u8>::empty() =~= w);
        lemma_reach_prepend(c, c.start, None, a.start, w, c.accept);
    }
    if c.language(w) {
        let steps = choose|steps: Seq<Step>| #[trigger]
            c.walk(c.start, steps) && end_of(c.start, steps) == c.accept && word(steps) == w;
        assert(steps.len() > 0);
        let t = steps[0].to;
        let rest = steps.drop_first();
        assert(c.has_edge(c.start, steps[0].read, t));
        lemma_silent_first(steps);
        assert(end_of(t, rest) == c.accept);
        if t == a.start {
            lemma_through(c, a, 0, c.accept, rest);
        } else {
            lemma_stuck(c, c.accept, rest);
            assert(word(rest) =~= Seq::<u8>::empty());
        }
    }
}

/// Two states joined by one edge read the single bytes that the edge reads.
pub proof fn lemma_literal_language(label: Transition, w: Seq<u8>)
    requires
        !(label is Epsilon),
    ensures
        literal_model(label).language(w) == (w.len() == 1 && reads(label, w[0])),
{
    let c = literal_model(label);
    assert(c.states[0] == seq![Edge { label, to: 1 }]);
    assert(c.states[1] == Seq::<Edge>::empty());
    if w.len() == 1 && reads(label, w[0]) {
        assert(c.states[0][0].to == 1);
        assert(takes(c.states[0][0].label, Some(w[0])));
        assert(c.has_edge(0, Some(w[0]), 1));
        lemma_reach_edge(c, 0, Some(w[0]), 1);
        assert(seq![w[0]] =~= w);
    }
    if c.language(w) {
        let steps = choose|steps: Seq<Step>| #[trigger]
            c.walk(c.start, steps) && end_of(c.start, steps) == c.accept && word(steps) == w;
        assert(steps.len() > 0);
        let rest = steps.drop_first();
        assert(c.has_edge(0, steps[0].read, steps[0].to));
        let j = choose|j: int|
            0 <= j < c.states[0].len() && (#[trigger] c.states[0][j]).to == steps[0].to && takes(
                c.states[0][j].label,
                steps[0].read,
            );
        assert(c.states[0][j] == Edge { label, to: 1 });
        lemma_stuck(c, 1, rest);
        assert(word(rest) =~= Seq::<u8>::empty());
        match steps[0].read {
            Some(b) => {
                assert(word(steps) =~= seq![b]);
            },
            None => {},
        }
    }
}

/// The star of a well-formed automaton is well-formed.
pub proof fn lemma_star_wf(a: NfaModel)
    requires
        a.wf(),
        a.states.len() + 2 <= usize::MAX,
    ensures
        star_model(a).wf(),
{
    let c = star_model(a);
    let n = a.states.len() as int;
    assert forall|p: int, j: int| 0 <= p < c.states.len() && 0 <= j < c.states[p].len() implies (
    #[trigger] c.states[p][j]).to < c.states.len() by {
        if p < n && j < a.states[p].len() {
            assert(c.states[p][j] == a.states[p][j]);
        }
    }
}

/// The optional form of a well-formed automaton is well-formed.
pub proof fn lemma_optional_wf(a: NfaModel)
    requires
        a.wf(),
        a.states.len() + 2 <= usize::MAX,
    ensures
        optional_model(a).wf(),
{
    let c = optional_model(a);
    let n = a.states.len() as int;
    assert forall|p: int, j: int| 0 <= p < c.states.len() && 0 <= j < c.states[p].len() implies (
    #[trigger] c.states[p][j]).to < c.states.len() by {
        if p < n && j < a.states[p].len() {
            assert(c.states[p][j] == a.states[p][j]);
        }
    }
}

/// The automaton built for a syntax tree is well-formed and reads exactly
/// the inputs that the tree matches, provided that the number of its states
/// is one that the machine can hold.
pub proof fn lemma_thompson(r: Regex)
    requires
        thompson(r).states.len() <= usize::MAX,
    ensures
        thompson(r).wf(),
        forall|w: Seq<u8>| #[trigger] thompson(r).language(w) == r.matches(w),
    decreases r,
{
    match r {
        Regex::Byte(b) => {
            assert forall|w: Seq<u8>| #[trigger] thompson(r).language(w) == r.matches(w) by {
                lemma_literal_language(Transition::Byte(b), w);
                if w.len() == 1 && w[0] == b {
                    assert(w =~= seq![b]);
                }
            }
        },
        Regex::Dot => {
            assert forall|w: Seq<u8>| #[trigger] thompson(r).language(w) == r.matches(w) by {
                lemma_literal_language(Transition::AnyByte, w);
            }
        },
        Regex::Concat(left, right) => {
            let a = thompson(*left);
            let b = thompson(*right);
            lemma_thompson(*left);
            lemma_thompson(*right);
            lemma_concat_closed(a, b);
            assert forall|w: Seq<u8>| #[trigger] thompson(r).language(w) == r.matches(w) by {
                lemma_concat_language(a, b, w);
                lemma_joined_same(words(a), words(b), left.words(), right.words(), w);
            }
        },
        Regex::Alt(left, right) => {
            let a = thompson(*left);
            let b = thompson(*right);
            lemma_thompson(*left);
            lemma_thompson(*right);
            lemma_alt_closed(a, b);
            assert forall|w: Seq<u8>| #[trigger] thompson(r).language(w) == r.matches(w) by {
                lemma_alt_language(a, b, w);
            }
        },
        Regex::Star(inner) => {
            let a = thompson(*inner);
            lemma_thompson(*inner);
            lemma_star_wf(a);
            assert forall|w: Seq<u8>| #[trigger] thompson(r).language(w) == r.matches(w) by {
                lemma_star_language(a, w);
                lemma_repeated_same(words(a), inner.words(), w);
            }
        },
        Regex::Plus(inner) => {
            let a = thompson(*inner);
            let b = star_model(a);
            lemma_thompson(*inner);
            lemma_star_wf(a);
            lemma_concat_closed(a, b);
            assert forall|u: Seq<u8>| #[trigger] words(b)(u) == star_of(inner.words())(u) by {
                lemma_star_language(a, u);
                lemma_repeated_same(words(a), inner.words(), u);
            }
            assert forall|w: Seq<u8>| #[trigger] thompson(r).language(w) == r.matches(w) by {
                lemma_concat_language(a, b, w);
                lemma_joined_same(words(a), words(b), inner.words(), star_of(inner.words()), w);
            }
        },
        Regex::Optional(inner) => {
            let a = thompson(*inner);
            lemma_thompson(*inner);
            lemma_optional_wf(a);
            assert forall|w: Seq<u8>| #[trigger] thompson(r).language(w) == r.matches(w) by {
                lemma_optional_language(a, w);
            }
        },
    }
}

/// The closure walk over the automaton built for a syntax tree accepts
/// exactly the inputs that the tree matches.
pub proof fn lemma_thompson_accepts(r: Regex, w: Seq<u8>)
    requires
        thompson(r).states.len() <= usize::MAX,
    ensures
        thompson(r).accepts(w) == r.matches(w),
{
    lemma_thompson(r);
    lemma_accepts_is_language(thompson(r), w);
}

/// What the closure walk over an automaton accepts, as a predicate.
pub open spec fn accepted(a: NfaModel) -> spec_fn(Seq<u8>) -> bool {
    |u: Seq<u8>| a.accepts(u)
}

/// The closure walk over a concatenation accepts a word of the first part
/// followed by a word of the second.
pub proof fn lemma_concat_accepts(a: NfaModel, b: NfaModel, w: Seq<u8>)
    requires
        a.wf(),
        b.wf(),
        a.states.len() + b.states.len() <= usize::MAX,
    ensures
        concat_model(a, b).accepts(w) == joined(accepted(a), accepted(b), w),
{
    lemma_accepts_is_language(concat_model(a, b), w);
    lemma_concat_language(a, b, w);
    assert forall|u: Seq<u8>| #[trigger] words(a)(u) == accepted(a)(u) by {
        lemma_accepts_is_language(a, u);
    }
    assert forall|u: Seq<u8>| #[trigger] words(b)(u) == accepted(b)(u) by {
        lemma_accepts_is_language(b, u);
    }
    lemma_joined_same(words(a), words(b), accepted(a), accepted(b), w);
}

/// The closure walk over a star accepts repeated words of the operand.
pub proof fn lemma_star_accepts(a: NfaModel, w: Seq<u8>)
    requires
        a.wf(),
        a.states.len() + 2 <= usize::MAX,
    ensures
        star_model(a).accepts(w) == repeated(accepted(a), w),
{
    lemma_accepts_is_language(star_model(a), w);
    lemma_star_language(a, w);
    assert forall|u: Seq<u8>| #[trigger] words(a)(u) == accepted(a)(u) by {
        lemma_accepts_is_language(a, u);
    }
    lemma_repeated_same(words(a), accepted(a), w);
}

/// The closure walk over two states joined by one edge accepts the single
/// bytes that the edge reads.
pub proof fn lemma_literal_accepts(label: Transition, w: Seq<u8>)
    requires
        !(label is Epsilon),
    ensures
        literal_model(label).accepts(w) == (w.len() == 1 && reads(label, w[0])),
{
    lemma_accepts_is_language(literal_model(label), w);
    lemma_literal_language(label, w);
}

/// In a trim automaton, the accepting state can be reached from the start.
proof fn lemma_trim_start(a: NfaModel)
    requires
        a.trim(),
    ensures
        a.useful(a.start),
{
    lemma_reach_self(a, a.start);
    assert(a.reachable(a.start));
}

/// The concatenation of trim automata is trim.
pub proof fn lemma_concat_trim(a: NfaModel, b: NfaModel)
    requires
        a.wf(),
        b.wf(),
        a.trim(),
        b.trim(),
        a.states.len() + b.states.len() <= usize::MAX,
    ensures
        concat_model(a, b).trim(),
{
    let c = concat_model(a, b);
    let n = a.states.len() as int;
    let bridge = (b.start + n) as usize;
    lemma_concat_parts(a, b);
    lemma_trim_start(b);
    let wb = choose|w: Seq<u8>| b.reach(b.start, w, b.accept);
    lemma_reach_up(c, b, n, b.start, wb, b.accept);
    lemma_reach_prepend(c, a.accept, None, bridge, wb, c.accept);
    assert forall|p: usize| #[trigger] c.reachable(p) implies c.useful(p) by {
        let w = choose|w: Seq<u8>| c.reach(c.start, w, p);
        let steps = choose|steps: Seq<Step>| #[trigger]
            c.walk(c.start, steps) && end_of(c.start, steps) == p && word(steps) == w;
        let i = lemma_leave(c, a, 0, set![bridge], a.start, steps);
        if i == steps.len() {
            assert(a.reachable(p));
            let w1 = choose|w1: Seq<u8>| a.reach(p, w1, a.accept);
            lemma_reach_up(c, a, 0, p, w1, a.accept);
            lemma_reach_concat(c, p, w1, a.accept, wb, c.accept);
        } else {
            lemma_after_exit(c, a.start, steps, i);
            let rest = steps.skip(i + 1);
            let i2 = lemma_leave(c, b, n, Set::<usize>::empty(), bridge, rest);
            let q = (p - n) as usize;
            assert(b.reachable(q));
            let w2 = choose|w2: Seq<u8>| b.reach(q, w2, b.accept);
            lemma_reach_up(c, b, n, q, w2, b.accept);
        }
    }
}

/// The alternation of trim automata is trim.
pub proof fn lemma_alt_trim(a: NfaModel, b: NfaModel)
    requires
        a.wf(),
        b.wf(),
        a.trim(),
        b.trim(),
        a.states.len() + b.states.len() + 2 <= usize::MAX,
    ensures
        alt_model(a, b).trim(),
{
    let c = alt_model(a, b);
    let na = a.states.len() as int;
    lemma_alt_parts(a, b);
    lemma_reach_self(c, c.accept);
    lemma_reach_edge(c, (a.accept + 1) as usize, None, c.accept);
    lemma_reach_edge(c, (b.accept + 1 + na) as usize, None, c.accept);
    lemma_trim_start(a);
    let wa = choose|w: Seq<u8>| a.reach(a.start, w, a.accept);
    lemma_reach_up(c, a, 1, a.start, wa, a.accept);
    lemma_reach_concat(
        c,
        (a.start + 1) as usize,
        wa,
        (a.accept + 1) as usize,
        Seq::<u8>::empty(),
        c.accept,
    );
    lemma_reach_prepend(c, 0, None, (a.start + 1) as usize, wa + Seq::<u8>::empty(), c.accept);
    let whole = wa + Seq::<u8>::empty();
    assert(c.reach(c.start, whole, c.accept));
    assert(c.useful(c.start));
    assert forall|p: usize| #[trigger] c.reachable(p) implies c.useful(p) by {
        let w = choose|w: Seq<u8>| c.reach(c.start, w, p);
        let steps = choose|steps: Seq<Step>| #[trigger]
            c.walk(c.start, steps) && end_of(c.start, steps) == p && word(steps) == w;
        if steps.len() > 0 {
            let t = steps[0].to;
            let rest = steps.drop_first();
            assert(c.has_edge(0, steps[0].read, t));
            assert(end_of(t, rest) == p);
            if t == a.start + 1 {
                lemma_alt_side(c, a, 1, rest, p);
            } else {
                lemma_alt_side(c, b, 1 + na, rest, p);
            }
        }
    }
}

/// A walk that enters a trim part of an automaton, which is left only
/// towards the accepting state of the whole, ends in a state from which the
/// accepting state of the whole can be reached.
proof fn lemma_alt_side(c: NfaModel, a: NfaModel, k: int, steps: Seq<Step>, p: usize)
    requires
        a.wf(),
        a.trim(),
        hosts(c, a, k),
        confined(c, a, k, set![c.accept]),
        c.accept < c.states.len(),
        c.states[c.accept as int].len() == 0,
        c.has_edge((a.accept + k) as usize, None, c.accept),
        c.walk((a.start + k) as usize, steps),
        end_of((a.start + k) as usize, steps) == p,
    ensures
        c.useful(p),
{
    let s = (a.start + k) as usize;
    let i = lemma_leave(c, a, k, set![c.accept], s, steps);
    if i == steps.len() {
        let q = (p - k) as usize;
        assert(a.reachable(q));
        let w1 = choose|w1: Seq<u8>| a.reach(q, w1, a.accept);
        lemma_reach_up(c, a, k, q, w1, a.accept);
        lemma_reach_edge(c, (a.accept + k) as usize, None, c.accept);
        lemma_reach_concat(c, p, w1, (a.accept + k) as usize, Seq::<u8>::empty(), c.accept);
    } else {
        lemma_after_exit(c, s, steps, i);
        lemma_stuck(c, c.accept, steps.skip(i + 1));
        lemma_reach_self(c, c.accept);
    }
}

/// A walk through an automaton that wraps `a`, begun at the start of `a`,
/// ends in the accepting state of the whole or in a state of `a` that `a`
/// reaches from its start.
proof fn lemma_wrap_inside(c: NfaModel, a: NfaModel, exits: Set<usize>, steps: Seq<Step>)
    requires
        wraps(c, a, exits),
        exits.subset_of(set![a.start, c.accept]),
        c.walk(a.start, steps),
    ensures
        end_of(a.start, steps) == c.accept || (end_of(a.start, steps) < a.states.len()
            && a.reachable(end_of(a.start, steps))),
    decreases steps.len(),
{
    let i = lemma_leave(c, a, 0, exits, a.start, steps);
    if i < steps.len() {
        lemma_after_exit(c, a.start, steps, i);
        let rest = steps.skip(i + 1);
        if steps[i].to == c.accept {
            lemma_stuck(c, c.accept, rest);
        } else {
            lemma_wrap_inside(c, a, exits, rest);
        }
    }
}

/// An automaton that wraps a trim automaton is trim.
proof fn lemma_wrap_trim(c: NfaModel, a: NfaModel, exits: Set<usize>)
    requires
        wraps(c, a, exits),
        exits.subset_of(set![a.start, c.accept]),
        a.trim(),
    ensures
        c.trim(),
{
    lemma_reach_self(c, c.accept);
    lemma_reach_edge(c, c.start, None, c.accept);
    lemma_reach_edge(c, a.accept, None, c.accept);
    assert forall|p: usize| #[trigger] c.reachable(p) implies c.useful(p) by {
        let w = choose|w: Seq<u8>| c.reach(c.start, w, p);
        let steps = choose|steps: Seq<Step>| #[trigger]
            c.walk(c.start, steps) && end_of(c.start, steps) == p && word(steps) == w;
        if steps.len() > 0 {
            let t = steps[0].to;
            let rest = steps.drop_first();
            assert(c.has_edge(c.start, steps[0].read, t));
            assert(end_of(t, rest) == p);
            if t == a.start {
                lemma_wrap_inside(c, a, exits, rest);
                if p != c.accept {
                    let w1 = choose|w1: Seq<u8>| a.reach(p, w1, a.accept);
                    lemma_reach_up(c, a, 0, p, w1, a.accept);
                    lemma_reach_concat(c, p, w1, a.accept, Seq::<u8>::empty(), c.accept);
                }
            } else {
                lemma_stuck(c, c.accept, rest);
            }
        }
    }
}

/// Two states joined by one edge that reads a byte are trim.
pub proof fn lemma_literal_trim(label: Transition)
    requires
        !(label is Epsilon),
    ensures
        literal_model(label).trim(),
{
    let c = literal_model(label);
    assert(c.states[0] == seq![Edge { label, to: 1 }]);
    assert(c.states[1] == Seq::<Edge>::empty());
    let b: u8 = match label {
        Transition::Byte(b) => b,
        _ => 0,
    };
    assert(c.states[0][0].to == 1);
    assert(takes(c.states[0][0].label, Some(b)));
    assert(c.has_edge(0, Some(b), 1));
    lemma_reach_edge(c, 0, Some(b), 1);
    lemma_reach_self(c, 1);
    assert(c.reach(0, seq![b], c.accept));
    assert(c.useful(0));
    assert(c.useful(1));
    assert forall|p: usize| #[trigger] c.reachable(p) implies c.useful(p) by {
        let w = choose|w: Seq<u8>| c.reach(c.start, w, p);
        let steps = choose|steps: Seq<Step>| #[trigger]
            c.walk(c.start, steps) && end_of(c.start, steps) == p && word(steps) == w;
        if steps.len() > 0 {
            assert(c.has_edge(0, steps[0].read, steps[0].to));
            let j = choose|j: int|
                0 <= j < c.states[0].len() && (#[trigger] c.states[0][j]).to == steps[0].to
                    && takes(c.states[0][j].label, steps[0].read);
            assert(c.states[0][j] == Edge { label, to: 1 });
            lemma_stuck(c, 1, steps.drop_first());
        }
    }
}

/// The star of a trim automaton is trim.
pub proof fn lemma_star_trim(a: NfaModel)
    requires
        a.wf(),
        a.trim(),
        a.states.len() + 2 <= usize::MAX,
    ensures
        star_model(a).trim(),
{
    lemma_star_parts(a);
    lemma_wrap_trim(star_model(a), a, set![a.start, star_model(a).accept]);
}

/// The automaton built for a syntax tree is trim.
pub proof fn lemma_thompson_trim(r: Regex)
    requires
        thompson(r).states.len() <= usize::MAX,
    ensures
        thompson(r).trim(),
    decreases r,
{
    match r {
        Regex::Byte(b) => {
            lemma_literal_trim(Transition::Byte(b));
        },
        Regex::Dot => {
            lemma_literal_trim(Transition::AnyByte);
        },
        Regex::Concat(left, right) => {
            lemma_thompson(*left);
            lemma_thompson(*right);
            lemma_thompson_trim(*left);
            lemma_thompson_trim(*right);
            lemma_concat_trim(thompson(*left), thompson(*right));
        },
        Regex::Alt(left, right) => {
            lemma_thompson(*left);
            lemma_thompson(*right);
            lemma_thompson_trim(*left);
            lemma_thompson_trim(*right);
            lemma_alt_trim(thompson(*left), thompson(*right));
        },
        Regex::Star(inner) => {
            let a = thompson(*inner);
            lemma_thompson(*inner);
            lemma_thompson_trim(*inner);
            lemma_star_trim(a);
        },
        Regex::Plus(inner) => {
            let a = thompson(*inner);
            lemma_thompson(*inner);
            lemma_thompson_trim(*inner);
            lemma_star_wf(a);
            lemma_star_trim(a);
            lemma_concat_trim(a, star_model(a));
        },
        Regex::Optional(inner) => {
            let a = thompson(*inner);
            lemma_thompson(*inner);
            lemma_thompson_trim(*inner);
            lemma_optional_parts(a);
            lemma_wrap_trim(optional_model(a), a, set![optional_model(a).accept]);
        },
    }
}

} // verus!
