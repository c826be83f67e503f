use crate::counting::lemma_distinct_bounded;
use crate::dfa::DfaModel;
use vstd::prelude::*;

verus! {

// A partition of the states of an automaton is given twice: as the sequence
// of its blocks and as the map `block_of` from each state to the index of its
// block.
/// The two states are in one block.
pub open spec fn same_block(block_of: Seq<usize>, s: usize, t: usize) -> bool {
    s < block_of.len() && t < block_of.len() && block_of[s as int] == block_of[t as int]
}

/// The set has an element.
pub open spec fn inhabited(set: Set<usize>) -> bool {
    exists|s: usize| set.contains(s)
}

/// The blocks are not empty, each state is in exactly the block that
/// `block_of` names, and no block holds both an accepting state and one that
/// is not.
pub open spec fn partitions(d: DfaModel, blocks: Seq<Set<usize>>, block_of: Seq<usize>) -> bool {
    &&& block_of.len() == d.rows.len()
    &&& forall|s: int| 0 <= s < block_of.len() ==> (#[trigger] block_of[s]) < blocks.len()
    &&& forall|g: int, s: usize|
        0 <= g < blocks.len() ==> (#[trigger] blocks[g].contains(s) <==> s < block_of.len()
            && block_of[s as int] == g)
    &&& forall|g: int| 0 <= g < blocks.len() ==> inhabited(#[trigger] blocks[g])
    &&& forall|s: usize, t: usize| #[trigger]
        same_block(block_of, s, t) ==> (d.accepting.contains(s) <==> d.accepting.contains(t))
}

/// A partition has at most as many blocks as the automaton has states.
pub proof fn lemma_block_count(d: DfaModel, blocks: Seq<Set<usize>>, block_of: Seq<usize>)
    requires
        partitions(d, blocks, block_of),
    ensures
        blocks.len() <= d.rows.len(),
{
    let reps = Seq::new(blocks.len(), |g: int| (choose|s: usize| blocks[g].contains(s)) as int);
    assert forall|g: int| 0 <= g < reps.len() implies 0 <= #[trigger] reps[g] < d.rows.len()
        && block_of[reps[g]] == g by {
        assert(inhabited(blocks[g]));
        let s = choose|s: usize| blocks[g].contains(s);
        assert(blocks[g].contains(s));
    }
    assert(reps.no_duplicates());
    lemma_distinct_bounded(reps, d.rows.len() as int);
}

/// On reading `c`, state `s` goes to a state of block `g`.
pub open spec fn enters(d: DfaModel, block_of: Seq<usize>, s: usize, c: u8, g: usize) -> bool {
    match d.rows[s as int][c as int] {
        Some(t) => block_of[t as int] == g,
        None => false,
    }
}

/// Reading `c` does not tell the states of any block apart by whether they
/// go to block `g`.
pub open spec fn stable(d: DfaModel, block_of: Seq<usize>, g: usize, c: u8) -> bool {
    forall|s: usize, t: usize| #[trigger]
        same_block(block_of, s, t) ==> (enters(d, block_of, s, c, g) <==> enters(
            d,
            block_of,
            t,
            c,
            g,
        ))
}

/// On reading `c`, the two states both stop, or both go on to states of one
/// block.
pub open spec fn agree_on(d: DfaModel, block_of: Seq<usize>, s: usize, t: usize, c: u8) -> bool {
    match (d.rows[s as int][c as int], d.rows[t as int][c as int]) {
        (Some(u), Some(v)) => block_of[u as int] == block_of[v as int],
        (None, None) => true,
        _ => false,
    }
}

/// The states of one block cannot be told apart by one step: they agree on
/// acceptance and, for every byte, on the block they go to.
pub open spec fn congruent(d: DfaModel, block_of: Seq<usize>) -> bool {
    &&& forall|s: usize, t: usize| #[trigger]
        same_block(block_of, s, t) ==> (d.accepting.contains(s) <==> d.accepting.contains(t))
    &&& forall|s: usize, t: usize, c: u8|
        same_block(block_of, s, t) ==> #[trigger] agree_on(d, block_of, s, t, c)
}

/// A partition that is stable for every block and every byte is a
/// congruence.
pub proof fn lemma_stable_congruent(d: DfaModel, blocks: Seq<Set<usize>>, block_of: Seq<usize>)
    requires
        d.wf(),
        partitions(d, blocks, block_of),
        forall|g: usize, c: u8| g < blocks.len() ==> #[trigger] stable(d, block_of, g, c),
    ensures
        congruent(d, block_of),
{
    assert forall|s: usize, t: usize, c: u8| same_block(block_of, s, t) implies #[trigger] agree_on(
        d,
        block_of,
        s,
        t,
        c,
    ) by {
        assert(same_block(block_of, t, s));
        match d.rows[s as int][c as int] {
            Some(u) => {
                let g = block_of[u as int];
                assert(stable(d, block_of, g, c));
                assert(enters(d, block_of, s, c, g));
            },
            None => {
                match d.rows[t as int][c as int] {
                    Some(v) => {
                        let g = block_of[v as int];
                        assert(stable(d, block_of, g, c));
                        assert(enters(d, block_of, t, c, g));
                    },
                    None => {},
                }
            },
        }
    }
}

/// `q` is the quotient of `d` by the partition: its states are the blocks,
/// and it starts, accepts and moves as the states in each block do.
pub open spec fn is_quotient(q: DfaModel, d: DfaModel, block_of: Seq<usize>) -> bool {
    &&& q.wf()
    &&& block_of.len() == d.rows.len()
    &&& forall|s: int| 0 <= s < block_of.len() ==> (#[trigger] block_of[s]) < q.rows.len()
    &&& q.start == block_of[d.start as int]
    &&& forall|s: usize|
        s < block_of.len() ==> (q.accepting.contains(#[trigger] block_of[s as int])
            <==> d.accepting.contains(s))
    &&& forall|s: usize, c: u8|
        s < block_of.len() ==> match #[trigger] d.rows[s as int][c as int] {
            Some(t) => q.rows[block_of[s as int] as int][c as int] == Some(block_of[t as int]),
            None => q.rows[block_of[s as int] as int][c as int] is None,
        }
}

/// In a quotient, the block of a state accepts exactly the inputs that the
/// state accepts.
pub proof fn lemma_quotient_from(
    q: DfaModel,
    d: DfaModel,
    block_of: Seq<usize>,
    s: usize,
    w: Seq<u8>,
)
    requires
        d.wf(),
        is_quotient(q, d, block_of),
        s < d.rows.len(),
    ensures
        q.accepts_from(block_of[s as int], w) == d.accepts_from(s, w),
    decreases w.len(),
{
    if w.len() > 0 {
        match d.rows[s as int][w[0] as int] {
            Some(t) => {
                lemma_quotient_from(q, d, block_of, t, w.drop_first());
            },
            None => {},
        }
    }
}

/// A quotient accepts exactly what the automaton accepts.
pub proof fn lemma_quotient(q: DfaModel, d: DfaModel, block_of: Seq<usize>, w: Seq<u8>)
    requires
        d.wf(),
        is_quotient(q, d, block_of),
    ensures
        q.accepts(w) == d.accepts(w),
{
    lemma_quotient_from(q, d, block_of, d.start, w);
}

/// States of different blocks are told apart by some input.
pub open spec fn separates(d: DfaModel, block_of: Seq<usize>) -> bool {
    forall|s: usize, t: usize|
        s < block_of.len() && t < block_of.len() && block_of[s as int] != block_of[t as int]
            ==> #[trigger] d.told_apart(s, t)
}

/// In a congruence, every input has the same outcome from the states of one
/// block.
pub proof fn lemma_congruent_alike(
    d: DfaModel,
    block_of: Seq<usize>,
    s: usize,
    t: usize,
    w: Seq<u8>,
)
    requires
        d.wf(),
        block_of.len() == d.rows.len(),
        congruent(d, block_of),
        same_block(block_of, s, t),
    ensures
        d.outcome(s, w) == d.outcome(t, w),
    decreases w.len(),
{
    if w.len() > 0 {
        assert(agree_on(d, block_of, s, t, w[0]));
        match (d.rows[s as int][w[0] as int], d.rows[t as int][w[0] as int]) {
            (Some(u), Some(v)) => {
                assert(same_block(block_of, u, v));
                lemma_congruent_alike(d, block_of, u, v, w.drop_first());
            },
            _ => {},
        }
    }
}

/// A partition that is a congruence and separates its blocks puts two
/// states in one block exactly if every input has the same outcome from
/// both.
pub proof fn lemma_blocks_are_alike(d: DfaModel, block_of: Seq<usize>, s: usize, t: usize)
    requires
        d.wf(),
        block_of.len() == d.rows.len(),
        congruent(d, block_of),
        separates(d, block_of),
        s < d.rows.len(),
        t < d.rows.len(),
    ensures
        same_block(block_of, s, t) <==> d.alike(s, t),
{
    if same_block(block_of, s, t) {
        assert forall|w: Seq<u8>| d.outcome(s, w) == d.outcome(t, w) by {
            lemma_congruent_alike(d, block_of, s, t, w);
        }
    } else {
        assert(d.told_apart(s, t));
    }
}

/// In a quotient, every input has from the block of a state the outcome that
/// it has from the state.
pub proof fn lemma_quotient_outcome(
    q: DfaModel,
    d: DfaModel,
    block_of: Seq<usize>,
    s: usize,
    w: Seq<u8>,
)
    requires
        d.wf(),
        is_quotient(q, d, block_of),
        s < d.rows.len(),
    ensures
        q.outcome(block_of[s as int], w) == d.outcome(s, w),
    decreases w.len(),
{
    if w.len() > 0 {
        match d.rows[s as int][w[0] as int] {
            Some(t) => {
                lemma_quotient_outcome(q, d, block_of, t, w.drop_first());
            },
            None => {},
        }
    }
}

/// The outcome of an input that begins with `c`, from a state that goes to
/// `u` on `c`.
pub proof fn lemma_outcome_step(d: DfaModel, s: usize, c: u8, u: usize, w: Seq<u8>)
    requires
        d.rows[s as int][c as int] == Some(u),
    ensures
        d.outcome(s, seq![c] + w) == d.outcome(u, w),
{
    let whole = seq![c] + w;
    assert(whole[0] == c);
    assert(whole.drop_first() =~= w);
}

/// Every state of the quotient is the block of some state.
pub open spec fn onto(q: DfaModel, block_of: Seq<usize>) -> bool {
    forall|i: usize| i < q.rows.len() ==> #[trigger] is_block(block_of, i)
}

/// Some state is in block `i`.
pub open spec fn is_block(block_of: Seq<usize>, i: usize) -> bool {
    exists|s: usize| s < block_of.len() && #[trigger] block_of[s as int] == i
}

/// In a quotient, an input leads from the block of a state to the block of
/// the state that it leads to from that state.
pub proof fn lemma_quotient_after(
    q: DfaModel,
    d: DfaModel,
    block_of: Seq<usize>,
    s: usize,
    w: Seq<u8>,
)
    requires
        d.wf(),
        is_quotient(q, d, block_of),
        s < d.rows.len(),
    ensures
        q.state_after(block_of[s as int], w) == match d.state_after(s, w) {
            Some(v) => Some(block_of[v as int]),
            None => None,
        },
    decreases w.len(),
{
    if w.len() > 0 {
        match d.rows[s as int][w[0] as int] {
            Some(t) => {
                lemma_quotient_after(q, d, block_of, t, w.drop_first());
            },
            None => {},
        }
    }
}

/// The quotient of a connected automaton is connected.
pub proof fn lemma_quotient_connected(q: DfaModel, d: DfaModel, block_of: Seq<usize>)
    requires
        d.wf(),
        is_quotient(q, d, block_of),
        onto(q, block_of),
        d.connected(),
    ensures
        q.connected(),
{
    assert forall|i: usize| i < q.rows.len() implies #[trigger] q.reached(i) by {
        assert(is_block(block_of, i));
        let s = choose|s: usize| s < block_of.len() && #[trigger] block_of[s as int] == i;
        assert(d.reached(s));
        let w = choose|w: Seq<u8>| d.state_after(d.start, w) == Some(s);
        lemma_quotient_after(q, d, block_of, d.start, w);
        assert(q.state_after(q.start, w) == Some(i));
    }
}

/// The quotient of an automaton in which some input is accepted from every
/// state is such an automaton.
pub proof fn lemma_quotient_live(q: DfaModel, d: DfaModel, block_of: Seq<usize>)
    requires
        d.wf(),
        is_quotient(q, d, block_of),
        onto(q, block_of),
        d.live(),
    ensures
        q.live(),
{
    assert forall|i: usize| i < q.rows.len() implies #[trigger] q.can_accept(i) by {
        assert(is_block(block_of, i));
        let s = choose|s: usize| s < block_of.len() && #[trigger] block_of[s as int] == i;
        assert(d.can_accept(s));
        let w = choose|w: Seq<u8>| d.accepts_from(s, w);
        lemma_quotient_from(q, d, block_of, s, w);
        assert(q.accepts_from(i, w));
    }
}

} // verus!
