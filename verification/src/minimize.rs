use crate::bits::{contains, duplicate, elements, insert, is_empty, with_capacity, StateSet};
use crate::dfa::{DfaModel, DFA};
use crate::partition::{
    congruent, enters, inhabited, is_block, is_quotient, lemma_block_count,
    lemma_blocks_are_alike, lemma_congruent_alike, lemma_outcome_step, lemma_quotient,
    lemma_quotient_connected, lemma_quotient_live, lemma_quotient_outcome,
    lemma_stable_congruent, onto, partitions, same_block, separates, stable,
};
use crate::simulate::no_flags;
use std::collections::VecDeque;
use vstd::prelude::*;

verus! {

/// The sets that the blocks hold.
pub open spec fn views(partition: Seq<StateSet>) -> Seq<Set<usize>> {
    Seq::new(partition.len(), |i: int| partition[i]@)
}

/// The pair of block `g` and byte `c` needs no further look: it waits in the
/// worklist, or the partition is stable for it.
pub open spec fn settled(
    d: DfaModel,
    block_of: Seq<usize>,
    worklist: Seq<(usize, u8)>,
    g: usize,
    c: u8,
) -> bool {
    worklist.contains((g, c)) || stable(d, block_of, g, c)
}

/// Every pair of a block and a byte is settled, but perhaps the pair `skip`.
pub open spec fn covered(
    d: DfaModel,
    block_of: Seq<usize>,
    count: nat,
    worklist: Seq<(usize, u8)>,
    skip: Option<(usize, u8)>,
) -> bool {
    forall|g: usize, c: u8|
        g < count && skip != Some((g, c)) ==> #[trigger] settled(d, block_of, worklist, g, c)
}

/// `after` is `before` with some states of block `g` moved to the unused
/// index `fresh`.
pub open spec fn moved(before: Seq<usize>, after: Seq<usize>, g: usize, fresh: usize) -> bool {
    &&& before.len() == after.len()
    &&& forall|s: int|
        0 <= s < before.len() ==> (#[trigger] before[s]) < fresh && (after[s] == before[s] || (
        before[s] == g && after[s] == fresh))
}

/// Moving states of block `g` to a new block keeps the partition stable for
/// every other block.
pub proof fn lemma_moved_stable(
    d: DfaModel,
    before: Seq<usize>,
    after: Seq<usize>,
    g: usize,
    fresh: usize,
    h: usize,
    c: u8,
)
    requires
        d.wf(),
        before.len() == d.rows.len(),
        moved(before, after, g, fresh),
        h != g,
        h != fresh,
        stable(d, before, h, c),
    ensures
        stable(d, after, h, c),
{
    assert forall|s: usize, t: usize| #[trigger] same_block(after, s, t) implies (enters(
        d,
        after,
        s,
        c,
        h,
    ) <==> enters(d, after, t, c, h)) by {
        assert(before[s as int] < fresh);
        assert(before[t as int] < fresh);
        assert(same_block(before, s, t));
        lemma_moved_enters(d, before, after, g, fresh, h, c, s);
        lemma_moved_enters(d, before, after, g, fresh, h, c, t);
    }
}

/// Moving states of block `g` to a new block does not change which states
/// go to another block.
pub proof fn lemma_moved_enters(
    d: DfaModel,
    before: Seq<usize>,
    after: Seq<usize>,
    g: usize,
    fresh: usize,
    h: usize,
    c: u8,
    s: usize,
)
    requires
        d.wf(),
        before.len() == d.rows.len(),
        moved(before, after, g, fresh),
        h != g,
        h != fresh,
        s < before.len(),
    ensures
        enters(d, after, s, c, h) == enters(d, before, s, c, h),
{
    match d.rows[s as int][c as int] {
        Some(u) => {
            assert(before[u as int] < fresh);
        },
        None => {},
    }
}

/// A worklist that holds every pair of a block below `count` and a byte.
fn seed(count: usize) -> (worklist: VecDeque<(usize, u8)>)
    ensures
        forall|g: usize, c: u8| g < count ==> worklist@.contains((g, c)),
        forall|x: (usize, u8)| worklist@.contains(x) ==> x.0 < count,
{
    let mut worklist: VecDeque<(usize, u8)> = VecDeque::new();
    let mut g: usize = 0;
    while g < count
        invariant
            g <= count,
            forall|h: usize, c: u8| h < g ==> worklist@.contains((h, c)),
            forall|x: (usize, u8)| worklist@.contains(x) ==> x.0 < g,
        decreases count - g,
    {
        enqueue_block(&mut worklist, g);
        g += 1;
    }
    worklist
}

/// Puts the pair of block `g` and each byte at the end of the worklist.
fn enqueue_block(worklist: &mut VecDeque<(usize, u8)>, g: usize)
    ensures
        forall|x: (usize, u8)| old(worklist)@.contains(x) ==> final(worklist)@.contains(x),
        forall|c: u8| final(worklist)@.contains((g, c)),
        forall|x: (usize, u8)| final(worklist)@.contains(x) ==> old(worklist)@.contains(x) || x.0 == g,
        final(worklist)@.len() == old(worklist)@.len() + 256,
{
    let mut a: usize = 0;
    while a < 256
        invariant
            a <= 256,
            forall|x: (usize, u8)| old(worklist)@.contains(x) ==> worklist@.contains(x),
            forall|c: u8| c < a ==> worklist@.contains((g, c)),
            forall|x: (usize, u8)| worklist@.contains(x) ==> old(worklist)@.contains(x) || x.0 == g,
            worklist@.len() == old(worklist)@.len() + a,
        decreases 256 - a,
    {
        let ghost before = worklist@;
        worklist.push_back((g, a as u8));
        proof {
            assert(worklist@[before.len() as int] == (g, a as u8));
            assert(worklist@.contains((g, a as u8)));
            assert forall|x: (usize, u8)| before.contains(x) implies worklist@.contains(x) by {
                let k = choose|k: int| 0 <= k < before.len() && before[k] == x;
                assert(worklist@[k] == x);
            }
            assert forall|c: u8| c < a + 1 implies worklist@.contains((g, c)) by {
                if c < a {
                    assert(before.contains((g, c)));
                }
            }
            assert forall|x: (usize, u8)| worklist@.contains(x) implies old(worklist)@.contains(x)
                || x.0 == g by {
                let k = choose|k: int| 0 <= k < worklist@.len() && worklist@[k] == x;
                if k < before.len() {
                    assert(before[k] == x);
                    assert(before.contains(x));
                }
            }
        }
        a += 1;
    }
}

impl DFA {
    /// For each state, whether on reading `c` it goes to a state of
    /// `target`.
    fn mark_entering(&self, target: &StateSet, c: u8) -> (hit: Vec<bool>)
        requires
            self@.wf(),
        ensures
            hit.len() == self.states.len(),
            forall|s: int|
                0 <= s < hit.len() ==> (#[trigger] hit[s] <==> match self@.rows[s][c as int] {
                    Some(t) => target@.contains(t),
                    None => false,
                }),
    {
        let n = self.states.len();
        let mut hit = no_flags(n);
        let mut s: usize = 0;
        while s < n
            invariant
                s <= n,
                n == self.states.len(),
                hit.len() == n,
                forall|k: int| s <= k < n ==> !hit[k],
                forall|k: int|
                    0 <= k < s ==> (#[trigger] hit[k] <==> match self@.rows[k][c as int] {
                        Some(t) => target@.contains(t),
                        None => false,
                    }),
            decreases n - s,
        {
            assert(self@.rows[s as int] == self.states[s as int]@);
            match self.states[s][c as usize] {
                Some(t) => {
                    if contains(target, t) {
                        hit[s] = true;
                    }
                },
                None => {},
            }
            s += 1;
        }
        hit
    }
}

/// Splits block `g`: its states whose flag in `hit` is set become a new last
/// block, the others stay.
fn split(
    partition: &mut Vec<StateSet>,
    state_to_group: &mut Vec<usize>,
    members: &Vec<usize>,
    hit: &Vec<bool>,
    g: usize,
    Ghost(d): Ghost<DfaModel>,
)
    requires
        partitions(d, views(old(partition)@), old(state_to_group)@),
        g < old(partition).len(),
        hit.len() == d.rows.len(),
        forall|v: usize| old(partition)[g as int]@.contains(v) <==> members@.contains(v),
        exists|i: int| 0 <= i < members.len() && hit[members[i] as int],
        exists|i: int| 0 <= i < members.len() && !hit[members[i] as int],
    ensures
        partitions(d, views(final(partition)@), final(state_to_group)@),
        final(partition).len() == old(partition).len() + 1,
        final(state_to_group).len() == old(state_to_group).len(),
        forall|s: int|
            0 <= s < old(state_to_group).len() ==> #[trigger] final(state_to_group)[s] == if old(
                state_to_group,
            )[s] == g && hit[s] {
                old(partition).len()
            } else {
                old(state_to_group)[s]
            },
{
    let ghost blocks0 = views(partition@);
    let ghost of0 = state_to_group@;
    let n = state_to_group.len();
    let fresh = partition.len();
    let mut bucket = with_capacity(n);
    let mut rest = with_capacity(n);
    let count = members.len();
    assert forall|i: int| 0 <= i < count implies (#[trigger] members[i]) < n && of0[members[i] as int]
        == g by {
        assert(members@.contains(members[i]));
        assert(blocks0[g as int].contains(members[i]));
    }
    let mut i: usize = 0;
    while i < count
        invariant
            i <= count,
            count == members.len(),
            n == of0.len(),
            n == hit.len(),
            state_to_group.len() == n,
            fresh == partition.len(),
            forall|k: int| 0 <= k < count ==> (#[trigger] members[k]) < n && of0[members[k] as int] == g,
            forall|v: usize|
                bucket@.contains(v) <==> exists|k: int|
                    0 <= k < i && #[trigger] members[k] == v && hit[v as int],
            forall|v: usize|
                rest@.contains(v) <==> exists|k: int|
                    0 <= k < i && #[trigger] members[k] == v && !hit[v as int],
            forall|s: int|
                0 <= s < n ==> #[trigger] state_to_group[s] == if bucket@.contains(s as usize) {
                    fresh
                } else {
                    of0[s]
                },
        decreases count - i,
    {
        let s = members[i];
        let ghost bucket0 = bucket@;
        let ghost rest0 = rest@;
        if hit[s] {
            insert(&mut bucket, s);
            state_to_group[s] = fresh;
            assert(bucket@ == bucket0.insert(s));
        } else {
            insert(&mut rest, s);
            assert(rest@ == rest0.insert(s));
        }
        proof {
            assert forall|v: usize| bucket@.contains(v) <==> exists|k: int|
                0 <= k < i + 1 && #[trigger] members[k] == v && hit[v as int] by {
                if bucket@.contains(v) {
                    if bucket0.contains(v) {
                        let k = choose|k: int|
                            0 <= k < i && #[trigger] members[k] == v && hit[v as int];
                        assert(0 <= k < i + 1 && members[k] == v);
                    } else {
                        assert(members[i as int] == v);
                    }
                }
                if exists|k: int| 0 <= k < i + 1 && #[trigger] members[k] == v && hit[v as int] {
                    let k = choose|k: int|
                        0 <= k < i + 1 && #[trigger] members[k] == v && hit[v as int];
                    if k < i {
                        assert(bucket0.contains(v));
                    }
                }
            }
            assert forall|v: usize| rest@.contains(v) <==> exists|k: int|
                0 <= k < i + 1 && #[trigger] members[k] == v && !hit[v as int] by {
                if rest@.contains(v) {
                    if rest0.contains(v) {
                        let k = choose|k: int|
                            0 <= k < i && #[trigger] members[k] == v && !hit[v as int];
                        assert(0 <= k < i + 1 && members[k] == v);
                    } else {
                        assert(members[i as int] == v);
                    }
                }
                if exists|k: int| 0 <= k < i + 1 && #[trigger] members[k] == v && !hit[v as int] {
                    let k = choose|k: int|
                        0 <= k < i + 1 && #[trigger] members[k] == v && !hit[v as int];
                    if k < i {
                        assert(rest0.contains(v));
                    }
                }
            }
        }
        i += 1;
    }
    proof {
        assert forall|v: usize| bucket@.contains(v) <==> (v < n && of0[v as int] == g
            && hit[v as int]) by {
            if bucket@.contains(v) {
                let k = choose|k: int| 0 <= k < count && #[trigger] members[k] == v && hit[v as int];
            }
            if v < n && of0[v as int] == g && hit[v as int] {
                assert(blocks0[g as int].contains(v));
                assert(members@.contains(v));
                let k = choose|k: int| 0 <= k < members@.len() && members@[k] == v;
                assert(members[k] == v);
            }
        }
        assert forall|v: usize| rest@.contains(v) <==> (v < n && of0[v as int] == g
            && !hit[v as int]) by {
            if rest@.contains(v) {
                let k = choose|k: int|
                    0 <= k < count && #[trigger] members[k] == v && !hit[v as int];
            }
            if v < n && of0[v as int] == g && !hit[v as int] {
                assert(blocks0[g as int].contains(v));
                assert(members@.contains(v));
                let k = choose|k: int| 0 <= k < members@.len() && members@[k] == v;
                assert(members[k] == v);
            }
        }
    }
    let ghost kept = partition@;
    let ghost bucket_set = bucket@;
    let ghost rest_set = rest@;
    partition[g] = rest;
    partition.push(bucket);
    proof {
        let blocks = views(partition@);
        let of = state_to_group@;
        assert(blocks[g as int] == rest_set);
        assert(blocks[fresh as int] == bucket_set);
        assert forall|h: int| 0 <= h < fresh && h != g implies blocks[h] == blocks0[h] by {
            assert(partition@[h] == kept[h]);
        }
        assert forall|h: int, v: usize| 0 <= h < blocks.len() implies (
        #[trigger] blocks[h].contains(v) <==> v < of.len() && of[v as int] == h) by {
            if h != g && h != fresh {
                assert(blocks0[h].contains(v) <==> v < of0.len() && of0[v as int] == h);
            }
        }
        assert forall|h: int| 0 <= h < blocks.len() implies inhabited(#[trigger] blocks[h]) by {
            if h == g {
                let k = choose|k: int| 0 <= k < members.len() && !hit[members[k] as int];
                assert(rest_set.contains(members[k]));
            } else if h == fresh {
                let k = choose|k: int| 0 <= k < members.len() && hit[members[k] as int];
                assert(bucket_set.contains(members[k]));
            } else {
                assert(inhabited(blocks0[h]));
            }
        }
        assert forall|a: usize, b: usize| #[trigger] same_block(of, a, b) implies (
        d.accepting.contains(a) <==> d.accepting.contains(b)) by {
            assert(of0[a as int] < fresh);
            assert(of0[b as int] < fresh);
            assert(same_block(of0, a, b));
        }
    }
}

/// Whether some member has its flag set, and whether some member has not.
fn scan(members: &Vec<usize>, hit: &Vec<bool>) -> (found: (bool, bool))
    requires
        forall|i: int| 0 <= i < members.len() ==> (#[trigger] members[i]) < hit.len(),
    ensures
        found.0 <==> exists|i: int| 0 <= i < members.len() && hit[members[i] as int],
        found.1 <==> exists|i: int| 0 <= i < members.len() && !hit[members[i] as int],
{
    let mut any_hit = false;
    let mut any_miss = false;
    let count = members.len();
    let mut i: usize = 0;
    while i < count
        invariant
            i <= count,
            count == members.len(),
            forall|k: int| 0 <= k < members.len() ==> (#[trigger] members[k]) < hit.len(),
            any_hit <==> exists|k: int| 0 <= k < i && hit[members[k] as int],
            any_miss <==> exists|k: int| 0 <= k < i && !hit[members[k] as int],
        decreases count - i,
    {
        if hit[members[i]] {
            any_hit = true;
        } else {
            any_miss = true;
        }
        i += 1;
    }
    (any_hit, any_miss)
}

/// The flags tell which states go to block `blk` of the partition `of0` on
/// reading `c`.
pub open spec fn marks_entering(
    d: DfaModel,
    of0: Seq<usize>,
    hit: Seq<bool>,
    c: u8,
    blk: usize,
) -> bool {
    hit.len() == of0.len() && forall|s: usize|
        s < hit.len() ==> (#[trigger] hit[s as int] <==> enters(d, of0, s, c, blk))
}

/// During a sweep over the blocks that existed when it began, `groups` of
/// them, of which the first `g` have been looked at: a state is still in the
/// block it was in, or it was in one of the first `g` blocks and is now in a
/// block made since.
pub open spec fn drifted(of0: Seq<usize>, cur: Seq<usize>, groups: usize, g: usize) -> bool {
    &&& of0.len() == cur.len()
    &&& forall|s: int|
        0 <= s < cur.len() ==> (#[trigger] cur[s]) == of0[s] || (cur[s] >= groups && of0[s] < g)
}

/// The flags do not differ inside any block that the sweep has looked at or
/// made.
pub open spec fn uniform(cur: Seq<usize>, hit: Seq<bool>, groups: usize, g: usize) -> bool {
    forall|s: usize, t: usize|
        #[trigger] same_block(cur, s, t) && (cur[s as int] < g || cur[s as int] >= groups)
            ==> hit[s as int] == hit[t as int]
}

/// The partition after block `g` was split by the flags into itself and the
/// new block `fresh`.
pub open spec fn split_by(
    cur: Seq<usize>,
    next: Seq<usize>,
    hit: Seq<bool>,
    g: usize,
    fresh: usize,
) -> bool {
    &&& next.len() == cur.len()
    &&& hit.len() == cur.len()
    &&& forall|s: int|
        0 <= s < cur.len() ==> (#[trigger] cur[s]) < fresh && next[s] == if cur[s] == g && hit[s] {
            fresh
        } else {
            cur[s]
        }
}

/// A sweep may pass a block in which the flags do not differ.
pub proof fn lemma_sweep_pass(
    of0: Seq<usize>,
    cur: Seq<usize>,
    hit: Seq<bool>,
    groups: usize,
    g: usize,
)
    requires
        g < groups,
        hit.len() == cur.len(),
        drifted(of0, cur, groups, g),
        uniform(cur, hit, groups, g),
        forall|s: usize, t: usize|
            #[trigger] same_block(cur, s, t) && cur[s as int] == g ==> hit[s as int]
                == hit[t as int],
    ensures
        drifted(of0, cur, groups, (g + 1) as usize),
        uniform(cur, hit, groups, (g + 1) as usize),
{
}

/// A sweep may split a block by the flags.
pub proof fn lemma_sweep_split(
    of0: Seq<usize>,
    cur: Seq<usize>,
    next: Seq<usize>,
    hit: Seq<bool>,
    groups: usize,
    g: usize,
    fresh: usize,
)
    requires
        g < groups <= fresh,
        fresh < usize::MAX,
        drifted(of0, cur, groups, g),
        uniform(cur, hit, groups, g),
        split_by(cur, next, hit, g, fresh),
    ensures
        drifted(of0, next, groups, (g + 1) as usize),
        uniform(next, hit, groups, (g + 1) as usize),
        moved(cur, next, g, fresh),
{
    assert forall|s: usize, t: usize|
        #[trigger] same_block(next, s, t) && (next[s as int] < g + 1 || next[s as int]
            >= groups) implies hit[s as int] == hit[t as int] by {
        assert(cur[s as int] < fresh);
        assert(cur[t as int] < fresh);
        if next[s as int] == fresh {
        } else if next[s as int] == g {
        } else {
            assert(same_block(cur, s, t));
        }
    }
    assert forall|s: int| 0 <= s < next.len() implies (#[trigger] next[s]) == of0[s] || (next[s]
        >= groups && of0[s] < g + 1) by {
        assert(cur[s] < fresh);
    }
}

/// After a block was split and both halves were put in the worklist, every
/// pair that was settled is settled still.
pub proof fn lemma_covered_split(
    d: DfaModel,
    cur: Seq<usize>,
    next: Seq<usize>,
    g: usize,
    fresh: usize,
    before: Seq<(usize, u8)>,
    after: Seq<(usize, u8)>,
    skip: Option<(usize, u8)>,
)
    requires
        d.wf(),
        cur.len() == d.rows.len(),
        g < fresh,
        moved(cur, next, g, fresh),
        covered(d, cur, fresh as nat, before, skip),
        forall|x: (usize, u8)| before.contains(x) ==> after.contains(x),
        forall|a: u8| after.contains((g, a)) && after.contains((fresh, a)),
    ensures
        covered(d, next, (fresh + 1) as nat, after, skip),
{
    assert forall|h: usize, a: u8| h < fresh + 1 && skip != Some((h, a)) implies #[trigger] settled(
        d,
        next,
        after,
        h,
        a,
    ) by {
        if h == g || h == fresh {
            assert(after.contains((h, a)));
        } else {
            assert(settled(d, cur, before, h, a));
            if !before.contains((h, a)) {
                lemma_moved_stable(d, cur, next, g, fresh, h, a);
            }
        }
    }
}

/// When the sweep has looked at every block, the pair it was made for is
/// settled.
pub proof fn lemma_sweep_done(
    d: DfaModel,
    of0: Seq<usize>,
    cur: Seq<usize>,
    hit: Seq<bool>,
    groups: usize,
    blk: usize,
    c: u8,
    worklist: Seq<(usize, u8)>,
)
    requires
        d.wf(),
        cur.len() == d.rows.len(),
        blk < groups,
        marks_entering(d, of0, hit, c, blk),
        drifted(of0, cur, groups, groups),
        uniform(cur, hit, groups, groups),
        worklist.contains((blk, c)) || forall|s: int|
            0 <= s < of0.len() && #[trigger] of0[s] == blk ==> cur[s] == blk,
    ensures
        settled(d, cur, worklist, blk, c),
{
    if !worklist.contains((blk, c)) {
        assert forall|s: usize| s < cur.len()
            implies (enters(d, cur, s, c, blk) <==> #[trigger] hit[s as int]) by {
            match d.rows[s as int][c as int] {
                Some(u) => {
                    assert(cur[u as int] == of0[u as int] || cur[u as int] >= groups);
                },
                None => {},
            }
        }
        assert forall|s: usize, t: usize| #[trigger] same_block(cur, s, t) implies (enters(
            d,
            cur,
            s,
            c,
            blk,
        ) <==> enters(d, cur, t, c, blk)) by {
            assert(hit[s as int] == hit[t as int]);
        }
    }
}

/// Splitting a block by the flags keeps states of different blocks told
/// apart: a marked state goes on `c` into the block `blk`, an unmarked one
/// stops or goes elsewhere.
pub proof fn lemma_split_separates(
    d: DfaModel,
    of0: Seq<usize>,
    cur: Seq<usize>,
    next: Seq<usize>,
    hit: Seq<bool>,
    g: usize,
    fresh: usize,
    c: u8,
    blk: usize,
)
    requires
        d.wf(),
        cur.len() == d.rows.len(),
        marks_entering(d, of0, hit, c, blk),
        separates(d, of0),
        separates(d, cur),
        split_by(cur, next, hit, g, fresh),
    ensures
        separates(d, next),
{
    assert forall|s: usize, t: usize|
        s < next.len() && t < next.len() && next[s as int] != next[t as int]
            implies #[trigger] d.told_apart(
        s,
        t,
    ) by {
        assert(cur[s as int] < fresh);
        assert(cur[t as int] < fresh);
        if cur[s as int] != cur[t as int] {
            assert(d.told_apart(s, t));
        } else if hit[s as int] {
            lemma_marked_apart(d, of0, hit, c, blk, s, t);
        } else {
            lemma_marked_apart(d, of0, hit, c, blk, t, s);
            let w = choose|w: Seq<u8>| d.outcome(t, w) != d.outcome(s, w);
            assert(d.outcome(s, w) != d.outcome(t, w));
        }
    }
}

/// A state that goes on `c` into the block `blk` is told apart from one
/// that does not.
pub proof fn lemma_marked_apart(
    d: DfaModel,
    of0: Seq<usize>,
    hit: Seq<bool>,
    c: u8,
    blk: usize,
    s: usize,
    t: usize,
)
    requires
        d.wf(),
        of0.len() == d.rows.len(),
        marks_entering(d, of0, hit, c, blk),
        separates(d, of0),
        s < of0.len(),
        t < of0.len(),
        hit[s as int],
        !hit[t as int],
    ensures
        d.told_apart(s, t),
{
    assert(enters(d, of0, s, c, blk));
    assert(!enters(d, of0, t, c, blk));
    let u = d.rows[s as int][c as int]->Some_0;
    match d.rows[t as int][c as int] {
        Some(v) => {
            assert(d.told_apart(u, v));
            let w = choose|w: Seq<u8>| d.outcome(u, w) != d.outcome(v, w);
            lemma_outcome_step(d, s, c, u, w);
            lemma_outcome_step(d, t, c, v, w);
            assert(d.outcome(s, seq![c] + w) != d.outcome(t, seq![c] + w));
        },
        None => {
            let w = Seq::<u8>::empty();
            lemma_outcome_step(d, s, c, u, w);
            let whole = seq![c] + w;
            assert(whole[0] == c);
            assert(d.outcome(t, whole) is None);
            assert(d.outcome(u, w) is Some);
            assert(d.outcome(s, whole) != d.outcome(t, whole));
        },
    }
}

impl DFA {
    /// Splits blocks until no byte tells two states of one block apart.
    ///
    /// A worklist holds pairs of a block and a byte. For each pair taken from
    /// it, the states that go into the block on the byte are marked, and
    /// every block that holds both marked and unmarked states is split: the
    /// marked ones become a new block. Both halves then go back into the
    /// worklist with every byte. Blocks are only ever split: states that end
    /// in one block began in one block.
    fn refine(
        &self,
        partition: &mut Vec<StateSet>,
        state_to_group: &mut Vec<usize>,
        num_states: usize,
    )
        requires
            self@.wf(),
            num_states == self.states.len(),
            partitions(self@, views(old(partition)@), old(state_to_group)@),
            separates(self@, old(state_to_group)@),
        ensures
            partitions(self@, views(final(partition)@), final(state_to_group)@),
            congruent(self@, final(state_to_group)@),
            separates(self@, final(state_to_group)@),
            final(partition).len() >= old(partition).len(),
            forall|s: usize, t: usize| #[trigger]
                same_block(final(state_to_group)@, s, t) ==> same_block(old(state_to_group)@, s, t),
    {
        let ghost d = self@;
        let mut worklist = seed(partition.len());
        assert forall|g: usize, c: u8| g < partition.len() implies #[trigger] settled(
            d,
            state_to_group@,
            worklist@,
            g,
            c,
        ) by {
            assert(worklist@.contains((g, c)));
        }
        while worklist.len() > 0
            invariant
                d == self@,
                d.wf(),
                num_states == self.states.len(),
                partitions(d, views(partition@), state_to_group@),
                separates(d, state_to_group@),
                covered(d, state_to_group@, partition.len() as nat, worklist@, None),
                forall|x: (usize, u8)| worklist@.contains(x) ==> x.0 < partition.len(),
                partition.len() >= old(partition).len(),
            decreases num_states - partition.len(), worklist.len(),
        {
            proof {
                lemma_block_count(d, views(partition@), state_to_group@);
            }
            let ghost waiting = worklist@;
            let (blk, c) = worklist.pop_front().unwrap();
            proof {
                assert(waiting[0] == (blk, c));
                assert(waiting.contains((blk, c)));
                assert forall|x: (usize, u8)| waiting.contains(x) && x != (blk, c)
                    implies worklist@.contains(
                    x,
                ) by {
                    let k = choose|k: int| 0 <= k < waiting.len() && waiting[k] == x;
                    assert(worklist@[k - 1] == x);
                }
                assert forall|x: (usize, u8)| worklist@.contains(x) implies x.0
                    < partition.len() by {
                    let k = choose|k: int| 0 <= k < worklist@.len() && worklist@[k] == x;
                    assert(waiting[k + 1] == x);
                    assert(waiting.contains(x));
                }
            }
            let hit = self.mark_entering(&partition[blk], c);
            let ghost of0 = state_to_group@;
            let groups = partition.len();
            let ghost popped = worklist@.len();
            proof {
                assert(views(partition@)[blk as int] == partition[blk as int]@);
                assert forall|s: usize| s < hit.len() implies (#[trigger] hit[s as int] <==> enters(
                    d,
                    of0,
                    s,
                    c,
                    blk,
                )) by {
                    match d.rows[s as int][c as int] {
                        Some(t) => {
                            assert(views(partition@)[blk as int].contains(t) <==> t < of0.len()
                                && of0[t as int] == blk);
                        },
                        None => {},
                    }
                }
                assert forall|h: usize, a: u8|
                    h < groups && Some((blk, c)) != Some((h, a)) implies #[trigger] settled(
                    d,
                    of0,
                    worklist@,
                    h,
                    a,
                ) by {
                    assert(settled(d, of0, waiting, h, a));
                    if waiting.contains((h, a)) {
                        assert((h, a) != (blk, c));
                    }
                }
            }
            let mut g: usize = 0;
            while g < groups
                invariant
                    d == self@,
                    d.wf(),
                    num_states == self.states.len(),
                    hit.len() == num_states,
                    partitions(d, views(partition@), state_to_group@),
                    g <= groups <= partition.len(),
                    blk < groups,
                    marks_entering(d, of0, hit@, c, blk),
                    separates(d, of0),
                    separates(d, state_to_group@),
                    drifted(of0, state_to_group@, groups, g),
                    uniform(state_to_group@, hit@, groups, g),
                    covered(
                        d,
                        state_to_group@,
                        partition.len() as nat,
                        worklist@,
                        Some((blk, c)),
                    ),
                    worklist@.contains((blk, c)) || forall|s: int|
                        0 <= s < of0.len() && #[trigger] of0[s] == blk ==> state_to_group[s] == blk,
                    partition.len() > groups || worklist@.len() == popped,
                    forall|x: (usize, u8)| worklist@.contains(x) ==> x.0 < partition.len(),
                decreases groups - g,
            {
                proof {
                    lemma_block_count(d, views(partition@), state_to_group@);
                }
                let members = elements(&partition[g]);
                let ghost cur = state_to_group@;
                proof {
                    assert(views(partition@)[g as int] == partition[g as int]@);
                    assert forall|i: int| 0 <= i < members.len() implies (#[trigger] members[i])
                        < hit.len() && cur[members[i] as int] == g by {
                        assert(members@.contains(members[i]));
                        assert(views(partition@)[g as int].contains(members[i]));
                    }
                }
                let (any_hit, any_miss) = scan(&members, &hit);
                if any_hit && any_miss {
                    let fresh = partition.len();
                    let ghost before = worklist@;
                    split(partition, state_to_group, &members, &hit, g, Ghost(d));
                    enqueue_block(&mut worklist, g);
                    enqueue_block(&mut worklist, fresh);
                    proof {
                        let next = state_to_group@;
                        assert(split_by(cur, next, hit@, g, fresh));
                        lemma_sweep_split(of0, cur, next, hit@, groups, g, fresh);
                        lemma_split_separates(d, of0, cur, next, hit@, g, fresh, c, blk);
                        lemma_covered_split(
                            d,
                            cur,
                            next,
                            g,
                            fresh,
                            before,
                            worklist@,
                            Some((blk, c)),
                        );
                        if g != blk && !worklist@.contains((blk, c)) {
                            assert forall|s: int|
                                0 <= s < of0.len() && #[trigger] of0[s] == blk implies next[s]
                                == blk by {
                                assert(cur[s] == blk);
                            }
                        }
                    }
                } else {
                    proof {
                        assert forall|s: usize, t: usize|
                            #[trigger] same_block(cur, s, t) && cur[s as int] == g implies hit[s as int]
                            == hit[t as int] by {
                            assert(views(partition@)[g as int].contains(s));
                            assert(views(partition@)[g as int].contains(t));
                            assert(members@.contains(s));
                            assert(members@.contains(t));
                            let i = choose|i: int| 0 <= i < members@.len() && members@[i] == s;
                            let j = choose|j: int| 0 <= j < members@.len() && members@[j] == t;
                            assert(members[i] == s);
                            assert(members[j] == t);
                        }
                        lemma_sweep_pass(of0, cur, hit@, groups, g);
                    }
                }
                g += 1;
            }
            proof {
                lemma_block_count(d, views(partition@), state_to_group@);
                lemma_sweep_done(d, of0, state_to_group@, hit@, groups, blk, c, worklist@);
                assert forall|h: usize, a: u8| h < partition.len() implies #[trigger] settled(
                    d,
                    state_to_group@,
                    worklist@,
                    h,
                    a,
                ) by {
                    if (h, a) != (blk, c) {
                        assert(Some((blk, c)) != Some((h, a)));
                    }
                }
            }
        }
        proof {
            assert forall|g: usize, c: u8| g < partition.len() implies #[trigger] stable(
                d,
                state_to_group@,
                g,
                c,
            ) by {
                assert(settled(d, state_to_group@, worklist@, g, c));
            }
            lemma_stable_congruent(d, views(partition@), state_to_group@);
            assert forall|s: usize, t: usize| #[trigger]
                same_block(state_to_group@, s, t) implies same_block(old(state_to_group)@, s, t) by {
                if old(state_to_group)@[s as int] != old(state_to_group)@[t as int] {
                    assert(d.told_apart(s, t));
                    let w = choose|w: Seq<u8>| d.outcome(s, w) != d.outcome(t, w);
                    lemma_congruent_alike(d, state_to_group@, s, t, w);
                }
            }
        }
    }

    /// The automaton in which all states that no input tells apart have
    /// become one: it accepts what this automaton accepts, has no more
    /// states, and no two of its states are alike.
    pub fn minimize(&self) -> (min: DFA)
        requires
            self@.wf(),
        ensures
            min@.wf(),
            forall|w: Seq<u8>| min@.accepts(w) == self@.accepts(w),
            min.states.len() <= self.states.len(),
            forall|i: usize, j: usize|
                i < min.states.len() && j < min.states.len() && i != j ==> #[trigger] min@.told_apart(
                    i,
                    j,
                ),
            exists|block_of: Seq<usize>| merges_alike(min@, self@, block_of),
            self@.connected() ==> min@.connected(),
            self@.live() ==> min@.live() && min@.reduced(),
    {
        let num_states = self.states.len();
        let ghost d = self@;
        let mut partition: Vec<StateSet> = Vec::new();
        let mut state_to_group: Vec<usize> = Vec::new();

        let accepting = duplicate(&self.accepting);
        let mut non_accepting = with_capacity(num_states);
        let has_accepting = !is_empty(&accepting);
        let other: usize = if has_accepting {
            1
        } else {
            0
        };
        let mut state: usize = 0;
        while state < num_states
            invariant
                state <= num_states,
                num_states == self.states.len(),
                d == self@,
                state_to_group.len() == state,
                other == if has_accepting {
                    1usize
                } else {
                    0usize
                },
                has_accepting == (d.accepting != Set::<usize>::empty()),
                forall|s: usize|
                    non_accepting@.contains(s) <==> s < state && !d.accepting.contains(s),
                forall|s: int|
                    0 <= s < state ==> #[trigger] state_to_group[s] == if d.accepting.contains(
                        s as usize,
                    ) {
                        0
                    } else {
                        other
                    },
            decreases num_states - state,
        {
            if contains(&self.accepting, state) {
                state_to_group.push(0);
            } else {
                let ghost before = non_accepting@;
                insert(&mut non_accepting, state);
                assert(non_accepting@ == before.insert(state));
                state_to_group.push(other);
            }
            state += 1;
        }
        let ghost others = non_accepting@;
        let has_others = !is_empty(&non_accepting);
        if has_accepting {
            partition.push(accepting);
        }
        if has_others {
            partition.push(non_accepting);
        }
        proof {
            let blocks = views(partition@);
            let of = state_to_group@;
            if has_accepting {
                assert(blocks[0] == d.accepting);
                lemma_inhabited(d.accepting);
            }
            if has_others {
                assert(blocks[blocks.len() - 1] == others);
                lemma_inhabited(others);
            }
            assert forall|s: int| 0 <= s < of.len() implies (#[trigger] of[s]) < blocks.len() by {
                if d.accepting.contains(s as usize) {
                } else {
                    assert(others.contains(s as usize));
                }
            }
            assert forall|g: int, s: usize| 0 <= g < blocks.len() implies (
            #[trigger] blocks[g].contains(s) <==> s < of.len() && of[s as int] == g) by {
                if s < of.len() {
                    assert(of[s as int] == if d.accepting.contains(s) {
                        0
                    } else {
                        other
                    });
                }
            }
            assert forall|s: usize, t: usize| #[trigger] same_block(of, s, t) implies (
            d.accepting.contains(s) <==> d.accepting.contains(t)) by {
                if d.accepting.contains(s) != d.accepting.contains(t) {
                    assert(has_accepting);
                }
            }
            assert(partitions(d, blocks, of));
            assert forall|s: usize, t: usize|
                s < of.len() && t < of.len() && of[s as int] != of[t as int]
                    implies #[trigger] d.told_apart(
                s,
                t,
            ) by {
                let none = Seq::<u8>::empty();
                assert(d.outcome(s, none) != d.outcome(t, none));
            }
        }

        self.refine(&mut partition, &mut state_to_group, num_states);

        let ghost of = state_to_group@;
        let ghost blocks = views(partition@);
        proof {
            lemma_block_count(d, blocks, of);
        }
        let count = partition.len();
        let mut new_states: Vec<[Option<usize>; 256]> = Vec::new();
        let mut new_accepting = with_capacity(count);
        let new_start = state_to_group[self.start];
        let ghost mut reps: Seq<usize> = Seq::empty();
        let mut i: usize = 0;
        while i < count
            invariant
                i <= count,
                count == partition.len(),
                num_states == self.states.len(),
                d == self@,
                d.wf(),
                of == state_to_group@,
                blocks == views(partition@),
                partitions(d, blocks, of),
                new_states.len() == i,
                reps.len() == i,
                forall|j: int| 0 <= j < i
                    ==> (#[trigger] reps[j]) < num_states && of[reps[j] as int] == j,
                forall|s: usize| new_accepting@.contains(s) ==> s < i,
                forall|j: int|
                    0 <= j < i ==> (new_accepting@.contains(j as usize) <==> d.accepting.contains(
                        #[trigger] reps[j],
                    )),
                forall|j: int, c: u8|
                    0 <= j < i ==> #[trigger] new_states[j]@[c as int] == match d.rows[reps[j] as int][c as int] {
                        Some(t) => Some(of[t as int]),
                        None => None,
                    },
            decreases count - i,
        {
            let members = elements(&partition[i]);
            proof {
                assert(blocks[i as int] == partition[i as int]@);
                assert(inhabited(blocks[i as int]));
                let s = choose|s: usize| blocks[i as int].contains(s);
                assert(members@.contains(s));
            }
            let rep = members[0];
            proof {
                assert(members@.contains(rep));
                assert(blocks[i as int].contains(rep));
            }
            let mut row: [Option<usize>; 256] = [None;256];
            let mut b: usize = 0;
            while b < 256
                invariant
                    b <= 256,
                    rep < num_states,
                    num_states == self.states.len(),
                    d == self@,
                    d.wf(),
                    of == state_to_group@,
                    of.len() == num_states,
                    forall|c: int|
                        0 <= c < b ==> #[trigger] row@[c] == match d.rows[rep as int][c] {
                            Some(t) => Some(of[t as int]),
                            None => None,
                        },
                    forall|c: int| b <= c < 256 ==> row@[c] is None,
                decreases 256 - b,
            {
                assert(d.rows[rep as int] == self.states[rep as int]@);
                match self.states[rep][b] {
                    Some(t) => {
                        row[b] = Some(state_to_group[t]);
                    },
                    None => {},
                }
                b += 1;
            }
            let ghost acc = new_accepting@;
            if contains(&self.accepting, rep) {
                insert(&mut new_accepting, i);
                assert(new_accepting@ == acc.insert(i));
            }
            new_states.push(row);
            proof {
                reps = reps.push(rep);
            }
            i += 1;
        }
        let min = DFA { states: new_states, start: new_start, accepting: new_accepting };
        proof {
            let q = min@;
            assert(q.rows.len() == count);
            assert forall|s: int, b: int| 0 <= s < q.rows.len() && 0 <= b < 256
                implies match #[trigger] q.rows[s][b] {
                Some(t) => t < q.rows.len(),
                None => true,
            } by {
                assert(q.rows[s][b] == new_states[s]@[b as u8 as int]);
            }
            assert(q.wf());
            assert forall|s: usize| s < of.len() implies (q.accepting.contains(
                #[trigger] of[s as int],
            ) <==> d.accepting.contains(s)) by {
                let r = reps[of[s as int] as int];
                assert(same_block(of, s, r));
            }
            assert forall|s: usize, c: u8| s < of.len()
                implies match #[trigger] d.rows[s as int][c as int] {
                Some(t) => q.rows[of[s as int] as int][c as int] == Some(of[t as int]),
                None => q.rows[of[s as int] as int][c as int] is None,
            } by {
                let j = of[s as int];
                let r = reps[j as int];
                assert(same_block(of, s, r));
                assert(crate::partition::agree_on(d, of, s, r, c));
                assert(q.rows[j as int][c as int] == new_states[j as int]@[c as int]);
            }
            assert(is_quotient(q, d, of));
            assert forall|w: Seq<u8>| q.accepts(w) == d.accepts(w) by {
                lemma_quotient(q, d, of, w);
            }
            assert forall|s: usize, t: usize| s < of.len() && t < of.len() implies (of[s as int]
                == of[t as int] <==> #[trigger] d.alike(s, t)) by {
                lemma_blocks_are_alike(d, of, s, t);
            }
            assert forall|i: usize| i < q.rows.len() implies #[trigger] is_block(of, i) by {
                assert(of[reps[i as int] as int] == i);
            }
            assert(merges_alike(q, d, of));
            assert forall|i: usize, j: usize| i < count && j < count && i != j
                implies #[trigger] q.told_apart(
                i,
                j,
            ) by {
                let s = reps[i as int];
                let t = reps[j as int];
                assert(d.told_apart(s, t));
                let w = choose|w: Seq<u8>| d.outcome(s, w) != d.outcome(t, w);
                lemma_quotient_outcome(q, d, of, s, w);
                lemma_quotient_outcome(q, d, of, t, w);
                assert(q.outcome(i, w) != q.outcome(j, w));
            }
            if d.connected() {
                lemma_quotient_connected(q, d, of);
            }
            if d.live() {
                lemma_quotient_live(q, d, of);
                q.lemma_live_reduced();
            }
        }
        min
    }
}

/// `q` is the quotient of `d` by the partition that puts two states in one
/// block exactly if every input has the same outcome from both.
pub open spec fn merges_alike(q: DfaModel, d: DfaModel, block_of: Seq<usize>) -> bool {
    &&& is_quotient(q, d, block_of)
    &&& onto(q, block_of)
    &&& forall|s: usize, t: usize|
        s < block_of.len() && t < block_of.len() ==> (block_of[s as int] == block_of[t as int]
            <==> #[trigger] d.alike(s, t))
}

/// Where some input is accepted from every state, minimizing puts two
/// states in one block exactly if they accept the same inputs.
pub proof fn lemma_blocks_accept_alike(
    q: DfaModel,
    d: DfaModel,
    block_of: Seq<usize>,
    s: usize,
    t: usize,
)
    requires
        d.wf(),
        d.live(),
        merges_alike(q, d, block_of),
        s < d.rows.len(),
        t < d.rows.len(),
    ensures
        block_of[s as int] == block_of[t as int] <==> d.equivalent(s, t),
{
    d.lemma_live_alike(s, t);
    assert(block_of[s as int] == block_of[t as int] <==> d.alike(s, t));
}

/// A set that is not the empty set has an element.
pub proof fn lemma_inhabited(set: Set<usize>)
    requires
        set != Set::<usize>::empty(),
    ensures
        inhabited(set),
{
    if !inhabited(set) {
        assert(set =~= Set::<usize>::empty());
    }
}

} // verus!
