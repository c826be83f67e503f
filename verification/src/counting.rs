use vstd::prelude::*;
use vstd::set_lib::{lemma_int_range, lemma_len_subset, set_int_range};

verus! {

/// A sequence of different integers from `0` up to, not including, `bound`
/// has at most `bound` entries.
pub proof fn lemma_distinct_bounded(values: Seq<int>, bound: int)
    requires
        0 <= bound,
        values.no_duplicates(),
        forall|i: int| 0 <= i < values.len() ==> 0 <= #[trigger] values[i] < bound,
    ensures
        values.len() <= bound,
{
    if values.len() > 0 {
        let range = set_int_range(0, bound);
        assert(0 <= values[0] < bound);
        lemma_int_range(0, bound);
        values.unique_seq_to_set();
        assert(values.to_set().subset_of(range)) by {
            assert forall|v: int| values.to_set().contains(v) implies range.contains(v) by {
                let i = choose|i: int| 0 <= i < values.len() && values[i] == v;
                assert(0 <= values[i] < bound);
            }
        }
        lemma_len_subset(values.to_set(), range);
    }
}

/// The number of subsets of a set with `n` elements.
pub open spec fn subsets_of(n: nat) -> nat
    decreases n,
{
    if n == 0 {
        1
    } else {
        2 * subsets_of((n - 1) as nat)
    }
}

/// The number that has the flags as its binary digits, the last flag lowest.
pub open spec fn code(flags: Seq<bool>) -> nat
    decreases flags.len(),
{
    if flags.len() == 0 {
        0
    } else {
        2 * code(flags.drop_last()) + if flags.last() {
            1nat
        } else {
            0nat
        }
    }
}

/// The code of `n` flags is below the number of subsets of `n` elements.
pub proof fn lemma_code_bounded(flags: Seq<bool>)
    ensures
        code(flags) < subsets_of(flags.len()),
    decreases flags.len(),
{
    if flags.len() > 0 {
        lemma_code_bounded(flags.drop_last());
    }
}

/// Flag sequences of one length with one code are equal.
pub proof fn lemma_code_injective(a: Seq<bool>, b: Seq<bool>)
    requires
        a.len() == b.len(),
        code(a) == code(b),
    ensures
        a == b,
    decreases a.len(),
{
    if a.len() > 0 {
        lemma_code_injective(a.drop_last(), b.drop_last());
        assert(a =~= a.drop_last().push(a.last()));
        assert(b =~= b.drop_last().push(b.last()));
    } else {
        assert(a =~= b);
    }
}

/// There are at most as many different flag sequences of length `n` as a set
/// of `n` elements has subsets.
pub proof fn lemma_distinct_flags(all: Seq<Seq<bool>>, n: nat)
    requires
        forall|i: int| 0 <= i < all.len() ==> (#[trigger] all[i]).len() == n,
        forall|i: int, j: int| 0 <= i < j < all.len() ==> all[i] != all[j],
    ensures
        all.len() <= subsets_of(n),
{
    let codes = Seq::new(all.len(), |i: int| code(all[i]) as int);
    assert forall|i: int| 0 <= i < codes.len() implies 0 <= #[trigger] codes[i] < subsets_of(
        n,
    ) by {
        lemma_code_bounded(all[i]);
    }
    assert(codes.no_duplicates()) by {
        assert forall|i: int, j: int|
            0 <= i < codes.len() && 0 <= j < codes.len() && i != j implies codes[i]
            != codes[j] by {
            if codes[i] == codes[j] {
                lemma_code_injective(all[i], all[j]);
                if i < j {
                    assert(all[i] != all[j]);
                } else {
                    assert(all[j] != all[i]);
                }
            }
        }
    }
    lemma_distinct_bounded(codes, subsets_of(n) as int);
}

} // verus!
