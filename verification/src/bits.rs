use bit_set::BitSet;
use vstd::prelude::*;

verus! {

/// A set of state indices, stored in a `bit_set::BitSet`.
#[verifier::external_body]
#[derive(Debug)]
pub struct StateSet {
    bits: BitSet,
}

/// The indices that a state set holds.
pub uninterp spec fn members(s: StateSet) -> Set<usize>;

impl View for StateSet {
    type V = Set<usize>;

    open spec fn view(&self) -> Set<usize> {
        members(*self)
    }
}

/// `BitSet::with_capacity`: a set without elements, with room for the
/// indices below `nbits`.
#[verifier::external_body]
pub(crate) fn with_capacity(nbits: usize) -> (s: StateSet)
    ensures
        members(s) == Set::<usize>::empty(),
{
    StateSet { bits: BitSet::with_capacity(nbits) }
}

/// `BitSet::clone`: a set with the same elements.
#[verifier::external_body]
pub(crate) fn duplicate(s: &StateSet) -> (copy: StateSet)
    ensures
        members(copy) == members(*s),
{
    StateSet { bits: s.bits.clone() }
}

/// `BitSet::contains`: whether the value is an element.
#[verifier::external_body]
pub(crate) fn contains(s: &StateSet, value: usize) -> (r: bool)
    ensures
        r == members(*s).contains(value),
{
    s.bits.contains(value)
}

/// `BitSet::is_empty`: whether the set has no element.
#[verifier::external_body]
pub(crate) fn is_empty(s: &StateSet) -> (r: bool)
    ensures
        r == (members(*s) == Set::<usize>::empty()),
{
    s.bits.is_empty()
}

/// `BitSet::insert`: adds the value, and tells whether it was new. The bit
/// vector behind the set grows to `value + 1` bits, which must not overflow.
#[verifier::external_body]
pub(crate) fn insert(s: &mut StateSet, value: usize) -> (r: bool)
    requires
        value < usize::MAX,
    ensures
        members(*final(s)) == members(*old(s)).insert(value),
        r == !members(*old(s)).contains(value),
{
    s.bits.insert(value)
}

/// `BitSet::iter`: the elements of the set, each of them handed out.
#[verifier::external_body]
pub(crate) fn elements(s: &StateSet) -> (all: Vec<usize>)
    ensures
        forall|v: usize| members(*s).contains(v) <==> all@.contains(v),
{
    s.bits.iter().collect()
}

impl StateSet {
    /// The set of the given indices. Each index must leave room for the one
    /// bit more that the bit vector behind the set needs.
    pub fn from_indices(indices: &[usize]) -> (set: StateSet)
        requires
            forall|i: int| 0 <= i < indices.len() ==> indices[i] < usize::MAX,
        ensures
            forall|v: usize| set@.contains(v) <==> indices@.contains(v),
    {
        let mut set = with_capacity(0);
        let n = indices.len();
        let mut i: usize = 0;
        while i < n
            invariant
                i <= n,
                n == indices.len(),
                forall|k: int| 0 <= k < indices.len() ==> indices[k] < usize::MAX,
                forall|v: usize| set@.contains(v) <==> indices@.take(i as int).contains(v),
            decreases n - i,
        {
            let ghost before = set@;
            insert(&mut set, indices[i]);
            proof {
                assert(set@ == before.insert(indices[i as int]));
                let shorter = indices@.take(i as int);
                let longer = indices@.take(i + 1);
                assert(longer =~= shorter.push(indices[i as int]));
                assert forall|v: usize| set@.contains(v) <==> longer.contains(v) by {
                    if longer.contains(v) {
                        let k = choose|k: int| 0 <= k < longer.len() && longer[k] == v;
                        if k < i {
                            assert(shorter[k] == v);
                        }
                    }
                    if shorter.contains(v) {
                        let k = choose|k: int| 0 <= k < shorter.len() && shorter[k] == v;
                        assert(longer[k] == v);
                    }
                    assert(longer[i as int] == indices[i as int]);
                }
            }
            i += 1;
        }
        assert(indices@.take(n as int) =~= indices@);
        set
    }

    /// Whether the index is in the set.
    pub fn holds(&self, index: usize) -> (r: bool)
        ensures
            r == self@.contains(index),
    {
        contains(self, index)
    }
}

} // verus!
