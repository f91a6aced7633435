//! Sets of indices, kept as a `bit_set::BitSet`.
use bit_set::BitSet;
use vstd::prelude::*;

verus! {

/// A set of indices. The bits live in a `BitSet`, which Verus does not look
/// into: what the set holds is `id_set_members`.
#[verifier::external_body]
pub struct IdSet {
    bits: BitSet,
}

/// The indices that a set holds.
pub uninterp spec fn id_set_members(s: IdSet) -> Set<usize>;

impl IdSet {
    /// `BitSet::new`: a set without members.
    #[verifier::external_body]
    pub(crate) fn new() -> (s: IdSet)
        ensures
            id_set_members(s) == Set::<usize>::empty(),
    {
        IdSet { bits: BitSet::new() }
    }

    /// `BitSet::with_capacity`: a set without members, with room for the
    /// indices below `nbits`.
    #[verifier::external_body]
    pub(crate) fn with_capacity(nbits: usize) -> (s: IdSet)
        ensures
            id_set_members(s) == Set::<usize>::empty(),
    {
        IdSet { bits: BitSet::with_capacity(nbits) }
    }

    /// `BitSet::contains`: whether `value` is a member.
    #[verifier::external_body]
    pub(crate) fn contains(&self, value: usize) -> (present: bool)
        ensures
            present == id_set_members(*self).contains(value),
    {
        self.bits.contains(value)
    }

    /// `BitSet::insert`: adds `value` and tells whether it was absent. The
    /// set grows to `value + 1` bits, a number that has to fit in `usize`.
    #[verifier::external_body]
    pub(crate) fn insert(&mut self, value: usize) -> (fresh: bool)
        requires
            value < usize::MAX,
        ensures
            id_set_members(*final(self)) == id_set_members(*old(self)).insert(value),
            fresh == !id_set_members(*old(self)).contains(value),
    {
        self.bits.insert(value)
    }

    /// `BitSet::remove`: takes `value` out and tells whether it was a member.
    #[verifier::external_body]
    pub(crate) fn remove(&mut self, value: usize) -> (present: bool)
        ensures
            id_set_members(*final(self)) == id_set_members(*old(self)).remove(value),
            present == id_set_members(*old(self)).contains(value),
    {
        self.bits.remove(value)
    }
}

} // verus!
