//! Short lists of indices, kept as a `smallvec::SmallVec`.
use smallvec::SmallVec;
use vstd::prelude::*;

verus! {

/// A list of indices that stays out of the heap while it is short. The items
/// live in a `SmallVec`, which Verus does not look into: what the list holds
/// is `id_list_items`.
#[verifier::external_body]
pub struct IdList {
    items: SmallVec<[usize; 8]>,
}

/// The items of a list, first to last.
pub uninterp spec fn id_list_items(v: IdList) -> Seq<usize>;

impl IdList {
    /// `SmallVec::new`: a list without items.
    #[verifier::external_body]
    pub(crate) fn new() -> (v: IdList)
        ensures
            id_list_items(v) == Seq::<usize>::empty(),
    {
        IdList { items: SmallVec::new() }
    }

    /// `SmallVec::push`: appends `value`. As with `Vec::push`, only running
    /// out of memory stops it.
    #[verifier::external_body]
    pub(crate) fn push(&mut self, value: usize)
        ensures
            id_list_items(*final(self)) == id_list_items(*old(self)).push(value),
    {
        self.items.push(value)
    }

    /// `SmallVec::len`: the number of items.
    #[verifier::external_body]
    pub(crate) fn len(&self) -> (n: usize)
        ensures
            n == id_list_items(*self).len(),
    {
        self.items.len()
    }

    /// Indexing a `SmallVec`: the item at position `i`.
    #[verifier::external_body]
    pub(crate) fn get(&self, i: usize) -> (item: usize)
        requires
            i < id_list_items(*self).len(),
        ensures
            item == id_list_items(*self)[i as int],
    {
        self.items[i]
    }
}

} // verus!
