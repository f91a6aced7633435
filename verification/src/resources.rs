//! The resource store: one value for each resource id.
use crate::mappings::{granted, slot_of, type_key, Mappings};
use std::any::TypeId;
use vstd::prelude::*;

verus! {

/// Id of a resource type. Ids are dense: they index vectors and bit sets.
#[derive(Debug, Clone, Copy, PartialEq, Eq, Default, Hash, Structural)]
pub struct ResourceId(pub usize);

/// No value is stored for the resource that was asked for.
#[derive(Debug, Clone, Copy, PartialEq, Eq, Structural)]
pub struct ResourceMissing(pub ResourceId);

/// The id of the resource type `T`: the one it has in `ids`, or else the next
/// one, which it keeps. Which key stands for `T` is not known here; the id is
/// the one that `ids` gives for that key.
pub fn resource_id_for<T: 'static>(ids: &mut Mappings) -> (id: ResourceId)
    requires
        old(ids).wf(),
    ensures
        final(ids).wf(),
        exists|key: TypeId|
            id.0 == #[trigger] slot_of(old(ids)@, key) && final(ids)@ == granted(old(ids)@, key)
                && final(ids)@[id.0 as int] == Some(key),
{
    let key = type_key::<T>();
    let ghost before = ids@;
    let id = ids.get_or_alloc(key);
    assert(id == slot_of(before, key));
    ResourceId(id)
}

/// The numbers of a list of resource ids.
pub open spec fn indices(ids: Seq<ResourceId>) -> Seq<usize> {
    Seq::new(ids.len(), |i: int| ids[i].0)
}

/// A store with at most one value for each resource id. Slot `i` holds the
/// value of resource `i`, if there is one.
pub struct Resources<V> {
    slots: Vec<Option<V>>,
}

impl<V> View for Resources<V> {
    type V = Seq<Option<V>>;

    closed spec fn view(&self) -> Seq<Option<V>> {
        self.slots@
    }
}

/// `slots`, made at least `len` long with empty slots.
pub open spec fn padded<V>(slots: Seq<Option<V>>, len: int) -> Seq<Option<V>> {
    if slots.len() >= len {
        slots
    } else {
        slots + Seq::new((len - slots.len()) as nat, |i: int| None::<V>)
    }
}

impl<V> Resources<V> {
    /// Whether a value is stored for `id`.
    pub open spec fn holds(&self, id: ResourceId) -> bool {
        id.0 < self@.len() && self@[id.0 as int] is Some
    }

    /// An empty store.
    pub fn new() -> (store: Self)
        ensures
            store@ == Seq::<Option<V>>::empty(),
    {
        Resources { slots: Vec::new() }
    }

    /// The number of slots: every id that holds a value is below it.
    pub fn len(&self) -> (n: usize)
        ensures
            n == self@.len(),
    {
        self.slots.len()
    }

    /// Whether a value is stored for `id`.
    pub fn contains(&self, id: ResourceId) -> (present: bool)
        ensures
            present == self.holds(id),
    {
        id.0 < self.slots.len() && self.slots[id.0].is_some()
    }

    /// Stores `value` for `id` and hands back the value that it replaces.
    pub fn insert(&mut self, id: ResourceId, value: V) -> (previous: Option<V>)
        requires
            id.0 < usize::MAX,
        ensures
            final(self)@ == padded(old(self)@, id.0 + 1).update(id.0 as int, Some(value)),
            previous == if old(self).holds(id) {
                old(self)@[id.0 as int]
            } else {
                None
            },
    {
        while self.slots.len() <= id.0
            invariant
                self.slots@ == padded(old(self)@, self.slots@.len() as int),
                old(self)@.len() <= self.slots@.len(),
                self.slots@.len() <= id.0 + 1 || self.slots@.len() == old(self)@.len(),
                id.0 < usize::MAX,
            decreases id.0 + 1 - self.slots@.len(),
        {
            self.slots.push(None);
        }
        let mut slot = Some(value);
        let ghost before = self.slots@;
        assert(before == padded(old(self)@, id.0 + 1));
        std::mem::swap(&mut self.slots[id.0], &mut slot);
        slot
    }

    /// The value of `id`.
    pub fn get(&self, id: ResourceId) -> (found: Result<&V, ResourceMissing>)
        ensures
            match found {
                Ok(value) => self.holds(id) && self@[id.0 as int] == Some(*value),
                Err(e) => !self.holds(id) && e == ResourceMissing(id),
            },
    {
        if id.0 < self.slots.len() {
            match &self.slots[id.0] {
                Some(value) => Ok(value),
                None => Err(ResourceMissing(id)),
            }
        } else {
            Err(ResourceMissing(id))
        }
    }

    /// The value of `id`, to be changed in place.
    pub fn get_mut(&mut self, id: ResourceId) -> (found: Result<&mut V, ResourceMissing>)
        ensures
            match found {
                Ok(value) => old(self).holds(id) && old(self)@[id.0 as int] == Some(*value)
                    && final(self)@ == old(self)@.update(id.0 as int, Some(*final(value))),
                Err(e) => !old(self).holds(id) && e == ResourceMissing(id) && final(self)@ == old(
                    self,
                )@,
            },
    {
        if id.0 < self.slots.len() {
            match &mut self.slots[id.0] {
                Some(value) => Ok(value),
                None => Err(ResourceMissing(id)),
            }
        } else {
            Err(ResourceMissing(id))
        }
    }
}

} // verus!
