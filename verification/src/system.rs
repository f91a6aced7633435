//! Systems: units of work that declare which resources they read and write.
use crate::access::Access;
use crate::mappings::{granted, slot_of, type_key, Mappings};
use crate::resources::{indices, resource_id_for, ResourceId, ResourceMissing, Resources};
use std::any::TypeId;
use std::marker::PhantomData;
use vstd::prelude::*;

verus! {

/// Id of a registered system. Ids are dense: they index vectors and bit sets.
#[derive(Debug, Clone, Copy, PartialEq, Eq, Default, Hash, Structural)]
pub struct SystemId(pub usize);

/// A system as the scheduler sees it: an id, and the resources that the
/// system reads and writes. The id and the two lists never change while the
/// system lives, and a system touches no resource outside the two lists.
pub trait RawSystem {
    /// The resources that the system reads.
    spec fn reads(&self) -> Seq<ResourceId>;

    /// The resources that the system writes.
    spec fn writes(&self) -> Seq<ResourceId>;

    /// The id of the system.
    spec fn own_id(&self) -> SystemId;

    /// The id of the system.
    fn id(&self) -> (id: SystemId)
        ensures
            id == self.own_id(),
    ;

    /// The resources that the system reads.
    fn resource_reads(&self) -> (reads: &[ResourceId])
        ensures
            reads@ == self.reads(),
    ;

    /// The resources that the system writes.
    fn resource_writes(&self) -> (writes: &[ResourceId])
        ensures
            writes@ == self.writes(),
    ;
}

/// What a system declares, by resource number.
pub open spec fn access_of<S: RawSystem>(system: S) -> Access {
    Access { reads: indices(system.reads()), writes: indices(system.writes()) }
}

/// The id of the system type `T`: the one it has in `ids`, or else the next
/// one, which it keeps. Which key stands for `T` is not known here; the id is
/// the one that `ids` gives for that key.
pub fn system_id_for<T: 'static>(ids: &mut Mappings) -> (id: SystemId)
    requires
        old(ids).wf(),
    ensures
        final(ids).wf(),
        exists|key: TypeId|
            id.0 == #[trigger] slot_of(old(ids)@, key) && final(ids)@ == granted(old(ids)@, key)
                && final(ids)@[id.0 as int] == Some(key),
{
    let key = type_key::<T>();
    let ghost before = ids@;
    let id = ids.get_or_alloc(key);
    assert(id == slot_of(before, key));
    SystemId(id)
}

/// One or more resource handles: what a system takes as its input.
pub trait SystemData {
    /// The resources that the handles read.
    spec fn declared_reads(&self) -> Seq<ResourceId>;

    /// The resources that the handles write.
    spec fn declared_writes(&self) -> Seq<ResourceId>;

    /// The resources that the handles read.
    fn reads(&self) -> (reads: Vec<ResourceId>)
        ensures
            reads@ == self.declared_reads(),
    ;

    /// The resources that the handles write.
    fn writes(&self) -> (writes: Vec<ResourceId>)
        ensures
            writes@ == self.declared_writes(),
    ;
}

/// A shared handle: the system reads the resource of type `T`.
pub struct Read<T> {
    id: ResourceId,
    marker: PhantomData<T>,
}

/// An exclusive handle: the system reads and writes the resource of type `T`.
pub struct Write<T> {
    id: ResourceId,
    marker: PhantomData<T>,
}

impl<T: 'static> Read<T> {
    /// The resource that the handle stands for.
    pub closed spec fn resource(&self) -> ResourceId {
        self.id
    }

    /// A handle for the resource type `T`, whose id comes from `ids`.
    pub fn new(ids: &mut Mappings) -> (handle: Self)
        requires
            old(ids).wf(),
        ensures
            final(ids).wf(),
            exists|key: TypeId|
                handle.resource().0 == #[trigger] slot_of(old(ids)@, key) && final(ids)@
                    == granted(old(ids)@, key),
    {
        let ghost before = ids@;
        let id = resource_id_for::<T>(ids);
        proof {
            let key = choose|key: TypeId|
                id.0 == #[trigger] slot_of(before, key) && ids@ == granted(before, key);
            assert(id.0 == slot_of(before, key));
        }
        Read { id, marker: PhantomData }
    }

    /// The resource that the handle stands for.
    pub fn id(&self) -> (id: ResourceId)
        ensures
            id == self.resource(),
    {
        self.id
    }

    /// Borrows the value of the resource from a store.
    pub fn load<'a, V>(&self, store: &'a Resources<V>) -> (found: Result<&'a V, ResourceMissing>)
        ensures
            match found {
                Ok(value) => store.holds(self.resource()) && store@[self.resource().0 as int]
                    == Some(*value),
                Err(e) => !store.holds(self.resource()) && e == ResourceMissing(self.resource()),
            },
    {
        store.get(self.id)
    }
}

impl<T: 'static> Write<T> {
    /// The resource that the handle stands for.
    pub closed spec fn resource(&self) -> ResourceId {
        self.id
    }

    /// A handle for the resource type `T`, whose id comes from `ids`.
    pub fn new(ids: &mut Mappings) -> (handle: Self)
        requires
            old(ids).wf(),
        ensures
            final(ids).wf(),
            exists|key: TypeId|
                handle.resource().0 == #[trigger] slot_of(old(ids)@, key) && final(ids)@
                    == granted(old(ids)@, key),
    {
        let ghost before = ids@;
        let id = resource_id_for::<T>(ids);
        proof {
            let key = choose|key: TypeId|
                id.0 == #[trigger] slot_of(before, key) && ids@ == granted(before, key);
            assert(id.0 == slot_of(before, key));
        }
        Write { id, marker: PhantomData }
    }

    /// The resource that the handle stands for.
    pub fn id(&self) -> (id: ResourceId)
        ensures
            id == self.resource(),
    {
        self.id
    }

    /// Borrows the value of the resource from a store, to be changed in
    /// place.
    pub fn load<'a, V>(&self, store: &'a mut Resources<V>) -> (found: Result<
        &'a mut V,
        ResourceMissing,
    >)
        ensures
            match found {
                Ok(value) => old(store).holds(self.resource()) && old(
                    store,
                )@[self.resource().0 as int] == Some(*value) && final(store)@ == old(
                    store,
                )@.update(self.resource().0 as int, Some(*final(value))),
                Err(e) => !old(store).holds(self.resource()) && e == ResourceMissing(
                    self.resource(),
                ) && final(store)@ == old(store)@,
            },
    {
        store.get_mut(self.id)
    }
}

/// Handles given as two lists of resource ids, for input that no tuple of
/// `Read` and `Write` describes.
pub struct Declared {
    pub reads: Vec<ResourceId>,
    pub writes: Vec<ResourceId>,
}

/// A copy of `ids`.
fn copy_of(ids: &Vec<ResourceId>) -> (copy: Vec<ResourceId>)
    ensures
        copy@ == ids@,
{
    let mut copy: Vec<ResourceId> = Vec::new();
    let mut i: usize = 0;
    while i < ids.len()
        invariant
            i <= ids.len(),
            copy@ == ids@.take(i as int),
        decreases ids.len() - i,
    {
        copy.push(ids[i]);
        assert(ids@.take(i + 1) =~= ids@.take(i as int).push(ids@[i as int]));
        i += 1;
    }
    assert(ids@.take(ids@.len() as int) =~= ids@);
    copy
}

impl SystemData for Declared {
    open spec fn declared_reads(&self) -> Seq<ResourceId> {
        self.reads@
    }

    open spec fn declared_writes(&self) -> Seq<ResourceId> {
        self.writes@
    }

    fn reads(&self) -> (reads: Vec<ResourceId>) {
        copy_of(&self.reads)
    }

    fn writes(&self) -> (writes: Vec<ResourceId>) {
        copy_of(&self.writes)
    }
}

impl From<usize> for SystemId {
    fn from(x: usize) -> (id: Self) {
        SystemId(x)
    }
}

impl vstd::std_specs::convert::FromSpecImpl<usize> for SystemId {
    open spec fn obeys_from_spec() -> bool {
        true
    }

    open spec fn from_spec(x: usize) -> Self {
        SystemId(x)
    }
}

impl SystemData for () {
    open spec fn declared_reads(&self) -> Seq<ResourceId> {
        Seq::empty()
    }

    open spec fn declared_writes(&self) -> Seq<ResourceId> {
        Seq::empty()
    }

    fn reads(&self) -> (reads: Vec<ResourceId>) {
        Vec::new()
    }

    fn writes(&self) -> (writes: Vec<ResourceId>) {
        Vec::new()
    }
}

impl<T: 'static> SystemData for Read<T> {
    open spec fn declared_reads(&self) -> Seq<ResourceId> {
        seq![self.resource()]
    }

    open spec fn declared_writes(&self) -> Seq<ResourceId> {
        Seq::empty()
    }

    fn reads(&self) -> (reads: Vec<ResourceId>) {
        let mut reads = Vec::new();
        reads.push(self.id);
        assert(reads@ =~= seq![self.resource()]);
        reads
    }

    fn writes(&self) -> (writes: Vec<ResourceId>) {
        Vec::new()
    }
}

impl<T: 'static> SystemData for Write<T> {
    open spec fn declared_reads(&self) -> Seq<ResourceId> {
        Seq::empty()
    }

    open spec fn declared_writes(&self) -> Seq<ResourceId> {
        seq![self.resource()]
    }

    fn reads(&self) -> (reads: Vec<ResourceId>) {
        Vec::new()
    }

    fn writes(&self) -> (writes: Vec<ResourceId>) {
        let mut writes = Vec::new();
        writes.push(self.id);
        assert(writes@ =~= seq![self.resource()]);
        writes
    }
}

impl<A: SystemData> SystemData for (A,) {
    open spec fn declared_reads(&self) -> Seq<ResourceId> {
        self.0.declared_reads()
    }

    open spec fn declared_writes(&self) -> Seq<ResourceId> {
        self.0.declared_writes()
    }

    fn reads(&self) -> (reads: Vec<ResourceId>) {
        self.0.reads()
    }

    fn writes(&self) -> (writes: Vec<ResourceId>) {
        self.0.writes()
    }
}

impl<A: SystemData, B: SystemData> SystemData for (A, B) {
    open spec fn declared_reads(&self) -> Seq<ResourceId> {
        self.0.declared_reads() + self.1.declared_reads()
    }

    open spec fn declared_writes(&self) -> Seq<ResourceId> {
        self.0.declared_writes() + self.1.declared_writes()
    }

    fn reads(&self) -> (reads: Vec<ResourceId>) {
        let mut reads = self.0.reads();
        let mut more = self.1.reads();
        reads.append(&mut more);
        reads
    }

    fn writes(&self) -> (writes: Vec<ResourceId>) {
        let mut writes = self.0.writes();
        let mut more = self.1.writes();
        writes.append(&mut more);
        writes
    }
}

impl<A: SystemData, B: SystemData, C: SystemData> SystemData for (A, B, C) {
    open spec fn declared_reads(&self) -> Seq<ResourceId> {
        self.0.declared_reads() + self.1.declared_reads() + self.2.declared_reads()
    }

    open spec fn declared_writes(&self) -> Seq<ResourceId> {
        self.0.declared_writes() + self.1.declared_writes() + self.2.declared_writes()
    }

    fn reads(&self) -> (reads: Vec<ResourceId>) {
        let mut reads = self.0.reads();
        let mut more = self.1.reads();
        reads.append(&mut more);
        let mut more = self.2.reads();
        reads.append(&mut more);
        reads
    }

    fn writes(&self) -> (writes: Vec<ResourceId>) {
        let mut writes = self.0.writes();
        let mut more = self.1.writes();
        writes.append(&mut more);
        let mut more = self.2.writes();
        writes.append(&mut more);
        writes
    }
}

impl<A: SystemData, B: SystemData, C: SystemData, D: SystemData> SystemData for (A, B, C, D) {
    open spec fn declared_reads(&self) -> Seq<ResourceId> {
        self.0.declared_reads() + self.1.declared_reads() + self.2.declared_reads()
            + self.3.declared_reads()
    }

    open spec fn declared_writes(&self) -> Seq<ResourceId> {
        self.0.declared_writes() + self.1.declared_writes() + self.2.declared_writes()
            + self.3.declared_writes()
    }

    fn reads(&self) -> (reads: Vec<ResourceId>) {
        let mut reads = self.0.reads();
        let mut more = self.1.reads();
        reads.append(&mut more);
        let mut more = self.2.reads();
        reads.append(&mut more);
        let mut more = self.3.reads();
        reads.append(&mut more);
        reads
    }

    fn writes(&self) -> (writes: Vec<ResourceId>) {
        let mut writes = self.0.writes();
        let mut more = self.1.writes();
        writes.append(&mut more);
        let mut more = self.2.writes();
        writes.append(&mut more);
        let mut more = self.3.writes();
        writes.append(&mut more);
        writes
    }
}

/// The empty tuple adds nothing to the handles it stands beside.
pub proof fn lemma_unit_is_identity<A: SystemData>(data: A)
    ensures
        (data, ()).declared_reads() == data.declared_reads(),
        (data, ()).declared_writes() == data.declared_writes(),
        ((), data).declared_reads() == data.declared_reads(),
        ((), data).declared_writes() == data.declared_writes(),
{
    assert((data, ()).declared_reads() =~= data.declared_reads());
    assert((data, ()).declared_writes() =~= data.declared_writes());
    assert(((), data).declared_reads() =~= data.declared_reads());
    assert(((), data).declared_writes() =~= data.declared_writes());
}

/// A system with its id and with what its handles declare, kept at hand for
/// the scheduler.
pub struct CachedSystem<S> {
    inner: S,
    id: SystemId,
    resource_reads: Vec<ResourceId>,
    resource_writes: Vec<ResourceId>,
}

impl<S> CachedSystem<S> {
    /// The system that is wrapped.
    pub closed spec fn system(&self) -> S {
        self.inner
    }

    /// Wraps `inner`, which takes `data` as its input. The system gets the
    /// next id of `ids`.
    pub fn new<D: SystemData>(inner: S, data: &D, ids: &mut Mappings) -> (cached: Self)
        requires
            old(ids).wf(),
        ensures
            final(ids).wf(),
            final(ids)@ == old(ids)@.push(None),
            cached.system() == inner,
            cached.own_id() == SystemId(old(ids)@.len() as usize),
            cached.reads() == data.declared_reads(),
            cached.writes() == data.declared_writes(),
    {
        CachedSystem {
            id: SystemId(ids.allocate()),
            resource_reads: data.reads(),
            resource_writes: data.writes(),
            inner,
        }
    }

    /// The system that is wrapped.
    pub fn inner(&self) -> (inner: &S)
        ensures
            *inner == self.system(),
    {
        &self.inner
    }

    /// The system that is wrapped, to be run.
    pub fn inner_mut(&mut self) -> (inner: &mut S)
        ensures
            *inner == old(self).system(),
            final(self).system() == *final(inner),
            final(self).own_id() == old(self).own_id(),
            final(self).reads() == old(self).reads(),
            final(self).writes() == old(self).writes(),
    {
        &mut self.inner
    }
}

impl<S> RawSystem for CachedSystem<S> {
    closed spec fn reads(&self) -> Seq<ResourceId> {
        self.resource_reads@
    }

    closed spec fn writes(&self) -> Seq<ResourceId> {
        self.resource_writes@
    }

    closed spec fn own_id(&self) -> SystemId {
        self.id
    }

    fn id(&self) -> (id: SystemId) {
        self.id
    }

    fn resource_reads(&self) -> (reads: &[ResourceId]) {
        self.resource_reads.as_slice()
    }

    fn resource_writes(&self) -> (writes: &[ResourceId]) {
        self.resource_writes.as_slice()
    }
}

} // verus!
