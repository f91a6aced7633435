//! Dense ids for types: each type that asks gets the next number, and keeps
//! it.
use std::any::TypeId;
use vstd::prelude::*;

verus! {

#[verifier::external_type_specification]
#[verifier::external_body]
pub struct ExTypeId(TypeId);

/// `TypeId::of`: the key of the type `T`. Nothing is stated of the key: which
/// key a type has is the compiler's choice.
#[verifier::external_body]
pub(crate) fn type_key<T: 'static>() -> TypeId {
    TypeId::of::<T>()
}

/// `==` on `TypeId`: whether the two keys are the same key.
#[verifier::external_body]
pub(crate) fn same_key(a: &TypeId, b: &TypeId) -> (same: bool)
    ensures
        same == (*a == *b),
{
    a == b
}

/// The position of `key` among `keys`; the length of `keys` if it is not
/// there.
pub open spec fn slot_of(keys: Seq<Option<TypeId>>, key: TypeId) -> int
    decreases keys.len(),
{
    if keys.len() == 0 {
        0
    } else if keys[0] == Some(key) {
        0
    } else {
        1 + slot_of(keys.skip(1), key)
    }
}

/// The keys after `key` has asked for an id: as before if it had one, and
/// with `key` at the end if not.
pub open spec fn granted(keys: Seq<Option<TypeId>>, key: TypeId) -> Seq<Option<TypeId>> {
    if keys.contains(Some(key)) {
        keys
    } else {
        keys.push(Some(key))
    }
}

/// No key stands at two positions.
pub open spec fn distinct_keys(keys: Seq<Option<TypeId>>) -> bool {
    forall|i: int, j: int|
        0 <= i < j < keys.len() && keys[i] is Some ==> #[trigger] keys[i] != #[trigger] keys[j]
}

proof fn lemma_slot_of(keys: Seq<Option<TypeId>>, key: TypeId, at: int)
    requires
        0 <= at <= keys.len(),
        forall|j: int| 0 <= j < at ==> keys[j] != Some(key),
        at < keys.len() ==> keys[at] == Some(key),
    ensures
        slot_of(keys, key) == at,
        at < keys.len() <==> keys.contains(Some(key)),
    decreases at,
{
    if at > 0 {
        lemma_slot_of(keys.skip(1), key, at - 1);
        if keys.skip(1).contains(Some(key)) {
            let j = choose|j: int| 0 <= j < keys.skip(1).len() && keys.skip(1)[j] == Some(key);
            assert(keys[j + 1] == Some(key));
        }
        if keys.contains(Some(key)) {
            let j = choose|j: int| 0 <= j < keys.len() && keys[j] == Some(key);
            assert(keys.skip(1)[j - 1] == Some(key));
        }
    } else if keys.len() > 0 {
        assert(keys[0] == Some(key));
    }
}

/// An allocator of dense ids. An id is the position of an entry; an entry
/// holds the key that asked for it, or nothing where the id was handed out
/// without a key.
pub struct Mappings {
    keys: Vec<Option<TypeId>>,
}

impl View for Mappings {
    type V = Seq<Option<TypeId>>;

    closed spec fn view(&self) -> Seq<Option<TypeId>> {
        self.keys@
    }
}

impl Mappings {
    /// No key has two ids.
    pub open spec fn wf(&self) -> bool {
        distinct_keys(self@)
    }

    /// An allocator that has handed out no id.
    pub fn new() -> (mappings: Self)
        ensures
            mappings@ == Seq::<Option<TypeId>>::empty(),
            mappings.wf(),
    {
        Mappings { keys: Vec::new() }
    }

    /// The number of ids handed out: every id is below it.
    pub fn len(&self) -> (n: usize)
        ensures
            n == self@.len(),
    {
        self.keys.len()
    }

    /// Hands out the next id, to no key.
    pub fn allocate(&mut self) -> (id: usize)
        requires
            old(self).wf(),
        ensures
            id == old(self)@.len(),
            final(self)@ == old(self)@.push(None),
            final(self).wf(),
    {
        let id = self.keys.len();
        self.keys.push(None);
        id
    }

    /// The id of `key`: the one it has, or else the next one, which it keeps.
    pub fn get_or_alloc(&mut self, key: TypeId) -> (id: usize)
        requires
            old(self).wf(),
        ensures
            id == slot_of(old(self)@, key),
            final(self)@ == granted(old(self)@, key),
            final(self).wf(),
            final(self)@[id as int] == Some(key),
    {
        let n = self.keys.len();
        let mut at: usize = 0;
        while at < n
            invariant
                at <= n == self.keys@.len(),
                self.keys@ == old(self).keys@,
                distinct_keys(self.keys@),
                forall|j: int| 0 <= j < at ==> self.keys@[j] != Some(key),
            decreases n - at,
        {
            let found = match &self.keys[at] {
                Some(other) => same_key(other, &key),
                None => false,
            };
            if found {
                proof {
                    lemma_slot_of(self.keys@, key, at as int);
                }
                return at;
            }
            at += 1;
        }
        proof {
            lemma_slot_of(self.keys@, key, n as int);
        }
        self.keys.push(Some(key));
        n
    }
}

} // verus!
