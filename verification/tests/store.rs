use std::any::TypeId;
use tonks::mappings::Mappings;
use tonks::resources::{resource_id_for, ResourceId, ResourceMissing, Resources};
use tonks::system::{system_id_for, Read, SystemData, SystemId, Write};

struct Position;
struct Velocity;
struct Mass;

#[test]
fn new_store_is_empty() {
    let store: Resources<u32> = Resources::new();
    assert_eq!(store.len(), 0);
    assert!(!store.contains(ResourceId(0)));
    assert_eq!(store.get(ResourceId(0)), Err(ResourceMissing(ResourceId(0))));
}

#[test]
fn insert_stores_and_replaces() {
    let mut store = Resources::new();
    assert_eq!(store.insert(ResourceId(2), 7u32), None);
    assert_eq!(store.len(), 3);
    assert!(store.contains(ResourceId(2)));
    assert!(!store.contains(ResourceId(0)));
    assert!(!store.contains(ResourceId(1)));
    assert!(!store.contains(ResourceId(3)));
    assert_eq!(store.get(ResourceId(2)), Ok(&7));
    assert_eq!(store.insert(ResourceId(2), 9), Some(7));
    assert_eq!(store.get(ResourceId(2)), Ok(&9));
    assert_eq!(store.insert(ResourceId(0), 1), None);
    assert_eq!(store.len(), 3);
    assert_eq!(store.get(ResourceId(0)), Ok(&1));
    assert_eq!(store.get(ResourceId(2)), Ok(&9));
}

#[test]
fn missing_resource_is_reported() {
    let mut store = Resources::new();
    store.insert(ResourceId(1), 5u32);
    assert_eq!(store.get(ResourceId(0)), Err(ResourceMissing(ResourceId(0))));
    assert_eq!(store.get(ResourceId(4)), Err(ResourceMissing(ResourceId(4))));
    assert_eq!(store.get_mut(ResourceId(0)), Err(ResourceMissing(ResourceId(0))));
    assert_eq!(store.get_mut(ResourceId(4)), Err(ResourceMissing(ResourceId(4))));
}

#[test]
fn get_mut_changes_the_value_in_place() {
    let mut store = Resources::new();
    store.insert(ResourceId(0), 5u32);
    store.insert(ResourceId(1), 6u32);
    *store.get_mut(ResourceId(0)).unwrap() += 10;
    assert_eq!(store.get(ResourceId(0)), Ok(&15));
    assert_eq!(store.get(ResourceId(1)), Ok(&6));
}

#[test]
fn ids_are_dense_and_kept() {
    let mut ids = Mappings::new();
    assert_eq!(ids.len(), 0);
    assert_eq!(ids.get_or_alloc(TypeId::of::<Position>()), 0);
    assert_eq!(ids.get_or_alloc(TypeId::of::<Velocity>()), 1);
    assert_eq!(ids.get_or_alloc(TypeId::of::<Position>()), 0);
    assert_eq!(ids.allocate(), 2);
    assert_eq!(ids.get_or_alloc(TypeId::of::<Mass>()), 3);
    assert_eq!(ids.get_or_alloc(TypeId::of::<Velocity>()), 1);
    assert_eq!(ids.allocate(), 4);
    assert_eq!(ids.len(), 5);
}

#[test]
fn a_type_keeps_its_resource_id() {
    let mut ids = Mappings::new();
    let position = resource_id_for::<Position>(&mut ids);
    let velocity = resource_id_for::<Velocity>(&mut ids);
    assert_eq!(position, ResourceId(0));
    assert_eq!(velocity, ResourceId(1));
    assert_eq!(resource_id_for::<Position>(&mut ids), position);
    assert_eq!(resource_id_for::<Velocity>(&mut ids), velocity);
    assert_eq!(ids.len(), 2);
}

#[test]
fn a_type_keeps_its_system_id() {
    let mut ids = Mappings::new();
    let first = system_id_for::<Position>(&mut ids);
    let second = system_id_for::<Mass>(&mut ids);
    assert_eq!(first, SystemId(0));
    assert_eq!(second, SystemId(1));
    assert_eq!(system_id_for::<Mass>(&mut ids), second);
    assert_eq!(system_id_for::<Position>(&mut ids), first);
    assert_eq!(ids.len(), 2);
}

#[test]
fn handles_declare_their_resource() {
    let mut ids = Mappings::new();
    let read = Read::<Position>::new(&mut ids);
    let write = Write::<Velocity>::new(&mut ids);
    assert_eq!(read.id(), ResourceId(0));
    assert_eq!(write.id(), ResourceId(1));
    assert_eq!(read.reads(), vec![ResourceId(0)]);
    assert_eq!(read.writes(), vec![]);
    assert_eq!(write.reads(), vec![]);
    assert_eq!(write.writes(), vec![ResourceId(1)]);
    assert_eq!(().reads(), vec![]);
    assert_eq!(().writes(), vec![]);
}

#[test]
fn tuples_concatenate_their_handles() {
    let mut ids = Mappings::new();
    let position = Read::<Position>::new(&mut ids);
    let velocity = Write::<Velocity>::new(&mut ids);
    let mass = Read::<Mass>::new(&mut ids);
    let again = Write::<Position>::new(&mut ids);
    let one = (Read::<Mass>::new(&mut ids),);
    assert_eq!(one.reads(), vec![ResourceId(2)]);
    assert_eq!(one.writes(), vec![]);
    let two = (Read::<Position>::new(&mut ids), Write::<Velocity>::new(&mut ids));
    assert_eq!(two.reads(), vec![ResourceId(0)]);
    assert_eq!(two.writes(), vec![ResourceId(1)]);
    let three = (Write::<Mass>::new(&mut ids), (), Read::<Velocity>::new(&mut ids));
    assert_eq!(three.reads(), vec![ResourceId(1)]);
    assert_eq!(three.writes(), vec![ResourceId(2)]);
    let four = (position, velocity, mass, again);
    assert_eq!(four.reads(), vec![ResourceId(0), ResourceId(2)]);
    assert_eq!(four.writes(), vec![ResourceId(1), ResourceId(0)]);
    let nested = (four, two);
    assert_eq!(
        nested.reads(),
        vec![ResourceId(0), ResourceId(2), ResourceId(0)]
    );
    assert_eq!(
        nested.writes(),
        vec![ResourceId(1), ResourceId(0), ResourceId(1)]
    );
}

#[test]
fn handles_load_from_the_store() {
    let mut ids = Mappings::new();
    let position = Read::<Position>::new(&mut ids);
    let velocity = Write::<Velocity>::new(&mut ids);
    let mut store = Resources::new();
    store.insert(position.id(), 3u32);
    assert_eq!(position.load(&store), Ok(&3));
    assert_eq!(velocity.load(&mut store), Err(ResourceMissing(ResourceId(1))));
    store.insert(velocity.id(), 4u32);
    *velocity.load(&mut store).unwrap() = 8;
    assert_eq!(store.get(ResourceId(1)), Ok(&8));
    assert_eq!(store.get(ResourceId(0)), Ok(&3));
}
