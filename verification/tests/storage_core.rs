use reaver_ecs::collections::SparseSet;
use reaver_ecs::column::Column;
use reaver_ecs::component::{Descriptor, Layout};
use reaver_ecs::storage::{Error, Storage};

fn string_layout() -> Layout {
    Layout::new(std::mem::size_of::<String>(), std::mem::align_of::<String>())
}

#[test]
fn archetype_id() {
    let id: usize = reaver_ecs::archetype::Id::new(0).into();
    assert_eq!(id, 0usize);
}

#[test]
fn component_id() {
    let id: usize = reaver_ecs::component::Id::new(0).into();
    assert_eq!(id, 0usize);
}

#[test]
fn descriptor() {
    let descriptor = Descriptor::new(reaver_ecs::component::Id::new(0), 7, string_layout(), true);
    assert_eq!(descriptor.id(), reaver_ecs::component::Id::new(0));
    assert_eq!(descriptor.type_id(), 7);
    assert_eq!(descriptor.layout(), string_layout());
    assert!(descriptor.drop());
}

#[test]
fn sparse_set() {
    let mut sparse_set = SparseSet::<usize>::new();

    assert!(!sparse_set.contains(&19));
    assert!(sparse_set.insert(19));
    assert!(sparse_set.contains(&19));
    assert!(!sparse_set.insert(19));
    assert!(!sparse_set.contains(&13));
    assert!(sparse_set.insert(13));
    assert!(sparse_set.contains(&13));
}

#[test]
fn sparse_set_swap_remove() {
    let mut set = SparseSet::<usize>::new();
    assert!(set.insert(19));
    assert!(set.insert(13));
    assert!(set.insert(7));
    assert_eq!(set.len(), 3);

    // removing 19 moves the last value (7) into slot 0
    assert_eq!(set.swap_remove(&19), Some(0));
    assert!(!set.contains(&19));
    assert!(set.contains(&13));
    assert!(set.contains(&7));
    assert_eq!(set.len(), 2);
    assert_eq!(set.index_of(&7), Some(0));
    assert_eq!(set.index_of(&13), Some(1));
    assert_eq!(*set.at(0), 7);

    // removing an absent key is a no-op
    assert_eq!(set.swap_remove(&19), None);
    assert_eq!(set.len(), 2);
}

#[test]
fn registry_memoizes_descriptors() {
    let mut storage = Storage::new();
    let a = storage.register_component(100, Layout::new(4, 4), false);
    let b = storage.register_component(200, Layout::new(8, 8), true);
    // a repeated registration returns the original id, layout unchanged
    let a2 = storage.register_component(100, Layout::new(16, 16), true);
    assert_eq!(a, a2);
    assert_ne!(a, b);
    let d = storage.descriptor(a).unwrap();
    assert_eq!(d.type_id(), 100);
    assert_eq!(d.layout(), Layout::new(4, 4));
    assert!(!d.drop());
}

#[test]
fn position_velocity_example() {
    let mut storage = Storage::new();
    let position = storage.register_component(1, Layout::new(8, 4), false);
    let velocity = storage.register_component(2, Layout::new(8, 4), false);

    let e = storage.create_entity();
    let pos_bytes = vec![1, 0, 0, 0, 2, 0, 0, 0];
    let vel_bytes = vec![0, 0, 0, 0, 1, 0, 0, 0];
    assert_eq!(storage.add_component(&e, position, pos_bytes.clone()), Ok(()));
    assert_eq!(storage.add_component(&e, velocity, vel_bytes.clone()), Ok(()));

    assert_eq!(storage.get_component(&e, position), Some(pos_bytes));
    assert_eq!(storage.get_component(&e, velocity), Some(vel_bytes));

    // the entity resides in the {position, velocity} archetype, which holds
    // exactly one row
    let arch = storage.entity_archetype(&e).unwrap();
    assert_eq!(storage.archetype_len(arch), Some(1));
    assert_eq!(storage.archetype_entity(arch, 0), Some(e));
}

#[test]
fn add_component_keeps_prior_values() {
    let mut storage = Storage::new();
    let a = storage.register_component(1, Layout::new(2, 1), false);
    let b = storage.register_component(2, Layout::new(1, 1), false);
    let e = storage.create_entity();
    assert_eq!(storage.add_component(&e, a, vec![10, 20]), Ok(()));
    assert_eq!(storage.add_component(&e, b, vec![30]), Ok(()));
    assert_eq!(storage.get_component(&e, a), Some(vec![10, 20]));
    assert_eq!(storage.get_component(&e, b), Some(vec![30]));
}

#[test]
fn add_component_overwrites_existing_value() {
    let mut storage = Storage::new();
    let t = storage.register_component(1, Layout::new(1, 1), true);
    let e = storage.create_entity();
    assert_eq!(storage.add_component(&e, t, vec![1]), Ok(()));
    let arch = storage.entity_archetype(&e).unwrap();
    assert_eq!(storage.add_component(&e, t, vec![2]), Ok(()));
    assert_eq!(storage.get_component(&e, t), Some(vec![2]));
    // the entity stayed put and the replaced value was destructed once
    assert_eq!(storage.entity_archetype(&e), Some(arch));
    assert_eq!(storage.destructor_runs(arch, t), Some(1));
}

#[test]
fn remove_component_keeps_others() {
    let mut storage = Storage::new();
    let a = storage.register_component(1, Layout::new(2, 1), false);
    let b = storage.register_component(2, Layout::new(1, 1), false);
    let e = storage.create_entity();
    assert_eq!(storage.add_component(&e, a, vec![10, 20]), Ok(()));
    assert_eq!(storage.add_component(&e, b, vec![30]), Ok(()));
    assert_eq!(storage.remove_component(&e, a), Ok(()));
    assert_eq!(storage.get_component(&e, a), None);
    assert_eq!(storage.get_component(&e, b), Some(vec![30]));
}

#[test]
fn swap_remove_keeps_survivors() {
    let mut storage = Storage::new();
    let t = storage.register_component(1, Layout::new(1, 1), false);
    let ea = storage.create_entity();
    let eb = storage.create_entity();
    let ec = storage.create_entity();
    assert_eq!(storage.add_component(&ea, t, vec![1]), Ok(()));
    assert_eq!(storage.add_component(&eb, t, vec![2]), Ok(()));
    assert_eq!(storage.add_component(&ec, t, vec![3]), Ok(()));
    let arch = storage.entity_archetype(&ea).unwrap();
    assert_eq!(storage.archetype_len(arch), Some(3));

    // destroy the first row: the later rows stay retrievable with their
    // values and the row count drops to two
    assert_eq!(storage.destroy_entity(&ea), Ok(()));
    assert_eq!(storage.archetype_len(arch), Some(2));
    assert_eq!(storage.get_component(&eb, t), Some(vec![2]));
    assert_eq!(storage.get_component(&ec, t), Some(vec![3]));

    // destroy the last row as well
    assert_eq!(storage.destroy_entity(&ec), Ok(()));
    assert_eq!(storage.archetype_len(arch), Some(1));
    assert_eq!(storage.get_component(&eb, t), Some(vec![2]));
}

#[test]
fn add_remove_round_trip_restores_archetype() {
    let mut storage = Storage::new();
    let a = storage.register_component(1, Layout::new(1, 1), false);
    let b = storage.register_component(2, Layout::new(1, 1), false);
    let e = storage.create_entity();
    assert_eq!(storage.add_component(&e, a, vec![7]), Ok(()));
    let start = storage.entity_archetype(&e).unwrap();

    assert_eq!(storage.add_component(&e, b, vec![8]), Ok(()));
    assert_eq!(storage.remove_component(&e, b), Ok(()));

    assert_eq!(storage.entity_archetype(&e), Some(start));
    assert_eq!(storage.get_component(&e, a), Some(vec![7]));
    assert_eq!(storage.get_component(&e, b), None);

    // a freshly created entity returns to the zero-component archetype
    let f = storage.create_entity();
    let zero = storage.entity_archetype(&f).unwrap();
    assert_eq!(storage.add_component(&f, a, vec![9]), Ok(()));
    assert_eq!(storage.remove_component(&f, a), Ok(()));
    assert_eq!(storage.entity_archetype(&f), Some(zero));
}

#[test]
fn destructor_runs_once_per_destroyed_value() {
    let mut storage = Storage::new();
    let t = storage.register_component(1, Layout::new(1, 1), true);
    let e1 = storage.create_entity();
    let e2 = storage.create_entity();
    let e3 = storage.create_entity();
    assert_eq!(storage.add_component(&e1, t, vec![1]), Ok(()));
    assert_eq!(storage.add_component(&e2, t, vec![2]), Ok(()));
    assert_eq!(storage.add_component(&e3, t, vec![3]), Ok(()));
    let arch = storage.entity_archetype(&e1).unwrap();
    assert_eq!(storage.destructor_runs(arch, t), Some(0));

    assert_eq!(storage.destroy_entity(&e1), Ok(()));
    assert_eq!(storage.destroy_entity(&e2), Ok(()));
    assert_eq!(storage.destroy_entity(&e3), Ok(()));
    // three values discarded, three destructor runs: no double-drop, no leak
    assert_eq!(storage.destructor_runs(arch, t), Some(3));
    assert_eq!(storage.archetype_len(arch), Some(0));
}

#[test]
fn destructor_skipped_for_trivial_types() {
    let mut storage = Storage::new();
    let t = storage.register_component(1, Layout::new(1, 1), false);
    let e = storage.create_entity();
    assert_eq!(storage.add_component(&e, t, vec![1]), Ok(()));
    let arch = storage.entity_archetype(&e).unwrap();
    assert_eq!(storage.destroy_entity(&e), Ok(()));
    assert_eq!(storage.destructor_runs(arch, t), Some(0));
}

#[test]
fn remove_component_runs_destructor_in_old_archetype() {
    let mut storage = Storage::new();
    let t = storage.register_component(1, Layout::new(1, 1), true);
    let e = storage.create_entity();
    assert_eq!(storage.add_component(&e, t, vec![1]), Ok(()));
    let arch = storage.entity_archetype(&e).unwrap();
    assert_eq!(storage.remove_component(&e, t), Ok(()));
    assert_eq!(storage.destructor_runs(arch, t), Some(1));
    assert!(storage.is_alive(&e));
}

#[test]
fn unknown_entity_errors() {
    let mut storage = Storage::new();
    let t = storage.register_component(1, Layout::new(1, 1), false);
    let e = storage.create_entity();
    assert_eq!(storage.destroy_entity(&e), Ok(()));
    assert!(!storage.is_alive(&e));
    assert_eq!(storage.destroy_entity(&e), Err(Error::UnknownEntity));
    assert_eq!(storage.add_component(&e, t, vec![1]), Err(Error::UnknownEntity));
    assert_eq!(storage.remove_component(&e, t), Err(Error::UnknownEntity));
    assert_eq!(storage.get_component(&e, t), None);
}

#[test]
fn missing_component_error() {
    let mut storage = Storage::new();
    let t = storage.register_component(1, Layout::new(1, 1), false);
    let e = storage.create_entity();
    assert_eq!(storage.remove_component(&e, t), Err(Error::MissingComponent));
    assert_eq!(storage.get_component(&e, t), None);
}

#[test]
fn zero_sized_components() {
    let mut storage = Storage::new();
    let tag = storage.register_component(1, Layout::new(0, 1), false);
    let e = storage.create_entity();
    assert_eq!(storage.add_component(&e, tag, vec![]), Ok(()));
    assert_eq!(storage.get_component(&e, tag), Some(vec![]));
    assert_eq!(storage.remove_component(&e, tag), Ok(()));
    assert_eq!(storage.get_component(&e, tag), None);
}

#[test]
fn archetype_iteration_surface() {
    let mut storage = Storage::new();
    let t = storage.register_component(1, Layout::new(1, 1), false);
    let e1 = storage.create_entity();
    let e2 = storage.create_entity();
    assert_eq!(storage.add_component(&e1, t, vec![11]), Ok(()));
    assert_eq!(storage.add_component(&e2, t, vec![22]), Ok(()));
    let arch = storage.entity_archetype(&e1).unwrap();
    assert_eq!(storage.archetype_len(arch), Some(2));
    let mut seen = Vec::new();
    for row in 0..2 {
        let who = storage.archetype_entity(arch, row).unwrap();
        let val = storage.archetype_component(arch, t, row).unwrap();
        seen.push((who, val));
    }
    assert!(seen.contains(&(e1, vec![11])));
    assert!(seen.contains(&(e2, vec![22])));
}

#[test]
fn column_swap_remove_and_drop_accounting() {
    let d = Descriptor::new(reaver_ecs::component::Id::new(0), 1, Layout::new(2, 1), true);
    let mut col = Column::new(&d);
    assert_eq!(col.size(), 2);
    assert!(col.has_destructor());
    col.push_row(vec![1, 2]);
    col.push_row(vec![3, 4]);
    col.push_row(vec![5, 6]);
    assert_eq!(col.len(), 3);

    // moving a row out runs no destructor; the last row fills the gap
    let moved = col.swap_remove(0);
    assert_eq!(moved, vec![1, 2]);
    assert_eq!(col.len(), 2);
    assert_eq!(col.read_row(0), vec![5, 6]);
    assert_eq!(col.destructor_runs(), 0);

    // discarding a row runs it exactly once
    col.drop_row(1);
    assert_eq!(col.len(), 1);
    assert_eq!(col.destructor_runs(), 1);

    // overwriting destructs the replaced value
    col.replace(0, vec![9, 9]);
    assert_eq!(col.read_row(0), vec![9, 9]);
    assert_eq!(col.destructor_runs(), 2);
}
