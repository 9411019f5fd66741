use dream_engine::ecs::{Component, ComponentStorage, ComponentVec, TypedComponentVec};

#[derive(Debug, Clone, PartialEq)]
struct Label(&'static str);

impl Component for Label {}

#[test]
fn swap_remove_keeps_the_other_entities() {
    let mut column = TypedComponentVec::new();
    let slots = [(0u32, "e0"), (1, "e1"), (2, "e2"), (3, "e3"), (4, "e4")];
    for (entity, name) in slots {
        column.insert(entity, Label(name));
    }
    assert_eq!(column.len(), 5);
    assert_eq!(column.remove(2), Some(Label("e2")));
    assert_eq!(column.get(0), Some(&Label("e0")));
    assert_eq!(column.get(1), Some(&Label("e1")));
    assert_eq!(column.get(3), Some(&Label("e3")));
    assert_eq!(column.get(4), Some(&Label("e4")));
    assert_eq!(column.get(2), None);
    assert_eq!(column.len(), 4);
    // the last slot moved into the vacated one
    assert_eq!(column.at(2), (4, &Label("e4")));
    assert_eq!(column.at(3), (3, &Label("e3")));
    assert_eq!(column.remove(2), None);
    assert_eq!(column.len(), 4);
}

#[test]
fn removing_the_last_slot_moves_nothing() {
    let mut column = TypedComponentVec::new();
    column.insert(5, Label("five"));
    column.insert(6, Label("six"));
    assert_eq!(column.remove(6), Some(Label("six")));
    assert_eq!(column.at(0), (5, &Label("five")));
    assert_eq!(column.remove(5), Some(Label("five")));
    assert_eq!(column.len(), 0);
    assert!(column.iter().is_empty());
}

#[test]
fn insert_overwrites_in_place() {
    let mut column = TypedComponentVec::new();
    column.insert(8, Label("a"));
    column.insert(3, Label("b"));
    column.insert(8, Label("c"));
    assert_eq!(column.len(), 2);
    assert_eq!(column.iter(), vec![(8, &Label("c")), (3, &Label("b"))]);
    assert!(column.contains(3));
    assert!(!column.contains(4));
}

#[test]
fn mutable_access_by_entity_and_by_slot() {
    let mut column = TypedComponentVec::new();
    column.insert(1, Label("one"));
    column.insert(2, Label("two"));
    *column.get_mut(2).unwrap() = Label("deux");
    assert!(column.get_mut(9).is_none());
    let (entity, value) = column.at_mut(0);
    assert_eq!(entity, 1);
    *value = Label("un");
    assert_eq!(column.iter(), vec![(1, &Label("un")), (2, &Label("deux"))]);
    for (_, value) in column.iter_mut() {
        *value = Label("x");
    }
    assert_eq!(column.get(1), Some(&Label("x")));
    assert_eq!(column.get(2), Some(&Label("x")));
}

#[test]
fn any_column_forgets_one_entity_or_all() {
    fn forget(column: &mut dyn ComponentVec, entity: u32) {
        column.remove(entity);
    }
    let mut column = TypedComponentVec::new();
    column.insert(1, Label("one"));
    column.insert(2, Label("two"));
    forget(&mut column, 1);
    assert_eq!(column.iter(), vec![(2, &Label("two"))]);
    ComponentVec::clear(&mut column);
    assert_eq!(column.len(), 0);
    column.insert(1, Label("again"));
    assert_eq!(column.get(1), Some(&Label("again")));
}

#[test]
fn columns_come_into_being_with_their_first_value() {
    let mut storage = ComponentStorage::new();
    assert!(storage.get_storage(0).is_none());
    assert_eq!(storage.get(0, 1), None);
    assert_eq!(storage.remove(0, 1), None);
    storage.insert(0, 1, Label("a"));
    storage.insert(7, 1, Label("b"));
    storage.insert(0, 2, Label("c"));
    assert_eq!(storage.get_storage(0).unwrap().len(), 2);
    assert_eq!(storage.get_storage(7).unwrap().len(), 1);
    assert!(storage.get_storage(3).is_none());
    assert_eq!(storage.get(0, 2), Some(&Label("c")));
    assert_eq!(storage.get(7, 2), None);
    *storage.get_mut(7, 1).unwrap() = Label("B");
    assert_eq!(storage.remove(7, 1), Some(Label("B")));
    // an emptied column stays registered
    assert_eq!(storage.get_storage(7).unwrap().len(), 0);
}

#[test]
fn remove_all_purges_every_column() {
    let mut storage = ComponentStorage::new();
    for kind in 0..3u64 {
        for entity in 0..4u32 {
            storage.insert(kind, entity, Label("v"));
        }
    }
    storage.remove_all(2);
    for kind in 0..3u64 {
        assert_eq!(storage.get(kind, 2), None);
        assert_eq!(storage.get(kind, 0), Some(&Label("v")));
        assert_eq!(storage.get(kind, 1), Some(&Label("v")));
        assert_eq!(storage.get(kind, 3), Some(&Label("v")));
    }
    storage.clear();
    for kind in 0..3u64 {
        assert_eq!(storage.get_storage(kind).unwrap().len(), 0);
    }
}

#[test]
fn two_columns_can_be_changed_at_once() {
    let mut storage = ComponentStorage::new();
    storage.insert(1, 10, Label("first"));
    storage.insert(2, 10, Label("second"));
    storage.insert(3, 10, Label("third"));
    {
        let (a, b) = storage.get_storage_pair_mut(3, 1).unwrap();
        a.insert(11, Label("third too"));
        assert_eq!(b.remove(10), Some(Label("first")));
    }
    assert_eq!(storage.get(3, 11), Some(&Label("third too")));
    assert_eq!(storage.get(1, 10), None);
    assert_eq!(storage.get(2, 10), Some(&Label("second")));
    assert!(storage.get_storage_pair_mut(1, 9).is_none());
    storage.get_storage_mut(2).unwrap().insert(12, Label("direct"));
    assert_eq!(storage.get(2, 12), Some(&Label("direct")));
    assert!(storage.get_storage_mut(9).is_none());
}
