use gamma_vk::ecs::sparse_set::SparseSet;
use gamma_vk::ecs::{Component, Entity};

#[derive(Debug, Clone, PartialEq)]
struct TestComponent(i32);
impl Component for TestComponent {}

#[test]
fn test_sparse_set_insert_and_get() {
    let mut storage = SparseSet::<TestComponent>::new();
    let entity = Entity::from_raw_parts(5, 1);

    storage.insert(entity, TestComponent(42));

    assert_eq!(storage.get(entity), Some(&TestComponent(42)));
}

#[test]
fn test_sparse_set_update() {
    let mut storage = SparseSet::<TestComponent>::new();
    let entity = Entity::from_raw_parts(3, 1);

    storage.insert(entity, TestComponent(10));
    storage.insert(entity, TestComponent(20));

    assert_eq!(storage.get(entity), Some(&TestComponent(20)));
}

#[test]
fn test_sparse_set_remove() {
    let mut storage = SparseSet::<TestComponent>::new();
    let entity = Entity::from_raw_parts(2, 1);

    storage.insert(entity, TestComponent(5));
    assert!(storage.remove(entity));
    assert_eq!(storage.get(entity), None);
    assert!(!storage.remove(entity)); // Second remove fails
}

#[test]
fn test_sparse_set_generation_check() {
    let mut storage = SparseSet::<TestComponent>::new();
    let entity_gen1 = Entity::from_raw_parts(1, 1);
    let entity_gen2 = Entity::from_raw_parts(1, 2);

    storage.insert(entity_gen1, TestComponent(100));

    // Different generation should not find component
    assert_eq!(storage.get(entity_gen2), None);
}

#[test]
fn test_sparse_set_iteration() {
    let mut storage = SparseSet::<TestComponent>::new();

    let e1 = Entity::from_raw_parts(1, 1);
    let e2 = Entity::from_raw_parts(5, 1);
    let e3 = Entity::from_raw_parts(3, 1);

    storage.insert(e1, TestComponent(1));
    storage.insert(e2, TestComponent(2));
    storage.insert(e3, TestComponent(3));

    let mut results: Vec<_> = storage.iter().into_iter().map(|(e, c)| (e, c.0)).collect();
    results.sort_by_key(|(_, val)| *val);

    assert_eq!(results, vec![(e1, 1), (e2, 2), (e3, 3)]);
}
