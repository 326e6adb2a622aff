use gamma_vk::ecs::Entity;
use std::collections::HashSet;

#[test]
fn test_entity_creation() {
    let entity = Entity::from_raw_parts(42, 1);
    assert_eq!(entity.index(), 42);
    assert_eq!(entity.generation(), 1);
}

#[test]
fn test_entity_id_packing() {
    let entity = Entity::from_raw_parts(100, 5);
    let packed_id = entity.id();

    // Verify packing
    assert_eq!(packed_id, (5u64 << 32) | 100);

    // Different entities have different IDs
    let entity2 = Entity::from_raw_parts(100, 6);
    assert_ne!(entity.id(), entity2.id());
}

#[test]
fn test_entity_equality() {
    let e1 = Entity::from_raw_parts(1, 1);
    let e2 = Entity::from_raw_parts(1, 1);
    let e3 = Entity::from_raw_parts(1, 2);
    let e4 = Entity::from_raw_parts(2, 1);

    assert_eq!(e1, e2);
    assert_ne!(e1, e3); // Different generation
    assert_ne!(e1, e4); // Different ID
}

#[test]
fn entities_hash_by_both_fields() {
    let mut seen = HashSet::new();
    assert!(seen.insert(Entity::from_raw_parts(1, 1)));
    assert!(!seen.insert(Entity::from_raw_parts(1, 1)));
    assert!(seen.insert(Entity::from_raw_parts(1, 2)));
    assert!(seen.insert(Entity::from_raw_parts(2, 1)));
    assert_eq!(seen.len(), 3);
}

#[test]
fn entities_are_plain_values() {
    let e = Entity::from_raw_parts(3, 4);
    let copy = e;
    assert_eq!(e, copy);
    assert_eq!(copy.index(), 3);
    assert_eq!(copy.generation(), 4);
    assert_eq!(e.id(), copy.id());
}
