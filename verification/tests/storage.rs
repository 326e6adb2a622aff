//! The sparse set on concrete values: order, stale handles, mutation.

use gamma_vk::ecs::sparse_set::SparseSet;
use gamma_vk::ecs::Entity;

fn rows(set: &SparseSet<i32>) -> Vec<(Entity, i32)> {
    set.iter().into_iter().map(|(e, v)| (e, *v)).collect()
}

#[test]
fn swap_remove_correctness() {
    let mut set = SparseSet::<i32>::new();
    let e1 = Entity::from_raw_parts(1, 0);
    let e5 = Entity::from_raw_parts(5, 0);
    let e3 = Entity::from_raw_parts(3, 0);
    set.insert(e1, 1);
    set.insert(e5, 2);
    set.insert(e3, 3);
    assert_eq!(rows(&set), vec![(e1, 1), (e5, 2), (e3, 3)]);

    assert!(set.remove(e5));

    // The last row took the place of the removed one.
    assert_eq!(rows(&set), vec![(e1, 1), (e3, 3)]);
    assert_eq!(set.get(e1), Some(&1));
    assert_eq!(set.get(e3), Some(&3));
    assert_eq!(set.get(e5), None);
}

#[test]
fn removing_the_first_row_moves_the_last_into_its_place() {
    let mut set = SparseSet::<i32>::new();
    let a = Entity::from_raw_parts(10, 0);
    let b = Entity::from_raw_parts(20, 0);
    let c = Entity::from_raw_parts(30, 0);
    let d = Entity::from_raw_parts(40, 0);
    for (e, v) in [(a, 1), (b, 2), (c, 3), (d, 4)] {
        set.insert(e, v);
    }
    assert!(set.remove(a));
    assert_eq!(rows(&set), vec![(d, 4), (b, 2), (c, 3)]);
    assert!(set.remove(c));
    assert_eq!(rows(&set), vec![(d, 4), (b, 2)]);
    assert!(set.remove(d));
    assert_eq!(rows(&set), vec![(b, 2)]);
    assert!(set.remove(b));
    assert_eq!(rows(&set), vec![]);
    assert_eq!(set.get(b), None);
}

#[test]
fn new_set_is_empty() {
    let mut set = SparseSet::<i32>::new();
    let e = Entity::from_raw_parts(0, 0);
    assert!(set.iter().is_empty());
    assert!(set.iter_mut().is_empty());
    assert_eq!(set.get(e), None);
    assert!(set.get_mut(e).is_none());
    assert!(!set.remove(e));
}

#[test]
fn insert_replaces_in_place() {
    let mut set = SparseSet::<i32>::new();
    let a = Entity::from_raw_parts(2, 0);
    let b = Entity::from_raw_parts(0, 0);
    set.insert(a, 1);
    set.insert(b, 2);
    set.insert(a, 10);
    assert_eq!(rows(&set), vec![(a, 10), (b, 2)]);
}

#[test]
fn insert_under_another_generation_takes_the_row_over() {
    let mut set = SparseSet::<i32>::new();
    let old = Entity::from_raw_parts(4, 1);
    let new = Entity::from_raw_parts(4, 2);
    let other = Entity::from_raw_parts(1, 0);
    set.insert(old, 1);
    set.insert(other, 5);
    set.insert(new, 2);

    assert_eq!(set.get(old), None);
    assert_eq!(set.get(new), Some(&2));
    assert_eq!(rows(&set), vec![(new, 2), (other, 5)]);
}

#[test]
fn stale_handle_reads_and_removes_nothing() {
    let mut set = SparseSet::<i32>::new();
    let stored = Entity::from_raw_parts(7, 3);
    let stale = Entity::from_raw_parts(7, 2);
    set.insert(stored, 42);

    assert_eq!(set.get(stale), None);
    assert!(set.get_mut(stale).is_none());
    assert!(!set.remove(stale));
    assert_eq!(set.get(stored), Some(&42));
    assert_eq!(rows(&set), vec![(stored, 42)]);
}

#[test]
fn index_beyond_the_sparse_array_is_absent() {
    let mut set = SparseSet::<i32>::new();
    set.insert(Entity::from_raw_parts(2, 0), 1);
    let far = Entity::from_raw_parts(1000, 0);
    assert_eq!(set.get(far), None);
    assert!(set.get_mut(far).is_none());
    assert!(!set.remove(far));
}

#[test]
fn get_mut_writes_the_stored_value() {
    let mut set = SparseSet::<i32>::new();
    let a = Entity::from_raw_parts(0, 0);
    let b = Entity::from_raw_parts(1, 0);
    set.insert(a, 1);
    set.insert(b, 2);
    *set.get_mut(b).unwrap() += 40;
    assert_eq!(rows(&set), vec![(a, 1), (b, 42)]);
}

#[test]
fn iter_mut_walks_the_dense_order_and_writes_through() {
    let mut set = SparseSet::<i32>::new();
    let a = Entity::from_raw_parts(9, 0);
    let b = Entity::from_raw_parts(3, 1);
    let c = Entity::from_raw_parts(6, 2);
    set.insert(a, 1);
    set.insert(b, 2);
    set.insert(c, 3);

    let mut seen = Vec::new();
    for (e, v) in set.iter_mut() {
        seen.push((e, *v));
        *v *= 10;
    }
    assert_eq!(seen, vec![(a, 1), (b, 2), (c, 3)]);
    assert_eq!(rows(&set), vec![(a, 10), (b, 20), (c, 30)]);
}

#[test]
fn reinsert_after_remove_appends() {
    let mut set = SparseSet::<i32>::new();
    let a = Entity::from_raw_parts(0, 0);
    let b = Entity::from_raw_parts(1, 0);
    set.insert(a, 1);
    set.insert(b, 2);
    assert!(set.remove(a));
    set.insert(a, 3);
    assert_eq!(rows(&set), vec![(b, 2), (a, 3)]);
}

#[test]
fn packed_id_is_generation_above_index() {
    assert_eq!(Entity::from_raw_parts(0, 0).id(), 0);
    assert_eq!(Entity::from_raw_parts(1, 0).id(), 1);
    assert_eq!(Entity::from_raw_parts(0, 1).id(), 1 << 32);
    assert_eq!(Entity::from_raw_parts(7, 3).id(), 3 * 4_294_967_296 + 7);
    assert_eq!(Entity::from_raw_parts(u32::MAX, u32::MAX).id(), u64::MAX);
    assert_eq!(Entity::from_raw_parts(u32::MAX, 0).id(), 4_294_967_295);
}
