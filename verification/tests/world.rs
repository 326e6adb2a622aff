use gamma_vk::ecs::{Component, SparseSetBackend, World};

#[derive(Debug, Clone, PartialEq)]
struct Position {
    x: f32,
    y: f32,
}
impl Component for Position {}

#[derive(Debug, Clone, PartialEq)]
struct Velocity {
    dx: f32,
    dy: f32,
}
impl Component for Velocity {}

#[test]
fn test_world_creation() {
    let world = World::<SparseSetBackend>::new();
    assert!(world.is_ok());
}

#[test]
fn test_entity_builder() {
    let mut world = World::<SparseSetBackend>::new().unwrap();

    let entity = world
        .spawn()
        .with(Position { x: 1.0, y: 2.0 })
        .with(Velocity { dx: 0.5, dy: -0.5 })
        .build();

    assert!(world.is_alive(entity));
    assert_eq!(
        world.get::<Position>(entity),
        Some(&Position { x: 1.0, y: 2.0 })
    );
    assert_eq!(
        world.get::<Velocity>(entity),
        Some(&Velocity { dx: 0.5, dy: -0.5 })
    );
}

#[test]
fn test_query_single_component() {
    let mut world = World::<SparseSetBackend>::new().unwrap();

    let e1 = world.spawn().with(Position { x: 1.0, y: 1.0 }).build();
    let _e2 = world.spawn().with(Velocity { dx: 1.0, dy: 0.0 }).build();
    let e3 = world.spawn().with(Position { x: 3.0, y: 3.0 }).build();

    let positions: Vec<_> = world
        .query::<Position>()
        .into_iter()
        .map(|(e, _)| e)
        .collect();

    assert_eq!(positions.len(), 2);
    assert!(positions.contains(&e1));
    assert!(positions.contains(&e3));
}

#[test]
fn test_query_multiple_components() {
    let mut world = World::<SparseSetBackend>::new().unwrap();

    let e1 = world
        .spawn()
        .with(Position { x: 1.0, y: 1.0 })
        .with(Velocity { dx: 0.5, dy: 0.5 })
        .build();

    let _e2 = world.spawn().with(Position { x: 2.0, y: 2.0 }).build();

    let results = world.query2::<Position, Velocity>();

    assert_eq!(results.len(), 1);
    assert_eq!(results[0].0, e1);
}
