use gamma_vk::ecs::Component;
use std::any::TypeId;

#[derive(Debug, Clone)]
struct TestComponent {
    value: i32,
}

impl Component for TestComponent {}

#[test]
fn test_component_impl() {
    // This test just verifies that our Component trait can be implemented
    let component = TestComponent { value: 42 };
    assert_eq!(component.value, 42);

    // Component should be Send + Sync
    fn assert_send_sync<T: Send + Sync>() {}
    assert_send_sync::<TestComponent>();

    // Should be able to get TypeId
    let type_id = TypeId::of::<TestComponent>();
    assert_ne!(type_id, TypeId::of::<i32>());
}
