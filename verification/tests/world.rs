use tb_ecs::entity::Entity;
use tb_ecs::world::ResourceId;
use tb_ecs::world::World;

const TEST_RESOURCE: u64 = 1;

#[test]
fn world_works() {
    let mut world: World<i32, i32> = World::new();
    let test_resource = world.try_fetch(ResourceId::new(TEST_RESOURCE));
    assert!(test_resource.is_none());
    world.insert(ResourceId::new(TEST_RESOURCE), 10);
    assert!(world.try_fetch(ResourceId::new(TEST_RESOURCE)).is_some());
    assert_eq!(*world.fetch(ResourceId::new(TEST_RESOURCE)), 10);
    let resource: &mut i32 = world.fetch_mut(ResourceId::new(TEST_RESOURCE));
    *resource = 20;
    assert_eq!(*world.fetch(ResourceId::new(TEST_RESOURCE)), 20);
}

#[test]
fn fetch_mut_error() {
    let mut world: World<i32, i32> = World::new();
    let result = world.try_fetch_mut(ResourceId::new(TEST_RESOURCE));
    assert!(result.is_none());
}

#[test]
fn first_insert_wins() {
    let mut world: World<i32, i32> = World::new();
    assert!(world.insert(ResourceId::new(7), 1));
    // A second insert under the same identifier is refused: the stored
    // value stays what the first insert put there.
    assert!(!world.insert(ResourceId::new(7), 2));
    assert_eq!(*world.fetch(ResourceId::new(7)), 1);
    assert!(world.contains(ResourceId::new(7)));
    assert!(!world.contains(ResourceId::new(8)));
}

#[test]
fn entity_entity_life() {
    let mut world: World<i32, i32> = World::new();
    let entity0 = world.create_entity().create(&mut world);
    assert_eq!(entity0.id(), 0);
    let entity1 = world.create_entity().create(&mut world);
    assert_eq!(entity1.id(), 1);
    assert!(world.entities().is_alive(entity0));
    assert!(world.entities().is_alive(entity1));
    world.kill(entity0);
    assert!(!world.entities().is_alive(entity0));
    // Identifiers are never reused: the next entity gets a fresh one.
    let entity0 = world.create_entity().create(&mut world);
    assert_eq!(entity0.id(), 2);
    assert!(world.entities().is_alive(entity0));
}

#[test]
fn entity_create_entity_failed() {
    let mut world: World<i32, i32> = World::new();
    let entity = world.create_entity().create(&mut world);
    assert_eq!(entity.id(), 0);
    assert!(world.entities().is_alive(entity));
    // A builder dropped without committing leaves no trace.
    let mut abandoned = world.create_entity();
    abandoned.with(0, 5);
    drop(abandoned);
    assert!(!world.entities().is_alive(Entity::new(1)));
    assert_eq!(world.entities().len(), 1);
}

#[test]
fn resource_change_events_signal_readers() {
    let mut world: World<i32, i32> = World::new();
    let reader = world.register_resource_event_reader();
    assert!(!world.resource_events_read_any(&reader));
    world.insert(ResourceId::new(3), 30);
    assert!(world.resource_events_read_any(&reader));
    // A refused duplicate insert pushes no event.
    world.insert(ResourceId::new(3), 31);
    assert!(!world.resource_events_read_any(&reader));
}
