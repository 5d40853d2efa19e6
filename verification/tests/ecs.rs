use tb_ecs::entity::ArchetypeMatcher;
use tb_ecs::entity::Entities;
use tb_ecs::entity::Entity;
use tb_ecs::entity::MatchedEntities;
use tb_ecs::mask::ComponentMask;
use tb_ecs::world::World;

const COMPONENT_A: usize = 0;
const COMPONENT_B: usize = 1;

fn query(world: &World<i32, i64>, all: &[usize], none: &[usize]) -> Vec<Entity> {
    let mut matcher = ArchetypeMatcher::new();
    for &ci in all {
        matcher.add_all(ci);
    }
    for &ci in none {
        matcher.add_none(ci);
    }
    let mut matched = MatchedEntities::new(matcher);
    matched.do_match(world.entities());
    world.entities().matched_entities(&matched)
}

#[test]
fn component_it_works() {
    let mut world: World<i32, i64> = World::new();
    assert!(query(&world, &[COMPONENT_A, COMPONENT_B], &[]).is_empty());

    let mut creator = world.create_entity();
    creator.with(COMPONENT_A, 1);
    creator.with(COMPONENT_B, 2);
    let entity = creator.create(&mut world);

    let matches = query(&world, &[COMPONENT_A, COMPONENT_B], &[]);
    assert_eq!(matches.len(), 1);
    assert_eq!(matches[0], entity);
    assert_eq!(*world.get_component(entity, COMPONENT_A).unwrap(), 1);
    assert_eq!(*world.get_component(entity, COMPONENT_B).unwrap(), 2);
}

#[test]
fn component_anti_components() {
    let mut world: World<i32, i64> = World::new();
    let mut creator = world.create_entity();
    creator.with(COMPONENT_A, 1);
    creator.with(COMPONENT_B, 2);
    let both = creator.create(&mut world);
    let mut creator = world.create_entity();
    creator.with(COMPONENT_A, 11);
    let only_a = creator.create(&mut world);

    let matches = query(&world, &[COMPONENT_A, COMPONENT_B], &[]);
    assert_eq!(matches.len(), 1);
    assert_eq!(*world.get_component(matches[0], COMPONENT_A).unwrap(), 1);
    assert_eq!(*world.get_component(matches[0], COMPONENT_B).unwrap(), 2);

    let matches = query(&world, &[COMPONENT_A], &[COMPONENT_B]);
    assert_eq!(matches.len(), 1);
    assert_eq!(matches[0], only_a);
    assert_eq!(*world.get_component(matches[0], COMPONENT_A).unwrap(), 11);

    assert!(query(&world, &[COMPONENT_B], &[COMPONENT_A]).is_empty());
    let _ = both;
}

#[test]
fn query_intersection() {
    let mut world: World<i32, i64> = World::new();
    let mut creator = world.create_entity();
    creator.with(COMPONENT_A, 1);
    creator.with(COMPONENT_B, 2);
    let e1 = creator.create(&mut world);
    let mut creator = world.create_entity();
    creator.with(COMPONENT_A, 11);
    let e2 = creator.create(&mut world);
    let mut creator = world.create_entity();
    creator.with(COMPONENT_B, 22);
    let e3 = creator.create(&mut world);

    let matches = query(&world, &[COMPONENT_A, COMPONENT_B], &[]);
    assert_eq!(matches, vec![e1]);
    assert_eq!(*world.get_component(e1, COMPONENT_A).unwrap(), 1);
    assert_eq!(*world.get_component(e1, COMPONENT_B).unwrap(), 2);

    let matches = query(&world, &[COMPONENT_A], &[COMPONENT_B]);
    assert_eq!(matches, vec![e2]);
    assert_eq!(*world.get_component(e2, COMPONENT_A).unwrap(), 11);

    let matches = query(&world, &[COMPONENT_B], &[COMPONENT_A]);
    assert_eq!(matches, vec![e3]);
    assert_eq!(*world.get_component(e3, COMPONENT_B).unwrap(), 22);
}

#[test]
fn builder_rollback() {
    let mut world: World<i32, i64> = World::new();
    let mut creator = world.create_entity();
    creator.with(COMPONENT_A, 5);
    creator.with(COMPONENT_B, 6);
    drop(creator);
    assert_eq!(world.entities().len(), 0);
    assert!(query(&world, &[COMPONENT_A], &[]).is_empty());
    assert!(query(&world, &[COMPONENT_B], &[]).is_empty());
}

#[test]
fn kill_clears_components() {
    let mut world: World<i32, i64> = World::new();
    let mut creator = world.create_entity();
    creator.with(COMPONENT_A, 1);
    creator.with(COMPONENT_B, 2);
    let doomed = creator.create(&mut world);
    let mut creator = world.create_entity();
    creator.with(COMPONENT_A, 3);
    let survivor = creator.create(&mut world);

    world.kill(doomed);

    assert!(!world.entities().is_alive(doomed));
    assert!(world.get_component(doomed, COMPONENT_A).is_none());
    assert!(world.get_component(doomed, COMPONENT_B).is_none());
    assert!(!world.has_component(doomed, COMPONENT_A));
    assert!(!world.has_component(doomed, COMPONENT_B));
    assert!(query(&world, &[COMPONENT_A], &[]) == vec![survivor]);
    assert_eq!(*world.get_component(survivor, COMPONENT_A).unwrap(), 3);
    // Killing an already-dead entity is a no-op.
    world.kill(doomed);
    assert_eq!(world.entities().len(), 1);
}

#[test]
fn anti_filter_matches_absence() {
    let mut world: World<i32, i64> = World::new();
    let bare = world.create_entity().create(&mut world);
    let mut creator = world.create_entity();
    creator.with(COMPONENT_A, 9);
    let tagged = creator.create(&mut world);

    let matches = query(&world, &[], &[COMPONENT_A]);
    assert_eq!(matches, vec![bare]);
    let everyone = query(&world, &[], &[]);
    assert_eq!(everyone.len(), 2);
    assert!(everyone.contains(&bare) && everyone.contains(&tagged));
}

#[test]
fn entities_iter_lists_alive() {
    let mut entities = Entities::new();
    let e0 = entities.new_entity();
    let e1 = entities.new_entity();
    let e2 = entities.new_entity();
    entities.kill(e1);
    let listed = entities.iter();
    assert_eq!(listed.len(), 2);
    assert!(listed.contains(&e0) && listed.contains(&e2));
    assert!(!listed.contains(&e1));
    assert_eq!(entities.len(), 2);
    assert!(!entities.is_empty());
}

#[test]
fn component_mask_operations() {
    let mut small = ComponentMask::new();
    assert!(small.insert(1));
    assert!(!small.insert(1));
    let mut big = small.clone_mask();
    assert!(big.insert(4));
    assert!(small.is_subset(&big));
    assert!(!big.is_subset(&small));
    assert!(big.contains(4));
    assert!(!small.contains(4));
    assert!(!small.set_eq(&big));
    let mut other = ComponentMask::new();
    other.insert(2);
    assert!(small.is_disjoint(&other));
    assert!(!big.is_disjoint(&big));
    assert_eq!(big.iter_indices(), vec![1, 4]);
}

#[test]
fn set_component_replaces_value() {
    let mut world: World<i32, i64> = World::new();
    let mut creator = world.create_entity();
    creator.with(COMPONENT_A, 1);
    let e = creator.create(&mut world);
    assert_eq!(*world.get_component(e, COMPONENT_A).unwrap(), 1);
    world.set_component(e, COMPONENT_A, 7);
    assert_eq!(*world.get_component(e, COMPONENT_A).unwrap(), 7);
    // Presence and archetype are untouched by a value update.
    assert!(world.has_component(e, COMPONENT_A));
    assert_eq!(query(&world, &[COMPONENT_A], &[]), vec![e]);
}

#[test]
fn archetype_transitions_and_edge_cache() {
    let mut world: World<i32, i64> = World::new();
    // Components added one at a time move the entity along archetype
    // transition edges; a second entity walking the same path reuses the
    // cached edges.
    let e1 = world.create_entity().create(&mut world);
    world.insert_components(COMPONENT_B);
    world.insert_component(e1, COMPONENT_A, 1);
    world.insert_component(e1, COMPONENT_B, 2);
    let e2 = world.create_entity().create(&mut world);
    world.insert_component(e2, COMPONENT_A, 3);
    world.insert_component(e2, COMPONENT_B, 4);

    let matches = query(&world, &[COMPONENT_A, COMPONENT_B], &[]);
    assert_eq!(matches.len(), 2);
    assert!(matches.contains(&e1) && matches.contains(&e2));
    assert_eq!(*world.get_component(e1, COMPONENT_A).unwrap(), 1);
    assert_eq!(*world.get_component(e1, COMPONENT_B).unwrap(), 2);
    assert_eq!(*world.get_component(e2, COMPONENT_A).unwrap(), 3);
    assert_eq!(*world.get_component(e2, COMPONENT_B).unwrap(), 4);

    // A half-way entity sits in the intermediate archetype.
    let e3 = world.create_entity().create(&mut world);
    world.insert_component(e3, COMPONENT_A, 5);
    assert_eq!(query(&world, &[COMPONENT_A], &[COMPONENT_B]), vec![e3]);
}
