use tb_ecs::scheduler::Scheduler;
use tb_ecs::system::SystemInfo;
use tb_ecs::system::SystemRegistry;
use tb_ecs::topological_sort::SortError;
use tb_ecs::world::ResourceId;
use tb_ecs::world::World;

const COUNTER: u64 = 100;
const RES_X: u64 = 101;
const RES_Y: u64 = 102;

const SYS_T: u64 = 1;
const SYS_U: u64 = 2;
const SYS_P: u64 = 3;
const SYS_Q: u64 = 4;
const SYS_R: u64 = 5;
const SYS_A: u64 = 6;
const SYS_B: u64 = 7;

fn info(type_id: u64, name: &str, rbw: &[u64], writes: &[u64], raw: &[u64]) -> SystemInfo {
    SystemInfo::new(
        type_id,
        String::from(name),
        rbw.to_vec(),
        writes.to_vec(),
        raw.to_vec(),
    )
}

#[test]
fn registry_it_works() {
    let mut registry = SystemRegistry::new();
    registry.add_system_infos(vec![info(SYS_T, "test", &[], &[], &[])]);
    let mut has = false;
    let mut visitor = registry.systems();
    while let Some(e) = visitor.next() {
        e.unwrap();
        has = true;
    }
    assert!(has);
    let mut has = false;
    let mut visitor = registry.systems();
    while let Some(e) = visitor.next() {
        e.unwrap();
        has = true;
    }
    assert!(has);
    let found = registry.info_by_type_id(SYS_T).unwrap();
    assert_eq!(found.system_type_id(), SYS_T);
    assert_eq!(found.name().as_str(), "test");
}

#[test]
fn empty_plan_runs() {
    let mut world: World<i64, i64> = World::new();
    let mut registry = SystemRegistry::new();
    let mut scheduler = Scheduler::new(&mut world, &mut registry).unwrap();
    let order = scheduler.update(&mut world, &mut registry).unwrap();
    assert!(order.is_empty());
}

/// Run one frame sequentially: apply each system's effect in plan order.
fn tick(
    scheduler: &mut Scheduler,
    world: &mut World<i64, i64>,
    registry: &mut SystemRegistry,
    run: &mut dyn FnMut(u64, &mut World<i64, i64>),
) -> Vec<u64> {
    let order = scheduler.update(world, registry).unwrap();
    for &tid in order.iter() {
        run(tid, world);
    }
    order
}

#[test]
fn writer_chain_order() {
    let mut world: World<i64, i64> = World::new();
    world.insert(ResourceId::new(COUNTER), 0);
    let mut registry = SystemRegistry::new();
    // T increments; U doubles; T is admitted first, so each frame computes
    // double(counter + 1).
    registry.add_system_infos(vec![
        info(SYS_T, "increment", &[], &[COUNTER], &[]),
        info(SYS_U, "double", &[], &[COUNTER], &[]),
    ]);
    let mut scheduler = Scheduler::new(&mut world, &mut registry).unwrap();
    let mut run = |tid: u64, world: &mut World<i64, i64>| {
        let value = world.fetch_mut(ResourceId::new(COUNTER));
        if tid == SYS_T {
            *value += 1;
        } else {
            *value *= 2;
        }
    };
    let mut observed = vec![];
    for _frame in 0..3 {
        let order = tick(&mut scheduler, &mut world, &mut registry, &mut run);
        assert_eq!(order, vec![SYS_T, SYS_U]);
        observed.push(*world.fetch(ResourceId::new(COUNTER)));
    }
    assert_eq!(observed, vec![2, 6, 14]);
}

#[test]
fn read_before_and_after_write() {
    let mut world: World<i64, i64> = World::new();
    world.insert(ResourceId::new(RES_X), 100);
    let mut registry = SystemRegistry::new();
    registry.add_system_infos(vec![
        info(SYS_P, "write_x", &[], &[RES_X], &[]),
        info(SYS_Q, "read_before", &[RES_X], &[], &[]),
        info(SYS_R, "read_after", &[], &[], &[RES_X]),
    ]);
    let mut scheduler = Scheduler::new(&mut world, &mut registry).unwrap();
    let mut pre_frame = 100;
    for _frame in 0..3 {
        let order = scheduler.update(&mut world, &mut registry).unwrap();
        assert_eq!(order, vec![SYS_Q, SYS_P, SYS_R]);
        for &tid in order.iter() {
            if tid == SYS_P {
                *world.fetch_mut(ResourceId::new(RES_X)) = 30;
            } else if tid == SYS_Q {
                assert_eq!(*world.fetch(ResourceId::new(RES_X)), pre_frame);
            } else {
                assert_eq!(*world.fetch(ResourceId::new(RES_X)), 30);
            }
        }
        pre_frame = 30;
    }
}

#[test]
fn plan_refresh_admits_new_system() {
    let mut world: World<i64, i64> = World::new();
    world.insert(ResourceId::new(RES_X), 0);
    let mut registry = SystemRegistry::new();
    registry.add_system_infos(vec![info(SYS_A, "reader", &[], &[], &[RES_X])]);
    let mut scheduler = Scheduler::new(&mut world, &mut registry).unwrap();
    let order = scheduler.update(&mut world, &mut registry).unwrap();
    assert_eq!(order, vec![SYS_A]);

    registry.add_system_infos(vec![info(SYS_B, "writer", &[], &[RES_X], &[])]);
    let order = scheduler.update(&mut world, &mut registry).unwrap();
    // The new writer is admitted on the very next frame, before the
    // reader-after-write.
    assert_eq!(order, vec![SYS_B, SYS_A]);
    // Counters were recomputed before the reset: the reader now waits for
    // its guard and the writer; the writer only for its guard.
    assert_eq!(scheduler.plan_len(), 2);
    assert_eq!(scheduler.initial_count_at(0), 1);
    assert_eq!(scheduler.initial_count_at(1), 2);
    assert_eq!(scheduler.count_at(0), 1);
    assert_eq!(scheduler.count_at(1), 2);
}

#[test]
fn counters_reset_to_initial() {
    let mut world: World<i64, i64> = World::new();
    world.insert(ResourceId::new(RES_X), 0);
    let mut registry = SystemRegistry::new();
    registry.add_system_infos(vec![
        info(SYS_P, "writer", &[], &[RES_X], &[]),
        info(SYS_R, "reader", &[], &[], &[RES_X]),
    ]);
    let mut scheduler = Scheduler::new(&mut world, &mut registry).unwrap();
    let _ = scheduler.update(&mut world, &mut registry).unwrap();
    for i in 0..scheduler.plan_len() {
        assert_eq!(scheduler.count_at(i), scheduler.initial_count_at(i));
    }
    // Drive the frame by hand through the guard protocol.
    assert!(scheduler.begin_system(0));
    assert!(!scheduler.begin_system(1));
    let released = scheduler.complete_system(0);
    assert_eq!(released, vec![1]);
}

#[test]
fn unmatched_system_is_skipped() {
    let mut world: World<i64, i64> = World::new();
    let mut registry = SystemRegistry::new();
    // The declared resource does not exist, so the system is filtered out
    // of the plan for this frame.
    registry.add_system_infos(vec![info(SYS_P, "writer", &[], &[RES_X], &[])]);
    let mut scheduler = Scheduler::new(&mut world, &mut registry).unwrap();
    let order = scheduler.update(&mut world, &mut registry).unwrap();
    assert!(order.is_empty());
    // Inserting the resource signals the world channel; the next frame
    // admits the system.
    world.insert(ResourceId::new(RES_X), 1);
    let order = scheduler.update(&mut world, &mut registry).unwrap();
    assert_eq!(order, vec![SYS_P]);
}

#[test]
fn indirect_dependency_through_skipped_system() {
    let mut world: World<i64, i64> = World::new();
    world.insert(ResourceId::new(RES_X), 0);
    let mut registry = SystemRegistry::new();
    world.insert(ResourceId::new(RES_Y), 0);
    // The middle system also writes a resource that does not exist, so it
    // is skipped; the reader still ends up ordered after the writer,
    // inheriting the dependency through the skipped link.
    const RES_MISSING: u64 = 103;
    registry.add_system_infos(vec![
        info(SYS_P, "writer", &[], &[RES_X], &[]),
        info(SYS_Q, "middle", &[], &[RES_Y, RES_MISSING], &[RES_X]),
        info(SYS_R, "reader", &[], &[], &[RES_Y]),
    ]);
    let mut scheduler = Scheduler::new(&mut world, &mut registry).unwrap();
    let order = scheduler.update(&mut world, &mut registry).unwrap();
    assert_eq!(order, vec![SYS_P, SYS_R]);
    assert_eq!(scheduler.initial_count_at(0), 1);
    assert_eq!(scheduler.initial_count_at(1), 2);
}

#[test]
fn dependency_survives_two_skipped_links() {
    let mut world: World<i64, i64> = World::new();
    world.insert(ResourceId::new(RES_X), 0);
    const RES_Z: u64 = 104;
    world.insert(ResourceId::new(RES_Z), 0);
    let mut registry = SystemRegistry::new();
    // Two middle systems in a row each write a resource that does not
    // exist, so both are skipped; the final reader still inherits the
    // dependency on the first writer through both skipped links.
    const RES_MISSING_ONE: u64 = 105;
    const RES_MISSING_TWO: u64 = 106;
    registry.add_system_infos(vec![
        info(SYS_P, "writer", &[], &[RES_X], &[]),
        info(SYS_Q, "middle_one", &[], &[RES_Y, RES_MISSING_ONE], &[RES_X]),
        info(SYS_R, "middle_two", &[], &[RES_Z, RES_MISSING_TWO], &[RES_Y]),
        info(SYS_A, "reader", &[], &[], &[RES_Z]),
    ]);
    let mut scheduler = Scheduler::new(&mut world, &mut registry).unwrap();
    let order = scheduler.update(&mut world, &mut registry).unwrap();
    assert_eq!(order, vec![SYS_P, SYS_A]);
    assert_eq!(scheduler.initial_count_at(0), 1);
    assert_eq!(scheduler.initial_count_at(1), 2);
    // Finishing the writer releases the reader: the inherited edge is
    // wired into the counters, not only counted.
    assert!(scheduler.begin_system(0));
    assert!(!scheduler.begin_system(1));
    let released = scheduler.complete_system(0);
    assert_eq!(released, vec![1]);
}

#[test]
fn circular_declarations_reported() {
    let mut world: World<i64, i64> = World::new();
    world.insert(ResourceId::new(RES_X), 0);
    world.insert(ResourceId::new(RES_Y), 0);
    let mut registry = SystemRegistry::new();
    registry.add_system_infos(vec![
        info(SYS_A, "one", &[], &[RES_X], &[RES_Y]),
        info(SYS_B, "two", &[], &[RES_Y], &[RES_X]),
    ]);
    let result = Scheduler::new(&mut world, &mut registry);
    assert!(matches!(result, Err(SortError::CircularDependency)));
}

#[test]
fn resource_buckets_index_systems() {
    let mut registry = SystemRegistry::new();
    registry.add_system_infos(vec![
        info(SYS_P, "writer", &[], &[RES_X], &[]),
        info(SYS_Q, "read_before", &[RES_X], &[], &[]),
        info(SYS_R, "read_after", &[], &[], &[RES_X]),
    ]);
    let buckets = registry.resource_info(RES_X);
    assert_eq!(buckets.write_systems, vec![SYS_P]);
    assert_eq!(buckets.read_before_write_systems, vec![SYS_Q]);
    assert_eq!(buckets.read_after_write_systems, vec![SYS_R]);
    let empty = registry.resource_info(RES_Y);
    assert!(empty.write_systems.is_empty());
    assert!(empty.read_before_write_systems.is_empty());
    assert!(empty.read_after_write_systems.is_empty());
}
