use ecs_experiment::EcsError;
use ecs_experiment::dispatcher::{Dispatcher, SystemKind, SystemSpec};
use ecs_experiment::world::{EntityInit, ResourceId, World};

fn kinematics_world() -> (World, ecs_experiment::registry::EntityId) {
    let mut world = World::new();
    world.register(ResourceId::StartPositions);
    world.register(ResourceId::EndPositions);
    world.register(ResourceId::Velocities);
    let init = EntityInit::new()
        .with_start(0, 0)
        .with_end(2, 4)
        .with_velocity(1, 2);
    let entity = world.create_entity(init).unwrap();
    (world, entity)
}

#[test]
fn test_dispatcher_no_dependency() {
    let dispatcher = Dispatcher::build(vec![SystemSpec::movement(
        "movement".to_string(),
        vec![],
    )])
    .unwrap();

    let (mut world, entity) = kinematics_world();

    dispatcher.run(&mut world);
    {
        let start_pos = world.get_start_position(entity).unwrap().copied().unwrap();
        assert_eq!(start_pos.point.x, 1);
        assert_eq!(start_pos.point.y, 2);
    }
    dispatcher.run(&mut world);
    {
        let start_pos = world.get_start_position(entity).unwrap().copied().unwrap();
        assert_eq!(start_pos.point.x, 2);
        assert_eq!(start_pos.point.y, 4);
    }
}

#[test]
fn test_dispatcher_say_goodbye() {
    let dispatcher = Dispatcher::build(vec![
        SystemSpec::movement("movement".to_string(), vec![]),
        SystemSpec::observer("final_report".to_string(), vec!["movement".to_string()]),
    ])
    .unwrap();

    let (mut world, _entity) = kinematics_world();

    dispatcher.run(&mut world);
}

#[test]
fn test_dispatcher_say_goodbye_to_entities() {}

#[test]
fn query_entity_contain_position_component() {
    let mut world = World::new();
    world.register(ResourceId::StartPositions);
    world.register(ResourceId::EndPositions);
    world.register(ResourceId::Velocities);

    let _entity1 = world
        .create_entity(
            EntityInit::new()
                .with_start(0, 0)
                .with_end(2, 4)
                .with_velocity(1, 2),
        )
        .unwrap();

    let _entity2 = world
        .create_entity(EntityInit::new().with_end(2, 4))
        .unwrap();

    let mut v = Vec::new();
    let n = world.entity_count();
    let mut i = 0;
    while i < n {
        let entity = world.entity_at(i);
        if world.get_start_position(entity).unwrap().is_some() {
            v.push(entity.id);
        }
        i += 1;
    }
    println!("{:?}", &v);
}

#[test]
fn test_dispatcher_respects_declared_order() {
    // The dependent system runs after its predecessor: pickup declared
    // after movement sees the moved position, so the entity collects the
    // asset lying at the position it reaches this tick.
    let dispatcher = Dispatcher::build(vec![
        SystemSpec::movement("movement".to_string(), vec![]),
        SystemSpec::pickup("inventory".to_string(), vec!["movement".to_string()]),
    ])
    .unwrap();

    let mut world = World::new();
    world.register(ResourceId::StartPositions);
    world.register(ResourceId::EndPositions);
    world.register(ResourceId::Velocities);
    world.register(ResourceId::Inventories);
    let entity = world
        .create_entity(
            EntityInit::new()
                .with_start(0, 0)
                .with_end(1, 2)
                .with_velocity(1, 2)
                .with_inventory(ecs_experiment::components::Inventory::new()),
        )
        .unwrap();
    world.place_asset(
        ecs_experiment::components::Pos::new(1, 2),
        ecs_experiment::components::Asset::new(ecs_experiment::components::AssetKind::Apple, 4),
    );

    dispatcher.run(&mut world);

    let inv = world.get_inventory(entity).unwrap().unwrap();
    assert_eq!(
        inv.amount_of(ecs_experiment::components::AssetKind::Apple),
        4
    );
    assert!(world
        .asset_at(ecs_experiment::components::Pos::new(1, 2))
        .is_none());
}

#[test]
fn test_self_cycle_fails() {
    let r = Dispatcher::build(vec![SystemSpec::movement(
        "movement".to_string(),
        vec!["movement".to_string()],
    )]);
    assert!(matches!(r, Err(EcsError::CyclicDependency)));
}

#[test]
fn test_mutual_cycle_fails() {
    let r = Dispatcher::build(vec![
        SystemSpec::movement("movement".to_string(), vec!["inventory".to_string()]),
        SystemSpec::pickup("inventory".to_string(), vec!["movement".to_string()]),
    ]);
    assert!(matches!(r, Err(EcsError::CyclicDependency)));
}

#[test]
fn test_unknown_dependency_fails() {
    let r = Dispatcher::build(vec![SystemSpec::movement(
        "movement".to_string(),
        vec!["nonexistent".to_string()],
    )]);
    assert!(matches!(r, Err(EcsError::UnknownDependency)));
}

#[test]
fn test_access_conflict_fails() {
    // A system asking for shared and exclusive access to the same
    // resource is a system-definition bug, rejected at build time.
    let bad = SystemSpec::new(
        "broken".to_string(),
        vec![],
        vec![ResourceId::StartPositions],
        vec![ResourceId::StartPositions],
        SystemKind::Observer,
    );
    let r = Dispatcher::build(vec![bad]);
    assert!(matches!(r, Err(EcsError::AccessConflict)));
}
