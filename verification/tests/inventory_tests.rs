use ecs_experiment::EcsError;
use ecs_experiment::components::{Asset, AssetKind, Inventory, Pos};
use ecs_experiment::dispatcher::{Dispatcher, SystemSpec};
use ecs_experiment::inventory_system::InventorySystem;
use ecs_experiment::world::{EntityInit, ResourceId, World};

fn full_world() -> World {
    let mut world = World::new();
    world.register(ResourceId::StartPositions);
    world.register(ResourceId::EndPositions);
    world.register(ResourceId::Velocities);
    world.register(ResourceId::Inventories);
    world
}

// The total asset amount lying on the map plus held in the inventories
// of all live entities.
fn total_wealth(world: &World) -> u64 {
    let mut total = 0u64;
    let kinds = [AssetKind::Apple, AssetKind::Banana, AssetKind::Orange];
    let n = world.entity_count();
    let mut i = 0;
    while i < n {
        let entity = world.entity_at(i);
        if let Some(inv) = world.get_inventory(entity).unwrap() {
            for k in kinds.iter() {
                total += inv.amount_of(*k);
            }
        }
        i += 1;
    }
    for p in [
        Pos::new(0, 0),
        Pos::new(1, 1),
        Pos::new(1, 2),
        Pos::new(2, 4),
        Pos::new(5, 5),
    ] {
        if let Some(a) = world.asset_at(p) {
            total += a.amount;
        }
    }
    total
}

#[test]
fn test_inventory_system() {
    let dispatcher = Dispatcher::build(vec![
        SystemSpec::movement("movement".to_string(), vec![]),
        SystemSpec::pickup("inventory".to_string(), vec!["movement".to_string()]),
    ])
    .unwrap();

    let mut world = full_world();

    let _entity = world
        .create_entity(
            EntityInit::new()
                .with_start(0, 0)
                .with_end(2, 4)
                .with_velocity(1, 2),
        )
        .unwrap();

    dispatcher.run(&mut world);
}

#[test]
fn test_pickup_moves_asset_into_inventory() {
    let mut world = full_world();
    let entity = world
        .create_entity(
            EntityInit::new()
                .with_start(5, 5)
                .with_inventory(Inventory::new()),
        )
        .unwrap();
    world.place_asset(Pos::new(5, 5), Asset::new(AssetKind::Apple, 7));

    let mut system = InventorySystem;
    system.run(&mut world);

    let inv = world.get_inventory(entity).unwrap().unwrap();
    assert_eq!(inv.amount_of(AssetKind::Apple), 7);
    assert!(world.asset_at(Pos::new(5, 5)).is_none());
}

#[test]
fn test_pickup_second_tick_is_noop() {
    let mut world = full_world();
    let entity = world
        .create_entity(
            EntityInit::new()
                .with_start(5, 5)
                .with_inventory(Inventory::new()),
        )
        .unwrap();
    world.place_asset(Pos::new(5, 5), Asset::new(AssetKind::Banana, 3));

    let mut system = InventorySystem;
    system.run(&mut world);
    let after_first = world
        .get_inventory(entity)
        .unwrap()
        .unwrap()
        .amount_of(AssetKind::Banana);
    assert_eq!(after_first, 3);

    // Nothing changed in between: the second tick is a no-op.
    system.run(&mut world);
    let after_second = world
        .get_inventory(entity)
        .unwrap()
        .unwrap()
        .amount_of(AssetKind::Banana);
    assert_eq!(after_second, 3);
    assert!(world.asset_at(Pos::new(5, 5)).is_none());
    assert_eq!(world.asset_count(), 0);
}

#[test]
fn test_pickup_merges_with_existing_amount() {
    let mut world = full_world();
    let mut inv = Inventory::new();
    inv.add_asset(Asset::new(AssetKind::Orange, 10));
    let entity = world
        .create_entity(EntityInit::new().with_start(1, 1).with_inventory(inv))
        .unwrap();
    world.place_asset(Pos::new(1, 1), Asset::new(AssetKind::Orange, 5));

    let mut system = InventorySystem;
    system.run(&mut world);

    let held = world
        .get_inventory(entity)
        .unwrap()
        .unwrap()
        .amount_of(AssetKind::Orange);
    assert_eq!(held, 15);
}

#[test]
fn test_conservation_across_ticks() {
    let dispatcher = Dispatcher::build(vec![
        SystemSpec::movement("movement".to_string(), vec![]),
        SystemSpec::pickup("inventory".to_string(), vec!["movement".to_string()]),
    ])
    .unwrap();

    let mut world = full_world();
    let mut inv = Inventory::new();
    inv.add_asset(Asset::new(AssetKind::Apple, 2));
    let _walker = world
        .create_entity(
            EntityInit::new()
                .with_start(0, 0)
                .with_end(1, 2)
                .with_velocity(1, 2)
                .with_inventory(inv),
        )
        .unwrap();
    let _sitter = world
        .create_entity(
            EntityInit::new()
                .with_start(5, 5)
                .with_inventory(Inventory::new()),
        )
        .unwrap();
    world.place_asset(Pos::new(1, 2), Asset::new(AssetKind::Banana, 4));
    world.place_asset(Pos::new(5, 5), Asset::new(AssetKind::Apple, 9));
    world.place_asset(Pos::new(2, 4), Asset::new(AssetKind::Orange, 1));

    let before = total_wealth(&world);
    for _ in 0..4 {
        dispatcher.run(&mut world);
        assert_eq!(total_wealth(&world), before);
    }
}

#[test]
fn test_same_position_claim_conserves_total() {
    // Two entities on one asset position: exactly one claim succeeds;
    // which one is unspecified, but nothing is duplicated or lost.
    let mut world = full_world();
    let first = world
        .create_entity(
            EntityInit::new()
                .with_start(1, 1)
                .with_inventory(Inventory::new()),
        )
        .unwrap();
    let second = world
        .create_entity(
            EntityInit::new()
                .with_start(1, 1)
                .with_inventory(Inventory::new()),
        )
        .unwrap();
    world.place_asset(Pos::new(1, 1), Asset::new(AssetKind::Apple, 6));

    let mut system = InventorySystem;
    system.run(&mut world);

    let held_first = world
        .get_inventory(first)
        .unwrap()
        .unwrap()
        .amount_of(AssetKind::Apple);
    let held_second = world
        .get_inventory(second)
        .unwrap()
        .unwrap()
        .amount_of(AssetKind::Apple);
    assert_eq!(held_first + held_second, 6);
    assert!(held_first == 0 || held_second == 0);
    assert!(world.asset_at(Pos::new(1, 1)).is_none());
}

#[test]
fn test_destroy_entity_clears_all_storages() {
    let mut world = full_world();
    let entity = world
        .create_entity(
            EntityInit::new()
                .with_start(0, 0)
                .with_end(2, 4)
                .with_velocity(1, 2)
                .with_inventory(Inventory::new()),
        )
        .unwrap();
    assert!(world.is_alive(entity));

    world.destroy_entity(entity);

    assert!(!world.is_alive(entity));
    assert!(world.get_start_position(entity).unwrap().is_none());
    assert!(world.get_end_position(entity).unwrap().is_none());
    assert!(world.get_velocity(entity).unwrap().is_none());
    assert!(world.get_inventory(entity).unwrap().is_none());
    assert_eq!(world.entity_count(), 0);
}

#[test]
fn test_unregistered_component_rejected() {
    let mut world = World::new();
    let r = world.create_entity(EntityInit::new().with_start(0, 0));
    assert!(matches!(r, Err(EcsError::UnregisteredComponent)));
    // The failed creation changed nothing.
    assert_eq!(world.entity_count(), 0);

    let mut world2 = World::new();
    world2.register(ResourceId::StartPositions);
    let e = world2
        .create_entity(EntityInit::new().with_start(0, 0))
        .unwrap();
    assert!(matches!(
        world2.get_velocity(e),
        Err(EcsError::UnregisteredComponent)
    ));
}

#[test]
fn test_entity_ids_are_fresh() {
    let mut world = full_world();
    let a = world.create_entity(EntityInit::new()).unwrap();
    let b = world.create_entity(EntityInit::new()).unwrap();
    assert_ne!(a.id, b.id);
    world.destroy_entity(a);
    let c = world.create_entity(EntityInit::new()).unwrap();
    assert_ne!(c.id, a.id);
    assert_ne!(c.id, b.id);
}
