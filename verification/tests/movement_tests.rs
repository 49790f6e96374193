use ecs_experiment::movement_system::MovementSystem;
use ecs_experiment::world::{EntityInit, ResourceId, World};

fn kinematics_world(
    start: (i64, i64),
    end: (i64, i64),
    vel: (u64, u64),
) -> (World, ecs_experiment::registry::EntityId) {
    let mut world = World::new();
    world.register(ResourceId::StartPositions);
    world.register(ResourceId::EndPositions);
    world.register(ResourceId::Velocities);
    let init = EntityInit::new()
        .with_start(start.0, start.1)
        .with_end(end.0, end.1)
        .with_velocity(vel.0, vel.1);
    let entity = world.create_entity(init).unwrap();
    (world, entity)
}

#[test]
fn test_movement() {
    let (mut world, entity) = kinematics_world((0, 0), (2, 4), (1, 2));

    let mut movement_system = MovementSystem;
    movement_system.run(&mut world);

    let start_pos = world.get_start_position(entity).unwrap().copied().unwrap();
    assert_eq!(start_pos.point.x, 1);
    assert_eq!(start_pos.point.y, 2);

    let end_pos = world.get_end_position(entity).unwrap().copied().unwrap();
    assert_eq!(end_pos.point.x, 2);
    assert_eq!(end_pos.point.y, 4);

    movement_system.run(&mut world);

    let start_pos = world.get_start_position(entity).unwrap().copied().unwrap();
    assert_eq!(start_pos.point.x, 2);
    assert_eq!(start_pos.point.y, 4);
}

// The exactly-reachable target: the distance is a whole number of steps
// per axis, so the entity locks onto the target and rests there.
#[test]
fn test_exact_convergence_then_rest() {
    let (mut world, entity) = kinematics_world((0, 0), (2, 4), (1, 2));
    let mut system = MovementSystem;
    system.run(&mut world);
    system.run(&mut world);
    let at = world.get_start_position(entity).unwrap().copied().unwrap();
    assert_eq!((at.point.x, at.point.y), (2, 4));
    // The axis is at rest now: further ticks change nothing.
    system.run(&mut world);
    let at = world.get_start_position(entity).unwrap().copied().unwrap();
    assert_eq!((at.point.x, at.point.y), (2, 4));
}

// The documented divergence: a step larger than the remaining distance
// overshoots, the sign of the remaining distance flips each tick, and
// the entity oscillates forever instead of converging.
#[test]
fn test_overshoot_oscillates_forever() {
    let (mut world, entity) = kinematics_world((0, 0), (1, 1), (3, 3));
    let mut system = MovementSystem;

    system.run(&mut world);
    let at = world.get_start_position(entity).unwrap().copied().unwrap();
    assert_eq!((at.point.x, at.point.y), (3, 3));

    system.run(&mut world);
    let at = world.get_start_position(entity).unwrap().copied().unwrap();
    assert_eq!((at.point.x, at.point.y), (0, 0));

    system.run(&mut world);
    let at = world.get_start_position(entity).unwrap().copied().unwrap();
    assert_eq!((at.point.x, at.point.y), (3, 3));
}

// A zero-velocity axis is permanently stalled: the x axis never moves
// however far the target is, while the y axis still advances.
#[test]
fn test_zero_velocity_axis_stalls() {
    let (mut world, entity) = kinematics_world((0, 0), (10, 4), (0, 2));
    let mut system = MovementSystem;
    system.run(&mut world);
    system.run(&mut world);
    let at = world.get_start_position(entity).unwrap().copied().unwrap();
    assert_eq!((at.point.x, at.point.y), (0, 4));
}

// An entity lacking one of the three components is left out of the join
// and never moves.
#[test]
fn test_entity_without_velocity_not_moved() {
    let mut world = World::new();
    world.register(ResourceId::StartPositions);
    world.register(ResourceId::EndPositions);
    world.register(ResourceId::Velocities);
    let init = EntityInit::new().with_start(1, 1).with_end(9, 9);
    let entity = world.create_entity(init).unwrap();
    let mut system = MovementSystem;
    system.run(&mut world);
    let at = world.get_start_position(entity).unwrap().copied().unwrap();
    assert_eq!((at.point.x, at.point.y), (1, 1));
}
